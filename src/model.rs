use vstd::prelude::*;
use crate::scoring::texts;

verus! {

/// A registered group; its email is its identity.
pub struct Group {
    pub name: String,
    pub email: String,
}

/// A registered company; its email is its identity.
pub struct Company {
    pub name: String,
    pub email: String,
}

/// A project offered by a company.
pub struct Project {
    pub id: String,
    pub company_email: String,
    pub name: String,
    pub description: Option<String>,
    pub capacity: u32,
    pub active: bool,
}

/// A pairing of a group with a project.
pub struct MatchResult {
    pub group_email: String,
    pub project_id: String,
    pub project_name: String,
    pub company_email: String,
}

/// A group's ranked list of project ids, most preferred first.
pub struct GroupPreferencesResponse {
    pub group_email: String,
    pub project_ids_ranked: Vec<String>,
}

/// A project's ranked list of group emails, most preferred first.
pub struct ProjectPreferencesResponse {
    pub project_id: String,
    pub group_emails_ranked: Vec<String>,
}

pub struct GroupView {
    pub name: Seq<char>,
    pub email: Seq<char>,
}

pub struct ProjectView {
    pub id: Seq<char>,
    pub company_email: Seq<char>,
    pub name: Seq<char>,
    pub capacity: nat,
    pub active: bool,
}

pub struct MatchView {
    pub group_email: Seq<char>,
    pub project_id: Seq<char>,
    pub project_name: Seq<char>,
    pub company_email: Seq<char>,
}

/// A ranking owned by one party: a group's list of projects, or a project's
/// list of groups.
pub struct RankingView {
    pub owner: Seq<char>,
    pub ranked: Seq<Seq<char>>,
}

impl View for Group {
    type V = GroupView;

    open spec fn view(&self) -> GroupView {
        GroupView { name: self.name@, email: self.email@ }
    }
}

impl View for Project {
    type V = ProjectView;

    open spec fn view(&self) -> ProjectView {
        ProjectView {
            id: self.id@,
            company_email: self.company_email@,
            name: self.name@,
            capacity: self.capacity as nat,
            active: self.active,
        }
    }
}

impl View for MatchResult {
    type V = MatchView;

    open spec fn view(&self) -> MatchView {
        MatchView {
            group_email: self.group_email@,
            project_id: self.project_id@,
            project_name: self.project_name@,
            company_email: self.company_email@,
        }
    }
}

impl View for GroupPreferencesResponse {
    type V = RankingView;

    open spec fn view(&self) -> RankingView {
        RankingView { owner: self.group_email@, ranked: texts(self.project_ids_ranked@) }
    }
}

impl View for ProjectPreferencesResponse {
    type V = RankingView;

    open spec fn view(&self) -> RankingView {
        RankingView { owner: self.project_id@, ranked: texts(self.group_emails_ranked@) }
    }
}

pub open spec fn group_views(s: Seq<Group>) -> Seq<GroupView> {
    s.map_values(|g: Group| g@)
}

pub open spec fn project_views(s: Seq<Project>) -> Seq<ProjectView> {
    s.map_values(|p: Project| p@)
}

pub open spec fn match_views(s: Seq<MatchResult>) -> Seq<MatchView> {
    s.map_values(|m: MatchResult| m@)
}

pub open spec fn group_ranking_views(s: Seq<GroupPreferencesResponse>) -> Seq<RankingView> {
    s.map_values(|r: GroupPreferencesResponse| r@)
}

pub open spec fn project_ranking_views(s: Seq<ProjectPreferencesResponse>) -> Seq<RankingView> {
    s.map_values(|r: ProjectPreferencesResponse| r@)
}

/// Index of the first of the first `n` entries of `s` that satisfies `f`, or -1.
pub open spec fn first_index_where<T>(s: Seq<T>, f: spec_fn(T) -> bool, n: int) -> int
    decreases n,
{
    if n <= 0 {
        -1
    } else {
        let r = first_index_where(s, f, n - 1);
        if r >= 0 {
            r
        } else if f(s[n - 1]) {
            n - 1
        } else {
            -1
        }
    }
}

pub proof fn lemma_first_index_where<T>(s: Seq<T>, f: spec_fn(T) -> bool, n: int)
    requires
        0 <= n <= s.len(),
    ensures
        -1 <= first_index_where(s, f, n) < n,
        first_index_where(s, f, n) >= 0 ==> f(s[first_index_where(s, f, n)]),
        first_index_where(s, f, n) < 0 ==> forall|i: int| 0 <= i < n ==> !f(#[trigger] s[i]),
        forall|i: int| 0 <= i < first_index_where(s, f, n) ==> !f(#[trigger] s[i]),
    decreases n,
{
    if n > 0 {
        lemma_first_index_where(s, f, n - 1);
    }
}

/// Once found in a prefix, the first match stays the first match.
pub proof fn lemma_first_index_stable<T>(s: Seq<T>, f: spec_fn(T) -> bool, m: int, n: int)
    requires
        0 <= m <= n,
        first_index_where(s, f, m) >= 0,
    ensures
        first_index_where(s, f, n) == first_index_where(s, f, m),
    decreases n - m,
{
    if n > m {
        lemma_first_index_stable(s, f, m, n - 1);
    }
}

/// Position of the ranking owned by `owner`, or -1.
pub open spec fn ranking_index(rs: Seq<RankingView>, owner: Seq<char>) -> int {
    first_index_where(rs, |r: RankingView| r.owner == owner, rs.len() as int)
}

/// The ranking that `owner` has stated; empty when it has stated none.
pub open spec fn ranking_of(rs: Seq<RankingView>, owner: Seq<char>) -> Seq<Seq<char>> {
    let i = ranking_index(rs, owner);
    if i >= 0 {
        rs[i].ranked
    } else {
        Seq::empty()
    }
}

/// Position of the project with the given id, or -1.
pub open spec fn project_index(ps: Seq<ProjectView>, id: Seq<char>) -> int {
    first_index_where(ps, |p: ProjectView| p.id == id, ps.len() as int)
}

/// Finds the ranking owned by `owner`.
pub fn find_group_ranking(rs: &Vec<GroupPreferencesResponse>, owner: &String) -> (r: Option<usize>)
    ensures
        match r {
            Some(i) => i as int == ranking_index(group_ranking_views(rs@), owner@) && i < rs@.len(),
            None => ranking_index(group_ranking_views(rs@), owner@) == -1,
        },
{
    let ghost v = group_ranking_views(rs@);
    let ghost f = |r: RankingView| r.owner == owner@;
    let mut i: usize = 0;
    while i < rs.len()
        invariant
            i <= rs.len(),
            v == group_ranking_views(rs@),
            f == (|r: RankingView| r.owner == owner@),
            first_index_where(v, f, i as int) == -1,
        decreases rs.len() - i,
    {
        if rs[i].group_email == *owner {
            proof {
                lemma_first_index_stable(v, f, i + 1, rs.len() as int);
            }
            return Some(i);
        }
        i = i + 1;
    }
    None
}

/// Finds the ranking owned by project `owner`.
pub fn find_project_ranking(rs: &Vec<ProjectPreferencesResponse>, owner: &String) -> (r: Option<usize>)
    ensures
        match r {
            Some(i) => i as int == ranking_index(project_ranking_views(rs@), owner@) && i < rs@.len(),
            None => ranking_index(project_ranking_views(rs@), owner@) == -1,
        },
{
    let ghost v = project_ranking_views(rs@);
    let ghost f = |r: RankingView| r.owner == owner@;
    let mut i: usize = 0;
    while i < rs.len()
        invariant
            i <= rs.len(),
            v == project_ranking_views(rs@),
            f == (|r: RankingView| r.owner == owner@),
            first_index_where(v, f, i as int) == -1,
        decreases rs.len() - i,
    {
        if rs[i].project_id == *owner {
            proof {
                lemma_first_index_stable(v, f, i + 1, rs.len() as int);
            }
            return Some(i);
        }
        i = i + 1;
    }
    None
}

/// Finds the project with the given id.
pub fn find_project(ps: &Vec<Project>, id: &String) -> (r: Option<usize>)
    ensures
        match r {
            Some(i) => i as int == project_index(project_views(ps@), id@) && i < ps@.len(),
            None => project_index(project_views(ps@), id@) == -1,
        },
{
    let ghost v = project_views(ps@);
    let ghost f = |p: ProjectView| p.id == id@;
    let mut i: usize = 0;
    while i < ps.len()
        invariant
            i <= ps.len(),
            v == project_views(ps@),
            f == (|p: ProjectView| p.id == id@),
            first_index_where(v, f, i as int) == -1,
        decreases ps.len() - i,
    {
        if ps[i].id == *id {
            proof {
                lemma_first_index_stable(v, f, i + 1, ps.len() as int);
            }
            return Some(i);
        }
        i = i + 1;
    }
    None
}

} // verus!
