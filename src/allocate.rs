use vstd::prelude::*;
use vstd::pervasive::VecAdditionalExecFns;
use crate::model::{
    Group, GroupPreferencesResponse, GroupView, MatchResult, MatchView, Project,
    ProjectPreferencesResponse, ProjectView, RankingView, find_group_ranking, find_project,
    find_project_ranking, group_ranking_views, group_views, lemma_first_index_where, match_views,
    project_index, project_ranking_views, project_views, ranking_index, ranking_of,
};
use crate::scoring::{score_for, score_in};
use crate::order::{SortKey, sort_matches, sorted_by};

verus! {

/// The inputs of one allocation run, as values.
pub struct Roster {
    pub groups: Seq<GroupView>,
    pub projects: Seq<ProjectView>,
    pub group_rankings: Seq<RankingView>,
    pub project_rankings: Seq<RankingView>,
}

/// The ranked project ids of group `g`.
pub open spec fn prefs_of(c: Roster, g: int) -> Seq<Seq<char>> {
    ranking_of(c.group_rankings, c.groups[g].email)
}

/// The score that project `p` gives to group `g`, if it ranks it.
pub open spec fn score_of(c: Roster, p: int, g: int) -> Option<int> {
    score_in(ranking_of(c.project_rankings, c.projects[p].id), c.groups[g].email)
}

/// Stands in for the score of a holder that its project does not rank.
pub open spec fn no_score() -> int {
    u128::MAX as int
}

/// The score by which a holder of project `p` is compared.
pub open spec fn held_score(c: Roster, p: int, g: int) -> int {
    match score_of(c, p, g) {
        Some(v) => v,
        None => no_score(),
    }
}

/// State of the proposal loop: the work queue of free groups, each group's
/// next preference position, whether each group holds a slot, and the groups
/// holding each project's slots.
pub struct ProposalState {
    pub queue: Seq<int>,
    pub next: Seq<int>,
    pub matched: Seq<bool>,
    pub holders: Seq<Seq<int>>,
}

/// Slot of the first worst-scored holder among the first `n` holders `hs` of project `p`.
pub open spec fn worst_in(c: Roster, p: int, hs: Seq<int>, n: int) -> int
    decreases n,
{
    if n <= 1 {
        0
    } else {
        let w = worst_in(c, p, hs, n - 1);
        if held_score(c, p, hs[n - 1]) > held_score(c, p, hs[w]) {
            n - 1
        } else {
            w
        }
    }
}

pub proof fn lemma_worst_in_bounds(c: Roster, p: int, hs: Seq<int>, n: int)
    requires
        1 <= n,
    ensures
        0 <= worst_in(c, p, hs, n) < n,
    decreases n,
{
    if n > 1 {
        lemma_worst_in_bounds(c, p, hs, n - 1);
    }
}

/// A proposal of group `g` to the project at index `p` (-1: no such project)
/// that is discarded outright.
pub open spec fn proposal_discarded(c: Roster, g: int, p: int) -> bool {
    p < 0 || !c.projects[p].active || c.projects[p].capacity == 0 || score_of(c, p, g).is_none()
}

/// One turn of the proposal loop: the group at the head of the queue
/// proposes to its next preference.
pub open spec fn proposal_step(c: Roster, s: ProposalState) -> ProposalState {
    let g = s.queue[0];
    let rest = s.queue.drop_first();
    if s.next[g] >= prefs_of(c, g).len() {
        ProposalState { queue: rest, ..s }
    } else {
        let k = s.next[g];
        let next = s.next.update(g, k + 1);
        let p = project_index(c.projects, prefs_of(c, g)[k]);
        if proposal_discarded(c, g, p) {
            ProposalState { queue: rest.push(g), next, ..s }
        } else if s.holders[p].len() < c.projects[p].capacity {
            ProposalState {
                queue: rest,
                next,
                matched: s.matched.update(g, true),
                holders: s.holders.update(p, s.holders[p].push(g)),
            }
        } else {
            let w = worst_in(c, p, s.holders[p], s.holders[p].len() as int);
            let h = s.holders[p][w];
            if score_of(c, p, g).unwrap() < held_score(c, p, h) {
                ProposalState {
                    queue: rest.push(h),
                    next,
                    matched: s.matched.update(h, false).update(g, true),
                    holders: s.holders.update(p, s.holders[p].update(w, g)),
                }
            } else {
                ProposalState { queue: rest.push(g), next, ..s }
            }
        }
    }
}

pub open spec fn proposal_state_ok(c: Roster, s: ProposalState) -> bool {
    &&& s.next.len() == c.groups.len()
    &&& s.matched.len() == c.groups.len()
    &&& s.holders.len() == c.projects.len()
    &&& forall|g: int| 0 <= g < c.groups.len() ==> 0 <= #[trigger] s.next[g] <= prefs_of(c, g).len()
    &&& forall|i: int| 0 <= i < s.queue.len() ==> 0 <= #[trigger] s.queue[i] < c.groups.len()
    &&& forall|p: int, j: int|
        0 <= p < s.holders.len() && 0 <= j < s.holders[p].len() ==> 0 <= #[trigger] s.holders[p][j]
            < c.groups.len()
}

/// Preference entries of the first `n` groups that are still to be tried.
pub open spec fn untried(c: Roster, next: Seq<int>, n: int) -> int
    decreases n,
{
    if n <= 0 {
        0
    } else {
        untried(c, next, n - 1) + (prefs_of(c, n - 1).len() - next[n - 1])
    }
}

pub open spec fn proposal_measure(c: Roster, s: ProposalState) -> int {
    s.queue.len() + untried(c, s.next, c.groups.len() as int)
}

proof fn lemma_untried_advance(c: Roster, next: Seq<int>, g: int, n: int)
    requires
        0 <= g < next.len(),
        0 <= n <= next.len(),
    ensures
        untried(c, next.update(g, next[g] + 1), n) == untried(c, next, n) - (if g < n { 1int } else { 0int }),
    decreases n,
{
    if n > 0 {
        lemma_untried_advance(c, next, g, n - 1);
    }
}

proof fn lemma_untried_nonneg(c: Roster, s: ProposalState, n: int)
    requires
        proposal_state_ok(c, s),
        0 <= n <= c.groups.len(),
    ensures
        untried(c, s.next, n) >= 0,
    decreases n,
{
    if n > 0 {
        lemma_untried_nonneg(c, s, n - 1);
        assert(s.next[n - 1] <= prefs_of(c, n - 1).len());
    }
}

/// A turn keeps the state well formed and shrinks the measure.
pub proof fn lemma_proposal_step(c: Roster, s: ProposalState)
    requires
        proposal_state_ok(c, s),
        s.queue.len() > 0,
    ensures
        proposal_state_ok(c, proposal_step(c, s)),
        0 <= proposal_measure(c, proposal_step(c, s)) < proposal_measure(c, s),
{
    let g = s.queue[0];
    let t = proposal_step(c, s);
    lemma_untried_nonneg(c, s, c.groups.len() as int);
    if s.next[g] < prefs_of(c, g).len() {
        lemma_untried_advance(c, s.next, g, c.groups.len() as int);
        let k = s.next[g];
        let p = project_index(c.projects, prefs_of(c, g)[k]);
        lemma_first_index_where(c.projects, |q: ProjectView| q.id == prefs_of(c, g)[k], c.projects.len() as int);
        if !proposal_discarded(c, g, p) && s.holders[p].len() >= c.projects[p].capacity {
            lemma_worst_in_bounds(c, p, s.holders[p], s.holders[p].len() as int);
        }
    }
    assert(proposal_state_ok(c, t));
    lemma_untried_nonneg(c, t, c.groups.len() as int);
}

/// The proposal loop run until the queue is empty.
pub open spec fn run_proposals(c: Roster, s: ProposalState) -> ProposalState
    decreases proposal_measure(c, s),
    when proposal_state_ok(c, s)
{
    if s.queue.len() == 0 {
        s
    } else {
        proof {
            lemma_proposal_step(c, s);
        }
        run_proposals(c, proposal_step(c, s))
    }
}

pub open spec fn initial_state(c: Roster) -> ProposalState {
    ProposalState {
        queue: Seq::new(c.groups.len(), |i: int| i),
        next: Seq::new(c.groups.len(), |i: int| 0int),
        matched: Seq::new(c.groups.len(), |i: int| false),
        holders: Seq::new(c.projects.len(), |i: int| Seq::<int>::empty()),
    }
}

pub open spec fn roster_of(
    groups: Seq<Group>,
    projects: Seq<Project>,
    group_prefs: Seq<GroupPreferencesResponse>,
    project_prefs: Seq<ProjectPreferencesResponse>,
) -> Roster {
    Roster {
        groups: group_views(groups),
        projects: project_views(projects),
        group_rankings: group_ranking_views(group_prefs),
        project_rankings: project_ranking_views(project_prefs),
    }
}

pub open spec fn ints(s: Seq<usize>) -> Seq<int> {
    s.map_values(|x: usize| x as int)
}

pub open spec fn nested_ints(s: Seq<Vec<usize>>) -> Seq<Seq<int>> {
    s.map_values(|v: Vec<usize>| ints(v@))
}

/// The inputs of an allocation run together with, for each group and each
/// project, the position of its ranking.
struct Inputs<'a> {
    groups: &'a Vec<Group>,
    projects: &'a Vec<Project>,
    group_prefs: &'a Vec<GroupPreferencesResponse>,
    project_prefs: &'a Vec<ProjectPreferencesResponse>,
    group_ranking: Vec<Option<usize>>,
    project_ranking: Vec<Option<usize>>,
}

impl<'a> Inputs<'a> {
    spec fn roster(&self) -> Roster {
        roster_of(self.groups@, self.projects@, self.group_prefs@, self.project_prefs@)
    }

    spec fn inv(&self) -> bool {
        let c = self.roster();
        &&& self.group_ranking@.len() == self.groups@.len()
        &&& self.project_ranking@.len() == self.projects@.len()
        &&& forall|g: int|
            0 <= g < self.groups@.len() ==> match #[trigger] self.group_ranking@[g] {
                Some(i) => i as int == ranking_index(c.group_rankings, c.groups[g].email),
                None => ranking_index(c.group_rankings, c.groups[g].email) == -1,
            }
        &&& forall|p: int|
            0 <= p < self.projects@.len() ==> match #[trigger] self.project_ranking@[p] {
                Some(i) => i as int == ranking_index(c.project_rankings, c.projects[p].id),
                None => ranking_index(c.project_rankings, c.projects[p].id) == -1,
            }
    }

    fn new(
        groups: &'a Vec<Group>,
        projects: &'a Vec<Project>,
        group_prefs: &'a Vec<GroupPreferencesResponse>,
        project_prefs: &'a Vec<ProjectPreferencesResponse>,
    ) -> (r: Inputs<'a>)
        ensures
            r.inv(),
            r.groups == groups,
            r.projects == projects,
            r.group_prefs == group_prefs,
            r.project_prefs == project_prefs,
    {
        let ghost c = roster_of(groups@, projects@, group_prefs@, project_prefs@);
        let mut group_ranking: Vec<Option<usize>> = Vec::new();
        let mut g: usize = 0;
        while g < groups.len()
            invariant
                g <= groups.len(),
                c == roster_of(groups@, projects@, group_prefs@, project_prefs@),
                group_ranking@.len() == g,
                forall|x: int|
                    0 <= x < g ==> match #[trigger] group_ranking@[x] {
                        Some(i) => i as int == ranking_index(c.group_rankings, c.groups[x].email),
                        None => ranking_index(c.group_rankings, c.groups[x].email) == -1,
                    },
            decreases groups.len() - g,
        {
            group_ranking.push(find_group_ranking(group_prefs, &groups[g].email));
            g = g + 1;
        }
        let mut project_ranking: Vec<Option<usize>> = Vec::new();
        let mut p: usize = 0;
        while p < projects.len()
            invariant
                p <= projects.len(),
                c == roster_of(groups@, projects@, group_prefs@, project_prefs@),
                project_ranking@.len() == p,
                forall|x: int|
                    0 <= x < p ==> match #[trigger] project_ranking@[x] {
                        Some(i) => i as int == ranking_index(c.project_rankings, c.projects[x].id),
                        None => ranking_index(c.project_rankings, c.projects[x].id) == -1,
                    },
            decreases projects.len() - p,
        {
            project_ranking.push(find_project_ranking(project_prefs, &projects[p].id));
            p = p + 1;
        }
        Inputs { groups, projects, group_prefs, project_prefs, group_ranking, project_ranking }
    }

    /// The score that project `p` gives to group `g`.
    fn score(&self, p: usize, g: usize) -> (r: Option<u128>)
        requires
            self.inv(),
            p < self.projects@.len(),
            g < self.groups@.len(),
        ensures
            r.is_some() == score_of(self.roster(), p as int, g as int).is_some(),
            r.is_some() ==> r.unwrap() as int == score_of(self.roster(), p as int, g as int).unwrap(),
    {
        let ghost c = self.roster();
        proof {
            lemma_first_index_where(c.project_rankings, |r: RankingView| r.owner == c.projects[p as int].id, c.project_rankings.len() as int);
        }
        match self.project_ranking[p] {
            Some(i) => score_for(&self.project_prefs[i].group_emails_ranked, &self.groups[g].email),
            None => {
                assert(ranking_of(c.project_rankings, c.projects[p as int].id) == Seq::<Seq<char>>::empty());
                None
            },
        }
    }

    /// The score by which a holder `g` of project `p` is compared.
    fn held(&self, p: usize, g: usize) -> (r: u128)
        requires
            self.inv(),
            p < self.projects@.len(),
            g < self.groups@.len(),
        ensures
            r as int == held_score(self.roster(), p as int, g as int),
    {
        match self.score(p, g) {
            Some(v) => v,
            None => u128::MAX,
        }
    }

    /// The number of preferences of group `g`, and the one at position `k` if there is one.
    fn preference(&self, g: usize, k: usize) -> (r: (usize, Option<&'a String>))
        requires
            self.inv(),
            g < self.groups@.len(),
        ensures
            r.0 as int == prefs_of(self.roster(), g as int).len(),
            (k < r.0) == r.1.is_some(),
            r.1.is_some() ==> r.1.unwrap()@ == prefs_of(self.roster(), g as int)[k as int],
    {
        let ghost c = self.roster();
        proof {
            lemma_first_index_where(c.group_rankings, |r: RankingView| r.owner == c.groups[g as int].email, c.group_rankings.len() as int);
        }
        match self.group_ranking[g] {
            Some(i) => {
                let list: &'a Vec<String> = &self.group_prefs[i].project_ids_ranked;
                if k < list.len() {
                    (list.len(), Some(&list[k]))
                } else {
                    (list.len(), None)
                }
            },
            None => (0, None),
        }
    }
}

/// Executable state of the proposal loop; `queue[head..]` is the work queue.
struct Proposals {
    queue: Vec<usize>,
    head: usize,
    next: Vec<usize>,
    matched: Vec<bool>,
    holders: Vec<Vec<usize>>,
}

impl Proposals {
    spec fn state(&self) -> ProposalState {
        ProposalState {
            queue: ints(self.queue@.skip(self.head as int)),
            next: ints(self.next@),
            matched: self.matched@,
            holders: nested_ints(self.holders@),
        }
    }

    spec fn inv(&self) -> bool {
        self.head <= self.queue@.len()
    }

    fn start(inp: &Inputs) -> (r: Proposals)
        requires
            inp.inv(),
        ensures
            r.inv(),
            r.state() == initial_state(inp.roster()),
    {
        let ghost c = inp.roster();
        let n = inp.groups.len();
        let mut queue: Vec<usize> = Vec::new();
        let mut next: Vec<usize> = Vec::new();
        let mut matched: Vec<bool> = Vec::new();
        let mut g: usize = 0;
        while g < n
            invariant
                g <= n,
                n == c.groups.len(),
                c == inp.roster(),
                queue@.len() == g && next@.len() == g && matched@.len() == g,
                forall|i: int| 0 <= i < g ==> #[trigger] queue@[i] == i,
                forall|i: int| 0 <= i < g ==> #[trigger] next@[i] == 0,
                forall|i: int| 0 <= i < g ==> !#[trigger] matched@[i],
            decreases n - g,
        {
            queue.push(g);
            next.push(0);
            matched.push(false);
            g = g + 1;
        }
        let mut holders: Vec<Vec<usize>> = Vec::new();
        let mut p: usize = 0;
        while p < inp.projects.len()
            invariant
                p <= inp.projects.len(),
                c == inp.roster(),
                holders@.len() == p,
                forall|i: int| 0 <= i < p ==> (#[trigger] holders@[i])@.len() == 0,
            decreases inp.projects.len() - p,
        {
            holders.push(Vec::new());
            p = p + 1;
        }
        let r = Proposals { queue, head: 0, next, matched, holders };
        assert(r.state().queue =~= initial_state(c).queue);
        assert(r.state().next =~= initial_state(c).next);
        assert(r.state().matched =~= initial_state(c).matched);
        assert forall|i: int| 0 <= i < r.state().holders.len() implies r.state().holders[i] =~= Seq::<int>::empty() by {
            assert(holders@[i]@.len() == 0);
        }
        assert(r.state().holders =~= initial_state(c).holders);
        r
    }

    /// The slot of the first worst-scored holder of project `p`, and its score.
    fn worst(&self, inp: &Inputs, p: usize) -> (r: (usize, u128))
        requires
            inp.inv(),
            proposal_state_ok(inp.roster(), self.state()),
            p < inp.projects@.len(),
            self.holders@[p as int]@.len() >= 1,
        ensures
            r.0 as int == worst_in(inp.roster(), p as int, self.state().holders[p as int], self.state().holders[p as int].len() as int),
            r.0 < self.holders@[p as int]@.len(),
            r.1 as int == held_score(inp.roster(), p as int, self.state().holders[p as int][r.0 as int]),
    {
        let ghost c = inp.roster();
        let ghost hs = self.state().holders[p as int];
        let slots = &self.holders[p];
        assert(hs == ints(slots@));
        assert(0 <= hs[0] < c.groups.len());
        let mut w: usize = 0;
        let mut ws: u128 = inp.held(p, slots[0]);
        let mut j: usize = 1;
        while j < slots.len()
            invariant
                1 <= j <= slots.len(),
                c == inp.roster(),
                inp.inv(),
                proposal_state_ok(c, self.state()),
                p < inp.projects@.len(),
                hs == ints(slots@),
                hs == self.state().holders[p as int],
                w < j,
                w as int == worst_in(c, p as int, hs, j as int),
                ws as int == held_score(c, p as int, hs[w as int]),
            decreases slots.len() - j,
        {
            assert(0 <= hs[j as int] < c.groups.len());
            let sj = inp.held(p, slots[j]);
            if sj > ws {
                w = j;
                ws = sj;
            }
            j = j + 1;
        }
        (w, ws)
    }

    /// One turn of the loop.
    fn step(&mut self, inp: &Inputs)
        requires
            inp.inv(),
            old(self).inv(),
            proposal_state_ok(inp.roster(), old(self).state()),
            old(self).state().queue.len() > 0,
        ensures
            final(self).inv(),
            final(self).state() == proposal_step(inp.roster(), old(self).state()),
    {
        let ghost c = inp.roster();
        let ghost s0 = self.state();
        let ghost t = proposal_step(c, s0);
        let qlen = self.queue.len();
        assert(qlen > self.head);
        let g = self.queue[self.head];
        assert(s0.queue[0] == g as int);
        assert(0 <= g < c.groups.len());
        self.head = self.head + 1;
        assert(ints(self.queue@.skip(self.head as int)) =~= s0.queue.drop_first());
        let k = self.next[g];
        assert(s0.next[g as int] == k as int);
        let (len, pref) = inp.preference(g, k);
        match pref {
            None => {
                assert(self.state() =~= t);
            },
            Some(pid) => {
                self.next.set(g, k + 1);
                assert(ints(self.next@) =~= t.next);
                let ghost p_spec = project_index(c.projects, prefs_of(c, g as int)[k as int]);
                proof {
                    lemma_first_index_where(c.projects, |q: ProjectView| q.id == prefs_of(c, g as int)[k as int], c.projects.len() as int);
                }
                let target = find_project(inp.projects, pid);
                let mut requeue = true;
                match target {
                    None => {},
                    Some(p) => {
                        let sc = inp.score(p, g);
                        let cap = inp.projects[p].capacity;
                        if !inp.projects[p].active || cap == 0 || sc.is_none() {
                        } else if self.holders[p].len() < cap as usize {
                            let mut hp: Vec<usize> = Vec::new();
                            self.holders.set_and_swap(p, &mut hp);
                            hp.push(g);
                            self.holders.set_and_swap(p, &mut hp);
                            self.matched.set(g, true);
                            requeue = false;
                            assert(ints(self.holders@[p as int]@) =~= s0.holders[p as int].push(g as int));
                            assert(nested_ints(self.holders@) =~= t.holders);
                        } else {
                            let (w, ws) = self.worst(inp, p);
                            if sc.unwrap() < ws {
                                let h = self.holders[p][w];
                                let mut hp: Vec<usize> = Vec::new();
                                self.holders.set_and_swap(p, &mut hp);
                                hp.set(w, g);
                                self.holders.set_and_swap(p, &mut hp);
                                self.matched.set(h, false);
                                self.matched.set(g, true);
                                self.queue.push(h);
                                requeue = false;
                                assert(ints(self.holders@[p as int]@) =~= s0.holders[p as int].update(w as int, g as int));
                                assert(nested_ints(self.holders@) =~= t.holders);
                            }
                        }
                    },
                }
                if requeue {
                    self.queue.push(g);
                }
                assert(self.state().queue =~= t.queue);
                assert(self.state().next =~= t.next);
                assert(self.state().matched =~= t.matched);
                assert(self.state().holders =~= t.holders);
            },
        }
    }
}

/// The projects among the first `n` that hold no group, in project order.
pub open spec fn free_projects(hs: Seq<Seq<int>>, n: int) -> Seq<int>
    decreases n,
{
    if n <= 0 {
        Seq::empty()
    } else if hs[n - 1].len() == 0 {
        free_projects(hs, n - 1).push(n - 1)
    } else {
        free_projects(hs, n - 1)
    }
}

/// The first project among the first `n` that gives group `g` its lowest
/// score, or -1 when none of them ranks `g`.
pub open spec fn best_project(c: Roster, g: int, n: int) -> int
    decreases n,
{
    if n <= 0 {
        -1
    } else {
        let b = best_project(c, g, n - 1);
        match score_of(c, n - 1, g) {
            Some(v) => if b < 0 || v < held_score(c, b, g) {
                n - 1
            } else {
                b
            },
            None => b,
        }
    }
}

/// Where a group left over once the free projects are taken goes: the project
/// that scores it best, or else the first project.
pub open spec fn fallback_project(c: Roster, g: int) -> int {
    let b = best_project(c, g, c.projects.len() as int);
    if b >= 0 {
        b
    } else {
        0
    }
}

/// Result of the pass over the groups that the proposal loop left unmatched.
pub struct LeftoverPass {
    pub holders: Seq<Seq<int>>,
    pub extras: Seq<(int, int)>,
    pub used: int,
}

/// The pass over the first `n` groups: an unmatched group takes the next free
/// project while there is one, and its fallback project after that.
pub open spec fn leftover_pass(c: Roster, r: ProposalState, free: Seq<int>, n: int) -> LeftoverPass
    decreases n,
{
    if n <= 0 {
        LeftoverPass { holders: r.holders, extras: Seq::empty(), used: 0 }
    } else {
        let s = leftover_pass(c, r, free, n - 1);
        if r.matched[n - 1] {
            s
        } else if s.used < free.len() {
            let p = free[s.used];
            LeftoverPass {
                holders: s.holders.update(p, s.holders[p].push(n - 1)),
                extras: s.extras,
                used: s.used + 1,
            }
        } else {
            LeftoverPass { extras: s.extras.push((n - 1, fallback_project(c, n - 1))), ..s }
        }
    }
}

pub open spec fn match_of(c: Roster, g: int, p: int) -> MatchView {
    MatchView {
        group_email: c.groups[g].email,
        project_id: c.projects[p].id,
        project_name: c.projects[p].name,
        company_email: c.projects[p].company_email,
    }
}

pub open spec fn slot_matches_of(c: Roster, hs: Seq<Seq<int>>, p: int) -> Seq<MatchView> {
    hs[p].map_values(|g: int| match_of(c, g, p))
}

/// The matches of the slots of the first `n` projects, project by project.
pub open spec fn slot_matches(c: Roster, hs: Seq<Seq<int>>, n: int) -> Seq<MatchView>
    decreases n,
{
    if n <= 0 {
        Seq::empty()
    } else {
        slot_matches(c, hs, n - 1) + slot_matches_of(c, hs, n - 1)
    }
}

pub open spec fn extra_matches(c: Roster, ex: Seq<(int, int)>) -> Seq<MatchView> {
    ex.map_values(|e: (int, int)| match_of(c, e.0, e.1))
}

/// The proposal loop's result from the initial state.
pub open spec fn proposal_result(c: Roster) -> ProposalState {
    run_proposals(c, initial_state(c))
}

/// The slots and extra assignments once the leftover groups are placed.
pub open spec fn final_assignment(c: Roster) -> LeftoverPass {
    let r = proposal_result(c);
    leftover_pass(c, r, free_projects(r.holders, c.projects.len() as int), c.groups.len() as int)
}

/// The tentative matches of an allocation run, before they are put in order.
pub open spec fn unsorted_allocation(c: Roster) -> Seq<MatchView> {
    let a = final_assignment(c);
    slot_matches(c, a.holders, c.projects.len() as int) + extra_matches(c, a.extras)
}

/// The tentative matches of an allocation run: none without groups or
/// without projects, else every occupied slot and every extra assignment,
/// in order of group email.
pub open spec fn allocation(c: Roster) -> Seq<MatchView> {
    if c.groups.len() == 0 || c.projects.len() == 0 {
        Seq::empty()
    } else {
        sorted_by(unsorted_allocation(c), SortKey::GroupEmail)
    }
}

pub proof fn lemma_best_project(c: Roster, g: int, n: int)
    requires
        0 <= n <= c.projects.len(),
    ensures
        -1 <= best_project(c, g, n) < n,
        best_project(c, g, n) >= 0 ==> score_of(c, best_project(c, g, n), g).is_some(),
    decreases n,
{
    if n > 0 {
        lemma_best_project(c, g, n - 1);
    }
}

pub open spec fn pairs(s: Seq<(usize, usize)>) -> Seq<(int, int)> {
    s.map_values(|e: (usize, usize)| (e.0 as int, e.1 as int))
}

impl<'a> Inputs<'a> {
    /// The project a leftover group falls back to.
    fn fallback(&self, g: usize) -> (r: usize)
        requires
            self.inv(),
            g < self.groups@.len(),
            self.projects@.len() > 0,
        ensures
            r as int == fallback_project(self.roster(), g as int),
            r < self.projects@.len(),
    {
        let ghost c = self.roster();
        let mut best: Option<usize> = None;
        let mut best_score: u128 = 0;
        let mut p: usize = 0;
        while p < self.projects.len()
            invariant
                p <= self.projects@.len(),
                self.inv(),
                c == self.roster(),
                g < self.groups@.len(),
                match best {
                    Some(b) => b as int == best_project(c, g as int, p as int)
                        && best_score as int == held_score(c, b as int, g as int) && b < p,
                    None => best_project(c, g as int, p as int) == -1,
                },
            decreases self.projects@.len() - p,
        {
            proof {
                lemma_best_project(c, g as int, p as int);
            }
            match self.score(p, g) {
                Some(v) => {
                    let better = match best {
                        Some(_) => v < best_score,
                        None => true,
                    };
                    if better {
                        best = Some(p);
                        best_score = v;
                    }
                },
                None => {},
            }
            p = p + 1;
        }
        match best {
            Some(b) => b,
            None => 0,
        }
    }

    fn make_match(&self, g: usize, p: usize) -> (r: MatchResult)
        requires
            g < self.groups@.len(),
            p < self.projects@.len(),
        ensures
            r@ == match_of(self.roster(), g as int, p as int),
    {
        MatchResult {
            group_email: self.groups[g].email.clone(),
            project_id: self.projects[p].id.clone(),
            project_name: self.projects[p].name.clone(),
            company_email: self.projects[p].company_email.clone(),
        }
    }
}

/// Runs the proposal-based allocation of groups to projects and returns the
/// tentative matches in order of group email.
pub fn allocate(
    groups: &Vec<Group>,
    projects: &Vec<Project>,
    group_prefs: &Vec<GroupPreferencesResponse>,
    project_prefs: &Vec<ProjectPreferencesResponse>,
) -> (r: Vec<MatchResult>)
    ensures
        match_views(r@) == allocation(roster_of(groups@, projects@, group_prefs@, project_prefs@)),
{
    let ghost c = roster_of(groups@, projects@, group_prefs@, project_prefs@);
    if groups.len() == 0 || projects.len() == 0 {
        let empty: Vec<MatchResult> = Vec::new();
        assert(match_views(empty@) =~= Seq::<MatchView>::empty());
        return empty;
    }
    let inp = Inputs::new(groups, projects, group_prefs, project_prefs);
    let mut st = Proposals::start(&inp);
    assert(proposal_state_ok(c, st.state()));
    while st.head < st.queue.len()
        invariant
            inp.inv(),
            c == inp.roster(),
            st.inv(),
            proposal_state_ok(c, st.state()),
            run_proposals(c, st.state()) == proposal_result(c),
        decreases proposal_measure(c, st.state()),
    {
        proof {
            lemma_proposal_step(c, st.state());
        }
        st.step(&inp);
    }
    let ghost r = st.state();
    assert(r.queue.len() == 0);
    assert(r == proposal_result(c));

    // Projects that hold no group after the loop.
    let mut free: Vec<usize> = Vec::new();
    let mut p: usize = 0;
    while p < projects.len()
        invariant
            p <= projects@.len(),
            c == inp.roster(),
            r == st.state(),
            proposal_state_ok(c, r),
            c == roster_of(groups@, projects@, group_prefs@, project_prefs@),
            ints(free@) == free_projects(r.holders, p as int),
            forall|i: int| 0 <= i < free@.len() ==> #[trigger] free@[i] < projects@.len(),
        decreases projects@.len() - p,
    {
        assert(r.holders[p as int] == ints(st.holders@[p as int]@));
        if st.holders[p].len() == 0 {
            free.push(p);
            assert(ints(free@) =~= free_projects(r.holders, p + 1));
        }
        p = p + 1;
    }
    let ghost fr = ints(free@);
    assert forall|q: int, j: int|
        0 <= q < st.holders@.len() && 0 <= j < st.holders@[q]@.len() implies #[trigger] st.holders@[q]@[j] < groups@.len() by {
        assert(r.holders[q][j] == st.holders@[q]@[j] as int);
    }
    assert(nested_ints(st.holders@) == r.holders);
    assert(pairs(Seq::<(usize, usize)>::empty()) =~= Seq::<(int, int)>::empty());

    // Groups the loop left unmatched take the free projects, then their fallback.
    let mut holders = st.holders;
    let mut extras: Vec<(usize, usize)> = Vec::new();
    let mut used: usize = 0;
    let mut g: usize = 0;
    while g < groups.len()
        invariant
            g <= groups@.len(),
            inp.inv(),
            c == inp.roster(),
            proposal_state_ok(c, r),
            c == roster_of(groups@, projects@, group_prefs@, project_prefs@),
            inp.groups == groups,
            inp.projects == projects,
            projects@.len() > 0,
            r.matched == st.matched@,
            fr == ints(free@),
            fr == free_projects(r.holders, c.projects.len() as int),
            forall|i: int| 0 <= i < free@.len() ==> #[trigger] free@[i] < projects@.len(),
            holders@.len() == projects@.len(),
            leftover_pass(c, r, fr, g as int) == (LeftoverPass {
                holders: nested_ints(holders@),
                extras: pairs(extras@),
                used: used as int,
            }),
            used <= free@.len(),
            forall|i: int| 0 <= i < extras@.len() ==> (#[trigger] extras@[i]).0 < groups@.len() && extras@[i].1 < projects@.len(),
            forall|q: int, j: int|
                0 <= q < holders@.len() && 0 <= j < holders@[q]@.len() ==> #[trigger] holders@[q]@[j] < groups@.len(),
        decreases groups@.len() - g,
    {
        if !st.matched[g] {
            if used < free.len() {
                let fp = free[used];
                let mut hp: Vec<usize> = Vec::new();
                holders.set_and_swap(fp, &mut hp);
                let ghost old_hp = hp@;
                hp.push(g);
                holders.set_and_swap(fp, &mut hp);
                used = used + 1;
                assert(ints(holders@[fp as int]@) =~= ints(old_hp).push(g as int));
                assert(nested_ints(holders@) =~= leftover_pass(c, r, fr, g + 1).holders);
            } else {
                let fb = inp.fallback(g);
                extras.push((g, fb));
                assert(pairs(extras@) =~= leftover_pass(c, r, fr, g + 1).extras);
            }
        }
        g = g + 1;
    }
    let ghost a = final_assignment(c);
    assert(fr == free_projects(r.holders, c.projects.len() as int));
    assert(a.holders == nested_ints(holders@));
    assert(a.extras == pairs(extras@));

    // One match per occupied slot, then one per extra assignment.
    let mut out: Vec<MatchResult> = Vec::new();
    let mut p: usize = 0;
    while p < projects.len()
        invariant
            p <= projects@.len(),
            c == inp.roster(),
            c == roster_of(groups@, projects@, group_prefs@, project_prefs@),
            inp.groups == groups,
            inp.projects == projects,
            a.holders == nested_ints(holders@),
            holders@.len() == projects@.len(),
            forall|q: int, j: int|
                0 <= q < holders@.len() && 0 <= j < holders@[q]@.len() ==> #[trigger] holders@[q]@[j] < groups@.len(),
            match_views(out@) == slot_matches(c, a.holders, p as int),
        decreases projects@.len() - p,
    {
        let slots = &holders[p];
        let mut j: usize = 0;
        let ghost before = match_views(out@);
        while j < slots.len()
            invariant
                j <= slots@.len(),
                p < projects@.len(),
                c == inp.roster(),
                c == roster_of(groups@, projects@, group_prefs@, project_prefs@),
                inp.groups == groups,
                inp.projects == projects,
                holders@.len() == projects@.len(),
                a.holders == nested_ints(holders@),
                slots == holders@[p as int],
                forall|q: int, j: int|
                    0 <= q < holders@.len() && 0 <= j < holders@[q]@.len() ==> #[trigger] holders@[q]@[j] < groups@.len(),
                before == slot_matches(c, a.holders, p as int),
                match_views(out@) == before + slot_matches_of(c, a.holders, p as int).take(j as int),
            decreases slots@.len() - j,
        {
            assert(holders@[p as int]@[j as int] < groups@.len());
            let m = inp.make_match(slots[j], p);
            let ghost prev = match_views(out@);
            out.push(m);
            assert(match_views(out@) =~= prev.push(m@));
            assert(slot_matches_of(c, a.holders, p as int).take(j + 1) =~= slot_matches_of(c, a.holders, p as int).take(j as int).push(m@));
            assert(match_views(out@) =~= before + slot_matches_of(c, a.holders, p as int).take(j + 1));
            j = j + 1;
        }
        assert(slot_matches_of(c, a.holders, p as int).take(j as int) =~= slot_matches_of(c, a.holders, p as int));
        p = p + 1;
    }
    let ghost held = match_views(out@);
    let mut e: usize = 0;
    while e < extras.len()
        invariant
            e <= extras@.len(),
            c == inp.roster(),
            c == roster_of(groups@, projects@, group_prefs@, project_prefs@),
            inp.groups == groups,
            inp.projects == projects,
            a.extras == pairs(extras@),
            forall|i: int| 0 <= i < extras@.len() ==> (#[trigger] extras@[i]).0 < groups@.len() && extras@[i].1 < projects@.len(),
            held == slot_matches(c, a.holders, c.projects.len() as int),
            match_views(out@) == held + extra_matches(c, a.extras).take(e as int),
        decreases extras@.len() - e,
    {
        let (eg, ep) = extras[e];
        assert(a.extras[e as int] == (eg as int, ep as int));
        let m = inp.make_match(eg, ep);
        let ghost prev = match_views(out@);
        out.push(m);
        assert(match_views(out@) =~= prev.push(m@));
        assert(extra_matches(c, a.extras).take(e + 1) =~= extra_matches(c, a.extras).take(e as int).push(m@));
        assert(match_views(out@) =~= held + extra_matches(c, a.extras).take(e + 1));
        e = e + 1;
    }
    assert(extra_matches(c, a.extras).take(e as int) =~= extra_matches(c, a.extras));
    sort_matches(&out, SortKey::GroupEmail)
}

} // verus!
