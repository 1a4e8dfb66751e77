use vstd::prelude::*;
use vstd::pervasive::VecAdditionalExecFns;
use crate::ledger_laws::ledger_ok;
use crate::ledger::{
    LedgerView, MatchStatus, MatchingState, Party, VisibleMatch, accept_spec, reject_spec, text_option,
};
use crate::model::{
    Company, Group, GroupPreferencesResponse, Project, ProjectPreferencesResponse, RankingView,
    find_group_ranking, find_project, find_project_ranking, group_ranking_views, project_index,
    project_ranking_views, project_views, ranking_index,
};
use crate::scoring::texts;

verus! {

/// The round counter and whether decisions are open.
pub struct RoundStatusResponse {
    pub round_number: u32,
    pub round_open: bool,
}

/// A visible match with its status spelled out.
pub struct CurrentMatchResponse {
    pub group_email: String,
    pub project_id: String,
    pub project_name: String,
    pub company_email: String,
    pub status: Option<String>,
}

/// Outcome of a registration.
pub struct RegisterResponse {
    pub ok: bool,
    pub message: String,
}

pub struct CreateGroupRequest {
    pub name: String,
    pub email: String,
    pub password: String,
}

pub struct CreateCompanyRequest {
    pub name: String,
    pub email: String,
    pub password: String,
}

pub struct CreateProjectRequest {
    pub id: String,
    pub company_email: String,
    pub name: String,
    pub description: Option<String>,
    pub capacity: u32,
    pub active: bool,
}

/// The two decisions a party can take on its tentative match.
#[derive(Clone, Copy, PartialEq, Eq, Structural)]
pub enum Decision {
    Accept,
    Reject,
}

pub open spec fn status_text(s: MatchStatus) -> Seq<char> {
    match s {
        MatchStatus::Pending => "pending"@,
        MatchStatus::AcceptedByMe => "accepted_by_me"@,
        MatchStatus::AcceptedByOther => "accepted_by_other"@,
        MatchStatus::Final => "final"@,
    }
}

impl MatchStatus {
    /// The status as the word that clients see.
    pub fn as_text(&self) -> (r: String)
        ensures
            r@ == status_text(*self),
    {
        match self {
            MatchStatus::Pending => String::from_str("pending"),
            MatchStatus::AcceptedByMe => String::from_str("accepted_by_me"),
            MatchStatus::AcceptedByOther => String::from_str("accepted_by_other"),
            MatchStatus::Final => String::from_str("final"),
        }
    }
}

impl VisibleMatch {
    pub fn to_response(&self) -> (r: CurrentMatchResponse)
        ensures
            r.group_email@ == self.tentative.group_email@,
            r.project_id@ == self.tentative.project_id@,
            r.project_name@ == self.tentative.project_name@,
            r.company_email@ == self.tentative.company_email@,
            r.status.is_some() && r.status.unwrap()@ == status_text(self.status),
    {
        CurrentMatchResponse {
            group_email: self.tentative.group_email.clone(),
            project_id: self.tentative.project_id.clone(),
            project_name: self.tentative.project_name.clone(),
            company_email: self.tentative.company_email.clone(),
            status: Some(self.status.as_text()),
        }
    }
}

/// The capacity a project gets: the one asked for, or 1 in place of 0.
pub open spec fn normalized_capacity(c: u32) -> u32 {
    if c == 0 {
        1
    } else {
        c
    }
}

impl Project {
    /// The project a creation request describes, with a capacity of 0 raised to 1.
    pub fn from_request(req: CreateProjectRequest) -> (r: Project)
        ensures
            r.id@ == req.id@,
            r.company_email@ == req.company_email@,
            r.name@ == req.name@,
            r.description == req.description,
            r.capacity == normalized_capacity(req.capacity),
            r.active == req.active,
    {
        let capacity: u32 = if req.capacity == 0 {
            1
        } else {
            req.capacity
        };
        Project {
            id: req.id,
            company_email: req.company_email,
            name: req.name,
            description: req.description,
            capacity,
            active: req.active,
        }
    }
}

pub open spec fn has_group(gs: Seq<Group>, email: Seq<char>) -> bool {
    exists|i: int| 0 <= i < gs.len() && #[trigger] gs[i].email@ == email
}

pub open spec fn has_company(cs: Seq<Company>, email: Seq<char>) -> bool {
    exists|i: int| 0 <= i < cs.len() && #[trigger] cs[i].email@ == email
}

/// The rankings with the one owned by `owner` replaced by `ranked`, or
/// `ranked` added when `owner` had none.
pub open spec fn replaced_ranking(rs: Seq<RankingView>, owner: Seq<char>, ranked: Seq<Seq<char>>) -> Seq<RankingView> {
    let i = ranking_index(rs, owner);
    let r = RankingView { owner, ranked };
    if i >= 0 {
        rs.update(i, r)
    } else {
        rs.push(r)
    }
}

impl MatchingState {
    /// An empty state: no roster, round 0, closed.
    pub fn new() -> (r: MatchingState)
        ensures
            r.groups@.len() == 0,
            r.companies@.len() == 0,
            r.projects@.len() == 0,
            r.group_prefs@.len() == 0,
            r.project_prefs@.len() == 0,
            r.round_number == 0,
            !r.round_open,
            r.accepted_matches@.len() == 0,
            r.rejected_pairs@.len() == 0,
            r.match_decisions@.len() == 0,
            ledger_ok(r@),
    {
        MatchingState {
            groups: Vec::new(),
            companies: Vec::new(),
            projects: Vec::new(),
            group_prefs: Vec::new(),
            project_prefs: Vec::new(),
            round_number: 0,
            round_open: false,
            accepted_matches: Vec::new(),
            rejected_pairs: Vec::new(),
            match_decisions: Vec::new(),
        }
    }

    pub fn round_status(&self) -> (r: RoundStatusResponse)
        ensures
            r.round_number == self.round_number,
            r.round_open == self.round_open,
    {
        RoundStatusResponse { round_number: self.round_number, round_open: self.round_open }
    }

    fn group_registered(&self, email: &String) -> (r: bool)
        ensures
            r == has_group(self.groups@, email@),
    {
        let mut i: usize = 0;
        while i < self.groups.len()
            invariant
                i <= self.groups@.len(),
                forall|k: int| 0 <= k < i ==> self.groups@[k].email@ != email@,
            decreases self.groups@.len() - i,
        {
            if self.groups[i].email == *email {
                return true;
            }
            i = i + 1;
        }
        false
    }

    fn company_registered(&self, email: &String) -> (r: bool)
        ensures
            r == has_company(self.companies@, email@),
    {
        let mut i: usize = 0;
        while i < self.companies.len()
            invariant
                i <= self.companies@.len(),
                forall|k: int| 0 <= k < i ==> self.companies@[k].email@ != email@,
            decreases self.companies@.len() - i,
        {
            if self.companies[i].email == *email {
                return true;
            }
            i = i + 1;
        }
        false
    }

    /// Registers a group unless its email is taken.
    pub fn register_group(&mut self, req: CreateGroupRequest) -> (r: RegisterResponse)
        ensures
            r.ok == !has_group(old(self).groups@, req.email@),
            r.ok ==> final(self).groups@ == old(self).groups@.push(Group { name: req.name, email: req.email }),
            !r.ok ==> final(self).groups@ == old(self).groups@,
            final(self).companies@ == old(self).companies@,
            final(self)@ == (LedgerView { roster: final(self)@.roster, ..old(self)@ }),
            final(self).projects@ == old(self).projects@,
            final(self).group_prefs@ == old(self).group_prefs@,
            final(self).project_prefs@ == old(self).project_prefs@,
            !r.ok ==> r.message@ == "Group with this email already exists"@,
            r.ok ==> r.message@ == "Group created successfully"@,
    {
        if self.group_registered(&req.email) {
            return RegisterResponse { ok: false, message: String::from_str("Group with this email already exists") };
        }
        self.groups.push(Group { name: req.name, email: req.email });
        RegisterResponse { ok: true, message: String::from_str("Group created successfully") }
    }

    /// Registers a company unless its email is taken.
    pub fn register_company(&mut self, req: CreateCompanyRequest) -> (r: RegisterResponse)
        ensures
            r.ok == !has_company(old(self).companies@, req.email@),
            r.ok ==> final(self).companies@ == old(self).companies@.push(Company { name: req.name, email: req.email }),
            !r.ok ==> final(self).companies@ == old(self).companies@,
            final(self)@ == old(self)@,
            final(self).groups@ == old(self).groups@,
            final(self).projects@ == old(self).projects@,
            final(self).group_prefs@ == old(self).group_prefs@,
            final(self).project_prefs@ == old(self).project_prefs@,
            !r.ok ==> r.message@ == "Company with this email already exists"@,
            r.ok ==> r.message@ == "Company created successfully"@,
    {
        if self.company_registered(&req.email) {
            return RegisterResponse { ok: false, message: String::from_str("Company with this email already exists") };
        }
        self.companies.push(Company { name: req.name, email: req.email });
        RegisterResponse { ok: true, message: String::from_str("Company created successfully") }
    }

    /// Adds a project for the registered company `company_email`. Fails when
    /// the request names another company, the company is unknown, or the id
    /// is taken.
    pub fn add_project(&mut self, company_email: &String, req: CreateProjectRequest) -> (r: bool)
        ensures
            r == (req.company_email@ == company_email@ && has_company(old(self).companies@, company_email@)
                && project_index(project_views(old(self).projects@), req.id@) == -1),
            r ==> final(self).projects@.len() == old(self).projects@.len() + 1,
            r ==> final(self).projects@.last().capacity == normalized_capacity(req.capacity),
            r ==> final(self).projects@.last().id@ == req.id@,
            r ==> final(self).projects@.last().company_email@ == company_email@,
            r ==> final(self).projects@.last().name@ == req.name@,
            r ==> final(self).projects@.last().active == req.active,
            r ==> final(self).projects@.last().description == req.description,
            r ==> final(self).projects@.drop_last() == old(self).projects@,
            !r ==> final(self).projects@ == old(self).projects@,
            final(self).groups@ == old(self).groups@,
            final(self).companies@ == old(self).companies@,
            final(self).group_prefs@ == old(self).group_prefs@,
            final(self).project_prefs@ == old(self).project_prefs@,
            final(self).round_number == old(self).round_number,
            final(self).round_open == old(self).round_open,
            final(self).accepted_matches@ == old(self).accepted_matches@,
            final(self).rejected_pairs@ == old(self).rejected_pairs@,
            final(self).match_decisions@ == old(self).match_decisions@,
    {
        if req.company_email != *company_email || !self.company_registered(company_email) {
            return false;
        }
        if find_project(&self.projects, &req.id).is_some() {
            return false;
        }
        let p = Project::from_request(req);
        self.projects.push(p);
        assert(self.projects@.drop_last() =~= old(self).projects@);
        true
    }

    /// Replaces the whole ranking of the registered group `group_email`.
    pub fn set_group_preferences(&mut self, group_email: &String, ranked: Vec<String>) -> (r: bool)
        ensures
            r == has_group(old(self).groups@, group_email@),
            r ==> group_ranking_views(final(self).group_prefs@) == replaced_ranking(
                group_ranking_views(old(self).group_prefs@),
                group_email@,
                texts(ranked@),
            ),
            !r ==> final(self).group_prefs@ == old(self).group_prefs@,
            final(self).groups@ == old(self).groups@,
            final(self).companies@ == old(self).companies@,
            final(self).projects@ == old(self).projects@,
            final(self).project_prefs@ == old(self).project_prefs@,
            final(self).round_number == old(self).round_number,
            final(self).round_open == old(self).round_open,
            final(self).accepted_matches@ == old(self).accepted_matches@,
            final(self).rejected_pairs@ == old(self).rejected_pairs@,
            final(self).match_decisions@ == old(self).match_decisions@,
    {
        if !self.group_registered(group_email) {
            return false;
        }
        let ghost before = group_ranking_views(self.group_prefs@);
        let entry = GroupPreferencesResponse { group_email: group_email.clone(), project_ids_ranked: ranked };
        match find_group_ranking(&self.group_prefs, group_email) {
            Some(i) => self.group_prefs.set(i, entry),
            None => self.group_prefs.push(entry),
        }
        assert(group_ranking_views(self.group_prefs@) =~= replaced_ranking(before, group_email@, texts(ranked@)));
        true
    }

    /// Replaces the whole ranking of project `project_id`, which must belong
    /// to `company_email`.
    pub fn set_project_preferences(&mut self, company_email: &String, project_id: &String, ranked: Vec<String>) -> (r: bool)
        ensures
            r == ({
                let i = project_index(project_views(old(self).projects@), project_id@);
                i >= 0 && old(self).projects@[i].company_email@ == company_email@
            }),
            r ==> project_ranking_views(final(self).project_prefs@) == replaced_ranking(
                project_ranking_views(old(self).project_prefs@),
                project_id@,
                texts(ranked@),
            ),
            !r ==> final(self).project_prefs@ == old(self).project_prefs@,
            final(self).groups@ == old(self).groups@,
            final(self).companies@ == old(self).companies@,
            final(self).projects@ == old(self).projects@,
            final(self).group_prefs@ == old(self).group_prefs@,
            final(self).round_number == old(self).round_number,
            final(self).round_open == old(self).round_open,
            final(self).accepted_matches@ == old(self).accepted_matches@,
            final(self).rejected_pairs@ == old(self).rejected_pairs@,
            final(self).match_decisions@ == old(self).match_decisions@,
    {
        match find_project(&self.projects, project_id) {
            None => return false,
            Some(p) => {
                if self.projects[p].company_email != *company_email {
                    return false;
                }
            },
        }
        let ghost before = project_ranking_views(self.project_prefs@);
        let entry = ProjectPreferencesResponse { project_id: project_id.clone(), group_emails_ranked: ranked };
        match find_project_ranking(&self.project_prefs, project_id) {
            Some(i) => self.project_prefs.set(i, entry),
            None => self.project_prefs.push(entry),
        }
        assert(project_ranking_views(self.project_prefs@) =~= replaced_ranking(before, project_id@, texts(ranked@)));
        true
    }

    /// Accepts or rejects, as `decision` says, the tentative match of `party`
    /// (for a company, the one of project `target`).
    pub fn decide(&mut self, party: &Party, decision: Decision, target: &Option<String>) -> (r: bool)
        ensures
            (final(self)@, r) == match decision {
                Decision::Accept => accept_spec(old(self)@, party@, text_option(*target)),
                Decision::Reject => reject_spec(old(self)@, party@, text_option(*target)),
            },
            final(self).roster_unchanged(old(self)),
    {
        match decision {
            Decision::Accept => self.accept(party, target),
            Decision::Reject => self.reject(party, target),
        }
    }
}

} // verus!
