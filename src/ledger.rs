use vstd::prelude::*;
use vstd::pervasive::VecAdditionalExecFns;
use crate::allocate::{Roster, allocate, allocation, roster_of};
use crate::model::{
    Company, Group, GroupPreferencesResponse, MatchResult, MatchView, Project,
    ProjectPreferencesResponse, first_index_where, lemma_first_index_stable,
    match_views,
};
use crate::order::{SortKey, sort_matches, sorted_by};

verus! {

/// Who acts on the ledger: a group or a company, by email.
pub enum Party {
    Group(String),
    Company(String),
}

pub enum PartyView {
    Group(Seq<char>),
    Company(Seq<char>),
}

impl View for Party {
    type V = PartyView;

    open spec fn view(&self) -> PartyView {
        match self {
            Party::Group(e) => PartyView::Group(e@),
            Party::Company(e) => PartyView::Company(e@),
        }
    }
}

/// What a visible tentative match stands at in the current round, seen from one party.
#[derive(Clone, Copy, PartialEq, Eq, Structural, Debug)]
pub enum MatchStatus {
    Pending,
    AcceptedByMe,
    AcceptedByOther,
    Final,
}

/// The decisions taken on one pair in one round.
pub struct MatchDecision {
    pub round_number: u32,
    pub company_email: String,
    pub group_email: String,
    pub project_id: String,
    pub accepted_by_company: bool,
    pub accepted_by_group: bool,
    pub rejected_by_company: bool,
    pub rejected_by_group: bool,
}

pub struct DecisionView {
    pub round: nat,
    pub company_email: Seq<char>,
    pub group_email: Seq<char>,
    pub project_id: Seq<char>,
    pub accepted_by_company: bool,
    pub accepted_by_group: bool,
    pub rejected_by_company: bool,
    pub rejected_by_group: bool,
}

impl View for MatchDecision {
    type V = DecisionView;

    open spec fn view(&self) -> DecisionView {
        DecisionView {
            round: self.round_number as nat,
            company_email: self.company_email@,
            group_email: self.group_email@,
            project_id: self.project_id@,
            accepted_by_company: self.accepted_by_company,
            accepted_by_group: self.accepted_by_group,
            rejected_by_company: self.rejected_by_company,
            rejected_by_group: self.rejected_by_group,
        }
    }
}

/// A (group, project) pair that one side has turned down for good.
pub struct RejectedPair {
    pub group_email: String,
    pub project_id: String,
}

pub struct PairView {
    pub group_email: Seq<char>,
    pub project_id: Seq<char>,
}

impl View for RejectedPair {
    type V = PairView;

    open spec fn view(&self) -> PairView {
        PairView { group_email: self.group_email@, project_id: self.project_id@ }
    }
}

/// The negotiation state as values.
pub struct LedgerView {
    pub roster: Roster,
    pub round: nat,
    pub open: bool,
    pub finalized: Seq<MatchView>,
    pub rejected: Seq<PairView>,
    pub decisions: Seq<DecisionView>,
}

pub open spec fn pair_of(m: MatchView) -> PairView {
    PairView { group_email: m.group_email, project_id: m.project_id }
}

/// The pair of `m` has been rejected, or its group or its project is settled.
pub open spec fn barred(s: LedgerView, m: MatchView) -> bool {
    ||| s.rejected.contains(pair_of(m))
    ||| exists|i: int| 0 <= i < s.finalized.len() && #[trigger] s.finalized[i].group_email == m.group_email
    ||| exists|i: int| 0 <= i < s.finalized.len() && #[trigger] s.finalized[i].project_id == m.project_id
}

pub open spec fn involves(party: PartyView, m: MatchView) -> bool {
    match party {
        PartyView::Group(e) => m.group_email == e,
        PartyView::Company(e) => m.company_email == e,
    }
}

pub open spec fn decision_is_for(d: DecisionView, round: nat, m: MatchView) -> bool {
    d.round == round && d.company_email == m.company_email && d.group_email == m.group_email
        && d.project_id == m.project_id
}

/// Position of the record of the current round's decisions on `m`, or -1.
pub open spec fn decision_index(s: LedgerView, m: MatchView) -> int {
    first_index_where(s.decisions, |d: DecisionView| decision_is_for(d, s.round, m), s.decisions.len() as int)
}

pub open spec fn rejected_in_round(s: LedgerView, m: MatchView) -> bool {
    let i = decision_index(s, m);
    i >= 0 && (s.decisions[i].rejected_by_company || s.decisions[i].rejected_by_group)
}

/// Whether `party` is shown the tentative match `m`.
pub open spec fn shown(s: LedgerView, party: PartyView, m: MatchView) -> bool {
    !barred(s, m) && involves(party, m) && !rejected_in_round(s, m)
}

/// The tentative matches that `party` is shown, in order of project name.
pub open spec fn visible_spec(s: LedgerView, party: PartyView) -> Seq<MatchView> {
    sorted_by(allocation(s.roster), SortKey::ProjectName).filter(shown_pred(s, party))
}

pub open spec fn shown_pred(s: LedgerView, party: PartyView) -> spec_fn(MatchView) -> bool {
    |m: MatchView| shown(s, party, m)
}

/// The status of `m` for `party` in the current round.
pub open spec fn status_spec(s: LedgerView, party: PartyView, m: MatchView) -> MatchStatus {
    let i = decision_index(s, m);
    if i < 0 {
        MatchStatus::Pending
    } else {
        let d = s.decisions[i];
        let (mine, other) = match party {
            PartyView::Group(_) => (d.accepted_by_group, d.accepted_by_company),
            PartyView::Company(_) => (d.accepted_by_company, d.accepted_by_group),
        };
        if mine && other {
            MatchStatus::Final
        } else if mine {
            MatchStatus::AcceptedByMe
        } else if other {
            MatchStatus::AcceptedByOther
        } else {
            MatchStatus::Pending
        }
    }
}

pub open spec fn of_project(t: Seq<char>) -> spec_fn(MatchView) -> bool {
    |m: MatchView| m.project_id == t
}

/// The visible match that a decision of `party` is about: a group's only
/// one, or a company's one for the given project.
pub open spec fn decision_target(s: LedgerView, party: PartyView, target: Option<Seq<char>>) -> Option<MatchView> {
    let v = visible_spec(s, party);
    match party {
        PartyView::Group(_) => if v.len() > 0 {
            Some(v[0])
        } else {
            None
        },
        PartyView::Company(_) => match target {
            Some(t) => {
                let i = first_index_where(v, of_project(t), v.len() as int);
                if t.len() > 0 && i >= 0 {
                    Some(v[i])
                } else {
                    None
                }
            },
            None => None,
        },
    }
}

pub open spec fn fresh_decision(round: nat, m: MatchView) -> DecisionView {
    DecisionView {
        round,
        company_email: m.company_email,
        group_email: m.group_email,
        project_id: m.project_id,
        accepted_by_company: false,
        accepted_by_group: false,
        rejected_by_company: false,
        rejected_by_group: false,
    }
}

/// The current round's record for `m`, whether or not it exists yet.
pub open spec fn current_record(s: LedgerView, m: MatchView) -> DecisionView {
    let i = decision_index(s, m);
    if i >= 0 {
        s.decisions[i]
    } else {
        fresh_decision(s.round, m)
    }
}

/// The decision records with the current round's record for `m` set to `d`.
pub open spec fn with_record(s: LedgerView, m: MatchView, d: DecisionView) -> Seq<DecisionView> {
    let i = decision_index(s, m);
    if i >= 0 {
        s.decisions.update(i, d)
    } else {
        s.decisions.push(d)
    }
}

pub open spec fn accepted_record(party: PartyView, d: DecisionView) -> DecisionView {
    match party {
        PartyView::Group(_) => DecisionView { accepted_by_group: true, ..d },
        PartyView::Company(_) => DecisionView { accepted_by_company: true, ..d },
    }
}

pub open spec fn rejected_record(party: PartyView, d: DecisionView) -> DecisionView {
    match party {
        PartyView::Group(_) => DecisionView { rejected_by_group: true, ..d },
        PartyView::Company(_) => DecisionView { rejected_by_company: true, ..d },
    }
}

pub open spec fn is_finalized(s: LedgerView, m: MatchView) -> bool {
    exists|i: int|
        0 <= i < s.finalized.len() && #[trigger] s.finalized[i].group_email == m.group_email
            && s.finalized[i].project_id == m.project_id
}

/// `accept` as a function of the state: the new state and whether it succeeded.
pub open spec fn accept_spec(s: LedgerView, party: PartyView, target: Option<Seq<char>>) -> (LedgerView, bool) {
    if !s.open {
        (s, false)
    } else {
        match decision_target(s, party, target) {
            None => (s, false),
            Some(m) => {
                let d = accepted_record(party, current_record(s, m));
                let finalized = if d.accepted_by_company && d.accepted_by_group && !is_finalized(s, m) {
                    s.finalized.push(m)
                } else {
                    s.finalized
                };
                (LedgerView { decisions: with_record(s, m, d), finalized, ..s }, true)
            },
        }
    }
}

/// `reject` as a function of the state: the new state and whether it succeeded.
pub open spec fn reject_spec(s: LedgerView, party: PartyView, target: Option<Seq<char>>) -> (LedgerView, bool) {
    if !s.open {
        (s, false)
    } else {
        match decision_target(s, party, target) {
            None => (s, false),
            Some(m) => {
                let d = rejected_record(party, current_record(s, m));
                let rejected = if s.rejected.contains(pair_of(m)) {
                    s.rejected
                } else {
                    s.rejected.push(pair_of(m))
                };
                (LedgerView { decisions: with_record(s, m, d), rejected, ..s }, true)
            },
        }
    }
}

pub open spec fn start_round_spec(s: LedgerView) -> LedgerView {
    LedgerView { round: s.round + 1, open: true, ..s }
}

pub open spec fn close_round_spec(s: LedgerView) -> LedgerView {
    LedgerView { open: false, ..s }
}

/// The whole state of the matching service: roster, preferences, round and ledger.
pub struct MatchingState {
    pub groups: Vec<Group>,
    pub companies: Vec<Company>,
    pub projects: Vec<Project>,
    pub group_prefs: Vec<GroupPreferencesResponse>,
    pub project_prefs: Vec<ProjectPreferencesResponse>,
    pub round_number: u32,
    pub round_open: bool,
    pub accepted_matches: Vec<MatchResult>,
    pub rejected_pairs: Vec<RejectedPair>,
    pub match_decisions: Vec<MatchDecision>,
}

pub open spec fn pair_views(s: Seq<RejectedPair>) -> Seq<PairView> {
    s.map_values(|p: RejectedPair| p@)
}

pub open spec fn decision_views(s: Seq<MatchDecision>) -> Seq<DecisionView> {
    s.map_values(|d: MatchDecision| d@)
}

pub open spec fn text_option(t: Option<String>) -> Option<Seq<char>> {
    match t {
        Some(s) => Some(s@),
        None => None,
    }
}

impl View for MatchingState {
    type V = LedgerView;

    open spec fn view(&self) -> LedgerView {
        LedgerView {
            roster: roster_of(self.groups@, self.projects@, self.group_prefs@, self.project_prefs@),
            round: self.round_number as nat,
            open: self.round_open,
            finalized: match_views(self.accepted_matches@),
            rejected: pair_views(self.rejected_pairs@),
            decisions: decision_views(self.match_decisions@),
        }
    }
}

/// A tentative match as one party sees it.
pub struct VisibleMatch {
    pub tentative: MatchResult,
    pub status: MatchStatus,
}

impl MatchingState {
    /// Groups, companies, projects and rankings are the same in `self` and `other`.
    pub open spec fn roster_unchanged(&self, other: &MatchingState) -> bool {
        &&& self.groups@ == other.groups@
        &&& self.companies@ == other.companies@
        &&& self.projects@ == other.projects@
        &&& self.group_prefs@ == other.group_prefs@
        &&& self.project_prefs@ == other.project_prefs@
    }
}

impl MatchDecision {
    pub fn copied(&self) -> (r: MatchDecision)
        ensures
            r@ == self@,
    {
        MatchDecision {
            round_number: self.round_number,
            company_email: self.company_email.clone(),
            group_email: self.group_email.clone(),
            project_id: self.project_id.clone(),
            accepted_by_company: self.accepted_by_company,
            accepted_by_group: self.accepted_by_group,
            rejected_by_company: self.rejected_by_company,
            rejected_by_group: self.rejected_by_group,
        }
    }
}

impl MatchingState {
    /// The pair of `m` is among the rejected pairs.
    fn is_rejected(&self, m: &MatchResult) -> (r: bool)
        ensures
            r == self@.rejected.contains(pair_of(m@)),
    {
        let ghost v = self@.rejected;
        let mut i: usize = 0;
        while i < self.rejected_pairs.len()
            invariant
                i <= self.rejected_pairs@.len(),
                v == self@.rejected,
                forall|k: int| 0 <= k < i ==> v[k] != pair_of(m@),
            decreases self.rejected_pairs@.len() - i,
        {
            let rp = &self.rejected_pairs[i];
            if rp.group_email == m.group_email && rp.project_id == m.project_id {
                assert(v[i as int] == pair_of(m@));
                return true;
            }
            i = i + 1;
        }
        false
    }

    /// Whether the pair of `m` is barred from being shown.
    fn is_barred(&self, m: &MatchResult) -> (r: bool)
        ensures
            r == barred(self@, m@),
    {
        if self.is_rejected(m) {
            return true;
        }
        let ghost f = self@.finalized;
        let mut i: usize = 0;
        while i < self.accepted_matches.len()
            invariant
                i <= self.accepted_matches@.len(),
                f == self@.finalized,
                forall|k: int| 0 <= k < i ==> (#[trigger] f[k]).group_email != m@.group_email && f[k].project_id != m@.project_id,
            decreases self.accepted_matches@.len() - i,
        {
            let a = &self.accepted_matches[i];
            assert(f[i as int] == a@);
            if a.group_email == m.group_email {
                assert(self@.finalized[i as int].group_email == m@.group_email);
                return true;
            }
            if a.project_id == m.project_id {
                assert(self@.finalized[i as int].project_id == m@.project_id);
                return true;
            }
            i = i + 1;
        }
        false
    }

    /// Whether `m`'s group and project already make a finalized match.
    fn is_finalized_pair(&self, m: &MatchResult) -> (r: bool)
        ensures
            r == is_finalized(self@, m@),
    {
        let ghost f = self@.finalized;
        let mut i: usize = 0;
        while i < self.accepted_matches.len()
            invariant
                i <= self.accepted_matches@.len(),
                f == self@.finalized,
                forall|k: int| 0 <= k < i ==> !((#[trigger] f[k]).group_email == m@.group_email && f[k].project_id == m@.project_id),
            decreases self.accepted_matches@.len() - i,
        {
            let a = &self.accepted_matches[i];
            assert(f[i as int] == a@);
            if a.group_email == m.group_email && a.project_id == m.project_id {
                assert(self@.finalized[i as int].group_email == m@.group_email);
                return true;
            }
            i = i + 1;
        }
        false
    }

    /// Position of the current round's decision record on `m`.
    fn decision_position(&self, m: &MatchResult) -> (r: Option<usize>)
        ensures
            match r {
                Some(i) => i as int == decision_index(self@, m@) && i < self.match_decisions@.len(),
                None => decision_index(self@, m@) == -1,
            },
    {
        let ghost v = self@.decisions;
        let ghost f = |d: DecisionView| decision_is_for(d, self@.round, m@);
        let mut i: usize = 0;
        while i < self.match_decisions.len()
            invariant
                i <= self.match_decisions@.len(),
                v == self@.decisions,
                f == (|d: DecisionView| decision_is_for(d, self@.round, m@)),
                first_index_where(v, f, i as int) == -1,
            decreases self.match_decisions@.len() - i,
        {
            let d = &self.match_decisions[i];
            assert(v[i as int] == d@);
            if d.round_number == self.round_number && d.company_email == m.company_email
                && d.group_email == m.group_email && d.project_id == m.project_id {
                proof {
                    lemma_first_index_stable(v, f, i + 1, v.len() as int);
                }
                return Some(i);
            }
            i = i + 1;
        }
        None
    }

    fn is_shown(&self, party: &Party, m: &MatchResult) -> (r: bool)
        ensures
            r == shown(self@, party@, m@),
    {
        if self.is_barred(m) {
            return false;
        }
        let involved = match party {
            Party::Group(e) => m.group_email == *e,
            Party::Company(e) => m.company_email == *e,
        };
        if !involved {
            return false;
        }
        match self.decision_position(m) {
            Some(i) => !(self.match_decisions[i].rejected_by_company || self.match_decisions[i].rejected_by_group),
            None => true,
        }
    }

    fn status(&self, party: &Party, m: &MatchResult) -> (r: MatchStatus)
        ensures
            r == status_spec(self@, party@, m@),
    {
        match self.decision_position(m) {
            None => MatchStatus::Pending,
            Some(i) => {
                let d = &self.match_decisions[i];
                let (mine, other) = match party {
                    Party::Group(_) => (d.accepted_by_group, d.accepted_by_company),
                    Party::Company(_) => (d.accepted_by_company, d.accepted_by_group),
                };
                if mine && other {
                    MatchStatus::Final
                } else if mine {
                    MatchStatus::AcceptedByMe
                } else if other {
                    MatchStatus::AcceptedByOther
                } else {
                    MatchStatus::Pending
                }
            },
        }
    }

    /// The full tentative assignment, unfiltered.
    pub fn compute_tentative_matches(&self) -> (r: Vec<MatchResult>)
        ensures
            match_views(r@) == allocation(self@.roster),
    {
        allocate(&self.groups, &self.projects, &self.group_prefs, &self.project_prefs)
    }

    /// The tentative matches that `party` is shown, in order of project name.
    pub fn candidates_for(&self, party: &Party) -> (r: Vec<MatchResult>)
        ensures
            match_views(r@) == visible_spec(self@, party@),
    {
        let all = self.compute_tentative_matches();
        let sorted = sort_matches(&all, SortKey::ProjectName);
        let ghost srt = match_views(sorted@);
        let ghost pred = shown_pred(self@, party@);
        let mut out: Vec<MatchResult> = Vec::new();
        let mut i: usize = 0;
        assert(srt.take(0) =~= Seq::<MatchView>::empty());
        assert(match_views(out@) =~= srt.take(0).filter(pred)) by {
            reveal(Seq::filter);
        }
        while i < sorted.len()
            invariant
                i <= sorted@.len(),
                srt == match_views(sorted@),
                pred == shown_pred(self@, party@),
                match_views(out@) == srt.take(i as int).filter(pred),
            decreases sorted@.len() - i,
        {
            assert(srt.take(i + 1) =~= srt.take(i as int).push(srt[i as int]));
            proof {
                srt.take(i as int).lemma_filter_push(srt[i as int], pred);
            }
            if self.is_shown(party, &sorted[i]) {
                let ghost prev = match_views(out@);
                out.push(sorted[i].copied());
                assert(match_views(out@) =~= prev.push(srt[i as int]));
            }
            i = i + 1;
        }
        assert(srt.take(sorted@.len() as int) =~= srt);
        out
    }

    /// The tentative matches that `party` is shown, each with its status in
    /// the current round, in order of project name.
    pub fn visible_matches_for(&self, party: &Party) -> (r: Vec<VisibleMatch>)
        ensures
            r@.len() == visible_spec(self@, party@).len(),
            forall|i: int| 0 <= i < r@.len() ==> (#[trigger] r@[i]).tentative@ == visible_spec(self@, party@)[i]
                && r@[i].status == status_spec(self@, party@, visible_spec(self@, party@)[i]),
    {
        let cands = self.candidates_for(party);
        let mut out: Vec<VisibleMatch> = Vec::new();
        let mut i: usize = 0;
        while i < cands.len()
            invariant
                i <= cands@.len(),
                match_views(cands@) == visible_spec(self@, party@),
                out@.len() == i,
                forall|k: int| 0 <= k < i ==> (#[trigger] out@[k]).tentative@ == visible_spec(self@, party@)[k]
                    && out@[k].status == status_spec(self@, party@, visible_spec(self@, party@)[k]),
            decreases cands@.len() - i,
        {
            let st = self.status(party, &cands[i]);
            out.push(VisibleMatch { tentative: cands[i].copied(), status: st });
            i = i + 1;
        }
        out
    }

    /// The visible match that a decision of `party` is about.
    fn decision_match(&self, party: &Party, target: &Option<String>) -> (r: Option<MatchResult>)
        ensures
            match r {
                Some(m) => decision_target(self@, party@, text_option(*target)) == Some(m@),
                None => decision_target(self@, party@, text_option(*target)).is_none(),
            },
    {
        let cands = self.candidates_for(party);
        let ghost v = visible_spec(self@, party@);
        match party {
            Party::Group(_) => {
                if cands.len() > 0 {
                    Some(cands[0].copied())
                } else {
                    None
                }
            },
            Party::Company(_) => {
                match target {
                    None => None,
                    Some(t) => {
                        if t.as_str().is_empty() {
                            assert(t@.len() == 0);
                            return None;
                        }
                        assert(t@.len() > 0);
                        let ghost f = of_project(t@);
                        let mut i: usize = 0;
                        while i < cands.len()
                            invariant
                                i <= cands@.len(),
                                v == match_views(cands@),
                                v == visible_spec(self@, party@),
                                text_option(*target) == Some(t@),
                                t@.len() > 0,
                                party@ is Company,
                                f == of_project(t@),
                                first_index_where(v, f, i as int) == -1,
                            decreases cands@.len() - i,
                        {
                            if cands[i].project_id == *t {
                                assert(f(v[i as int]));
                                proof {
                                    lemma_first_index_stable(v, f, i + 1, v.len() as int);
                                }
                                return Some(cands[i].copied());
                            }
                            i = i + 1;
                        }
                        None
                    },
                }
            },
        }
    }

    /// Records the current round's decision `d` on `m` at `pos`, or as a new record.
    fn put_record(&mut self, pos: Option<usize>, m: &MatchResult, d: MatchDecision)
        requires
            match pos {
                Some(i) => i as int == decision_index(old(self)@, m@) && i < old(self).match_decisions@.len(),
                None => decision_index(old(self)@, m@) == -1,
            },
        ensures
            final(self)@ == (LedgerView { decisions: with_record(old(self)@, m@, d@), ..old(self)@ }),
            final(self).roster_unchanged(old(self)),
            final(self).accepted_matches@ == old(self).accepted_matches@,
            final(self).rejected_pairs@ == old(self).rejected_pairs@,
    {
        let ghost s0 = self@;
        match pos {
            Some(i) => {
                self.match_decisions.set(i, d);
            },
            None => {
                self.match_decisions.push(d);
            },
        }
        assert(self@.decisions =~= with_record(s0, m@, d@));
    }

    /// The current round's record on `m`, or a fresh one.
    fn record_for(&self, pos: Option<usize>, m: &MatchResult) -> (r: MatchDecision)
        requires
            match pos {
                Some(i) => i as int == decision_index(self@, m@) && i < self.match_decisions@.len(),
                None => decision_index(self@, m@) == -1,
            },
        ensures
            r@ == current_record(self@, m@),
    {
        match pos {
            Some(i) => self.match_decisions[i].copied(),
            None => MatchDecision {
                round_number: self.round_number,
                company_email: m.company_email.clone(),
                group_email: m.group_email.clone(),
                project_id: m.project_id.clone(),
                accepted_by_company: false,
                accepted_by_group: false,
                rejected_by_company: false,
                rejected_by_group: false,
            },
        }
    }

    /// `party` accepts its tentative match (for a company, the one of project
    /// `target`). Fails while the round is closed or when there is no such
    /// visible match. The pair is finalized once both sides have accepted in
    /// the same round.
    pub fn accept(&mut self, party: &Party, target: &Option<String>) -> (r: bool)
        ensures
            (final(self)@, r) == accept_spec(old(self)@, party@, text_option(*target)),
            final(self).roster_unchanged(old(self)),
    {
        if !self.round_open {
            return false;
        }
        let m = match self.decision_match(party, target) {
            Some(m) => m,
            None => return false,
        };
        let ghost s0 = self@;
        let pos = self.decision_position(&m);
        let mut d = self.record_for(pos, &m);
        match party {
            Party::Group(_) => d.accepted_by_group = true,
            Party::Company(_) => d.accepted_by_company = true,
        }
        let both = d.accepted_by_company && d.accepted_by_group;
        let settled = self.is_finalized_pair(&m);
        self.put_record(pos, &m, d);
        if both && !settled {
            let ghost s1 = self@;
            self.accepted_matches.push(m);
            assert(self@.finalized =~= s1.finalized.push(m@));
        }
        assert(self@ == accept_spec(s0, party@, text_option(*target)).0);
        true
    }

    /// `party` rejects its tentative match (for a company, the one of project
    /// `target`). Fails while the round is closed or when there is no such
    /// visible match. A rejected pair is barred for good.
    pub fn reject(&mut self, party: &Party, target: &Option<String>) -> (r: bool)
        ensures
            (final(self)@, r) == reject_spec(old(self)@, party@, text_option(*target)),
            final(self).roster_unchanged(old(self)),
    {
        if !self.round_open {
            return false;
        }
        let m = match self.decision_match(party, target) {
            Some(m) => m,
            None => return false,
        };
        let ghost s0 = self@;
        let pos = self.decision_position(&m);
        let mut d = self.record_for(pos, &m);
        match party {
            Party::Group(_) => d.rejected_by_group = true,
            Party::Company(_) => d.rejected_by_company = true,
        }
        let known = self.is_rejected(&m);
        self.put_record(pos, &m, d);
        if !known {
            let ghost s1 = self@;
            self.rejected_pairs.push(RejectedPair { group_email: m.group_email, project_id: m.project_id });
            assert(self@.rejected =~= s1.rejected.push(pair_of(m@)));
        }
        assert(self@ == reject_spec(s0, party@, text_option(*target)).0);
        true
    }

    /// Opens the next round, whatever the current state.
    pub fn start_round(&mut self)
        requires
            old(self).round_number < u32::MAX,
        ensures
            final(self)@ == start_round_spec(old(self)@),
            final(self).roster_unchanged(old(self)),
    {
        self.round_number = self.round_number + 1;
        self.round_open = true;
    }

    /// Closes the current round, whatever the current state.
    pub fn close_round(&mut self)
        ensures
            final(self)@ == close_round_spec(old(self)@),
            final(self).roster_unchanged(old(self)),
    {
        self.round_open = false;
    }
}

} // verus!
