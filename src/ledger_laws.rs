use vstd::prelude::*;
use crate::ledger::{
    DecisionView, LedgerView, PairView, PartyView, accept_spec, accepted_record, barred,
    close_round_spec, current_record, decision_index, decision_is_for, decision_target,
    is_finalized, of_project, pair_of, reject_spec, rejected_record, shown, shown_pred,
    start_round_spec, visible_spec, with_record,
};
use crate::allocate::allocation;
use crate::allocation_laws::lemma_allocation_one_entry_per_group;
use crate::model::{MatchView, lemma_first_index_where};
use crate::order::{
    SortKey, groups_distinct, lemma_sorted_by_distinct, lemma_sorted_by_members, sorted_by,
};

verus! {

/// No group email appears in two finalized matches.
pub open spec fn one_final_per_group(s: LedgerView) -> bool {
    forall|i: int, j: int|
        0 <= i < j < s.finalized.len() ==> (#[trigger] s.finalized[i]).group_email
            != (#[trigger] s.finalized[j]).group_email
}

/// Every finalized match has a decision record, scoped to one round, in
/// which both sides accepted it.
pub open spec fn finals_doubly_accepted(s: LedgerView) -> bool {
    forall|i: int| 0 <= i < s.finalized.len() ==> #[trigger] has_double_accept(s.decisions, s.finalized[i])
}

pub open spec fn has_double_accept(ds: Seq<DecisionView>, m: MatchView) -> bool {
    exists|k: int| 0 <= k < ds.len() && #[trigger] accepted_by_both(ds[k], m)
}

pub open spec fn accepted_by_both(d: DecisionView, m: MatchView) -> bool {
    d.company_email == m.company_email && d.group_email == m.group_email && d.project_id == m.project_id
        && d.accepted_by_company && d.accepted_by_group
}

/// The ledger's invariants: one finalized match per group, finalization
/// only after a double accept, and rejected pairs kept without repeats.
pub open spec fn ledger_ok(s: LedgerView) -> bool {
    &&& one_final_per_group(s)
    &&& finals_doubly_accepted(s)
    &&& s.rejected.no_duplicates()
}

/// The match that a decision acts on is one the party is shown.
pub proof fn lemma_target_is_shown(s: LedgerView, party: PartyView, target: Option<Seq<char>>)
    requires
        decision_target(s, party, target).is_some(),
    ensures
        shown(s, party, decision_target(s, party, target).unwrap()),
        visible_spec(s, party).contains(decision_target(s, party, target).unwrap()),
{
    let v = visible_spec(s, party);
    let m = decision_target(s, party, target).unwrap();
    let i = match party {
        PartyView::Group(_) => 0,
        PartyView::Company(_) => {
            let t = target.unwrap();
            lemma_first_index_where(v, of_project(t), v.len() as int);
            crate::model::first_index_where(v, of_project(t), v.len() as int)
        },
    };
    assert(v[i] == m);
    let base = crate::order::sorted_by(crate::allocate::allocation(s.roster), crate::order::SortKey::ProjectName);
    base.lemma_filter_pred(shown_pred(s, party), i);
}

/// Records other than the current round's record for the decided match are
/// kept, and that record only gains flags.
proof fn lemma_with_record_keeps_acceptances(s: LedgerView, m: MatchView, d: DecisionView, f: MatchView, k: int)
    requires
        0 <= k < s.decisions.len(),
        accepted_by_both(s.decisions[k], f),
        decision_index(s, m) == k ==> ((current_record(s, m).accepted_by_company ==> d.accepted_by_company)
            && (current_record(s, m).accepted_by_group ==> d.accepted_by_group)
            && d.company_email == current_record(s, m).company_email
            && d.group_email == current_record(s, m).group_email
            && d.project_id == current_record(s, m).project_id),
    ensures
        accepted_by_both(with_record(s, m, d)[k], f),
        k < with_record(s, m, d).len(),
{
    lemma_first_index_where(s.decisions, |x: DecisionView| decision_is_for(x, s.round, m), s.decisions.len() as int);
}

proof fn acceptance_witness(s: LedgerView, i: int) -> (k: int)
    requires
        finals_doubly_accepted(s),
        0 <= i < s.finalized.len(),
    ensures
        0 <= k < s.decisions.len(),
        accepted_by_both(s.decisions[k], s.finalized[i]),
{
    let fi = s.finalized[i];
    assert(has_double_accept(s.decisions, fi));
    choose|k: int| 0 <= k < s.decisions.len() && #[trigger] accepted_by_both(s.decisions[k], fi)
}

proof fn lemma_ledger_ok_same_records(s: LedgerView, t: LedgerView)
    requires
        ledger_ok(s),
        t.finalized == s.finalized,
        t.rejected == s.rejected,
        t.decisions == s.decisions,
    ensures
        ledger_ok(t),
{
    assert forall|i: int| 0 <= i < t.finalized.len() implies #[trigger] has_double_accept(t.decisions, t.finalized[i]) by {
        let k = acceptance_witness(s, i);
        assert(accepted_by_both(t.decisions[k], t.finalized[i]));
    }
    assert(finals_doubly_accepted(t));
    assert(one_final_per_group(t));
    assert(t.rejected.no_duplicates());
}

/// Accepting, rejecting and moving between rounds keep the ledger's
/// invariants: a group is finalized at most once, and only after both
/// sides accepted the pair in one round.
pub proof fn lemma_ledger_invariants_kept(s: LedgerView, party: PartyView, target: Option<Seq<char>>)
    requires
        ledger_ok(s),
    ensures
        ledger_ok(accept_spec(s, party, target).0),
        ledger_ok(reject_spec(s, party, target).0),
        ledger_ok(start_round_spec(s)),
        ledger_ok(close_round_spec(s)),
{
    lemma_ledger_ok_same_records(s, close_round_spec(s));
    assert(ledger_ok(start_round_spec(s))) by {
        let t = start_round_spec(s);
        assert(t.finalized == s.finalized);
        assert(t.rejected == s.rejected);
        assert forall|i: int| 0 <= i < t.finalized.len() implies #[trigger] has_double_accept(t.decisions, t.finalized[i]) by {
            let fi = s.finalized[i];
            let k = acceptance_witness(s, i);
            assert(accepted_by_both(t.decisions[k], t.finalized[i]));
        }
    }
    if s.open && decision_target(s, party, target).is_some() {
        let m = decision_target(s, party, target).unwrap();
        lemma_target_is_shown(s, party, target);
        let idx = decision_index(s, m);
        lemma_first_index_where(s.decisions, |d: DecisionView| decision_is_for(d, s.round, m), s.decisions.len() as int);
        let cur = current_record(s, m);
        // accept
        let da = accepted_record(party, cur);
        let a = accept_spec(s, party, target).0;
        assert(a.decisions == with_record(s, m, da));
        if da.accepted_by_company && da.accepted_by_group && !is_finalized(s, m) {
            let kk = if idx >= 0 { idx } else { s.decisions.len() as int };
            assert(accepted_by_both(a.decisions[kk], m));
            assert(!barred(s, m));
            assert forall|i: int, j: int| 0 <= i < j < a.finalized.len() implies
                (#[trigger] a.finalized[i]).group_email != (#[trigger] a.finalized[j]).group_email by {
                if j == s.finalized.len() {
                    assert(s.finalized[i].group_email != m.group_email);
                }
            }
            assert forall|i: int| 0 <= i < a.finalized.len() implies #[trigger] has_double_accept(a.decisions, a.finalized[i]) by {
                if i == s.finalized.len() {
                    assert(accepted_by_both(a.decisions[kk], a.finalized[i]));
                } else {
                    let k = acceptance_witness(s, i);
                    lemma_with_record_keeps_acceptances(s, m, da, s.finalized[i], k);
                    assert(accepted_by_both(a.decisions[k], a.finalized[i]));
                }
            }
        }
        if !(da.accepted_by_company && da.accepted_by_group && !is_finalized(s, m)) {
            assert(a.finalized == s.finalized);
            assert forall|i: int| 0 <= i < a.finalized.len() implies #[trigger] has_double_accept(a.decisions, a.finalized[i]) by {
                let k = acceptance_witness(s, i);
                lemma_with_record_keeps_acceptances(s, m, da, s.finalized[i], k);
                assert(accepted_by_both(a.decisions[k], a.finalized[i]));
            }
        }
        assert(a.rejected == s.rejected);
        assert(one_final_per_group(a));
        assert(finals_doubly_accepted(a));
        assert(ledger_ok(a));
        // reject
        let dr = rejected_record(party, cur);
        let r = reject_spec(s, party, target).0;
        assert forall|i: int| 0 <= i < r.finalized.len() implies #[trigger] has_double_accept(r.decisions, r.finalized[i]) by {
            let fi = s.finalized[i];
            let k = acceptance_witness(s, i);
            lemma_with_record_keeps_acceptances(s, m, dr, fi, k);
            assert(r.finalized[i] == fi);
            assert(accepted_by_both(r.decisions[k], r.finalized[i]));
        }
        if !s.rejected.contains(pair_of(m)) {
            assert forall|i: int, j: int| 0 <= i < r.rejected.len() && 0 <= j < r.rejected.len() && i != j
                implies r.rejected[i] != r.rejected[j] by {
                if i == s.rejected.len() {
                    assert(r.rejected[i] == pair_of(m));
                    assert(r.rejected[j] == s.rejected[j]);
                } else if j == s.rejected.len() {
                    assert(r.rejected[j] == pair_of(m));
                    assert(r.rejected[i] == s.rejected[i]);
                }
            }
        }
        assert(r.finalized == s.finalized);
        assert(one_final_per_group(r));
        assert(finals_doubly_accepted(r));
        assert(r.rejected.no_duplicates());
        assert(ledger_ok(r));
    }
}

/// A rejected pair stays rejected whatever happens next (accepts, rejects,
/// closing and starting rounds), and no party is shown it again.
pub proof fn lemma_rejection_permanent(
    s: LedgerView,
    pair: PairView,
    party: PartyView,
    target: Option<Seq<char>>,
    viewer: PartyView,
)
    requires
        s.rejected.contains(pair),
    ensures
        accept_spec(s, party, target).0.rejected.contains(pair),
        reject_spec(s, party, target).0.rejected.contains(pair),
        start_round_spec(s).rejected.contains(pair),
        close_round_spec(s).rejected.contains(pair),
        forall|i: int|
            0 <= i < visible_spec(s, viewer).len() ==> pair_of(#[trigger] visible_spec(s, viewer)[i]) != pair,
{
    let r = reject_spec(s, party, target).0;
    if s.open && decision_target(s, party, target).is_some() {
        let m = decision_target(s, party, target).unwrap();
        if !s.rejected.contains(pair_of(m)) {
            let k = choose|k: int| 0 <= k < s.rejected.len() && s.rejected[k] == pair;
            assert(r.rejected[k] == pair);
        }
    }
    let base = crate::order::sorted_by(crate::allocate::allocation(s.roster), crate::order::SortKey::ProjectName);
    assert forall|i: int| 0 <= i < visible_spec(s, viewer).len() implies pair_of(#[trigger] visible_spec(s, viewer)[i]) != pair by {
        base.lemma_filter_pred(shown_pred(s, viewer), i);
    }
}

/// Rejecting twice with the same arguments: once the first call has barred
/// a pair, the second cannot act on that pair again, keeps every pair the
/// first call left rejected, and the rejected pairs stay free of repeats.
pub proof fn lemma_reject_twice(s: LedgerView, party: PartyView, target: Option<Seq<char>>)
    requires
        ledger_ok(s),
    ensures
        ({
            let (s1, ok1) = reject_spec(s, party, target);
            let (s2, ok2) = reject_spec(s1, party, target);
            &&& ok1 ==> s1.rejected.contains(pair_of(decision_target(s, party, target).unwrap()))
            &&& ok1 && ok2 ==> pair_of(decision_target(s1, party, target).unwrap()) != pair_of(
                decision_target(s, party, target).unwrap(),
            )
            &&& forall|p: PairView| s1.rejected.contains(p) ==> s2.rejected.contains(p)
            &&& s2.rejected.no_duplicates()
        }),
{
    let (s1, ok1) = reject_spec(s, party, target);
    lemma_ledger_invariants_kept(s, party, target);
    lemma_ledger_invariants_kept(s1, party, target);
    if ok1 {
        let m = decision_target(s, party, target).unwrap();
        if !s.rejected.contains(pair_of(m)) {
            assert(s1.rejected[s.rejected.len() as int] == pair_of(m));
        }
        assert(s1.rejected.contains(pair_of(m)));
        if s1.open && decision_target(s1, party, target).is_some() {
            lemma_target_is_shown(s1, party, target);
        }
    }
    assert forall|p: PairView| s1.rejected.contains(p) implies reject_spec(s1, party, target).0.rejected.contains(p) by {
        lemma_rejection_permanent(s1, p, party, target, party);
    }
}

/// A match that a party is shown is one of the allocation's tentative
/// matches, and passes the view filter.
pub proof fn lemma_visible_in_allocation(s: LedgerView, party: PartyView, m: MatchView)
    requires
        visible_spec(s, party).contains(m),
    ensures
        allocation(s.roster).contains(m),
        shown(s, party, m),
{
    let base = sorted_by(allocation(s.roster), SortKey::ProjectName);
    let v = visible_spec(s, party);
    let k = choose|k: int| 0 <= k < v.len() && v[k] == m;
    base.lemma_filter_pred(shown_pred(s, party), k);
    base.lemma_filter_contains_rev(shown_pred(s, party), m);
    lemma_sorted_by_members(allocation(s.roster), SortKey::ProjectName);
    let i = choose|i: int| 0 <= i < base.len() && base[i] == m;
    assert(allocation(s.roster).contains(base[i]));
}

/// With distinct group emails, a group that has rejected its tentative match
/// and rejects again gets `false`, and the second call changes nothing: the
/// allocation gives the group one entry, and that entry is now barred.
pub proof fn lemma_group_second_reject_fails(s: LedgerView, email: Seq<char>, target: Option<Seq<char>>)
    requires
        forall|i: int, j: int|
            0 <= i < j < s.roster.groups.len() ==> (#[trigger] s.roster.groups[i]).email
                != (#[trigger] s.roster.groups[j]).email,
    ensures
        reject_spec(s, PartyView::Group(email), target).1 ==> ({
            let s1 = reject_spec(s, PartyView::Group(email), target).0;
            reject_spec(s1, PartyView::Group(email), target) == (s1, false)
        }),
{
    let party = PartyView::Group(email);
    let (s1, ok1) = reject_spec(s, party, target);
    if ok1 {
        let m = decision_target(s, party, target).unwrap();
        lemma_target_is_shown(s, party, target);
        lemma_visible_in_allocation(s, party, m);
        assert(s1.rejected.contains(pair_of(m))) by {
            if !s.rejected.contains(pair_of(m)) {
                assert(s1.rejected[s.rejected.len() as int] == pair_of(m));
            }
        }
        if decision_target(s1, party, target).is_some() {
            let m2 = decision_target(s1, party, target).unwrap();
            lemma_target_is_shown(s1, party, target);
            lemma_visible_in_allocation(s1, party, m2);
            assert(s1.roster == s.roster);
            lemma_allocation_one_entry_per_group(s.roster);
            let al = allocation(s.roster);
            let i = choose|i: int| 0 <= i < al.len() && al[i] == m;
            let j = choose|j: int| 0 <= j < al.len() && al[j] == m2;
            assert(m.group_email == email && m2.group_email == email);
            if i < j {
                assert(al[i].group_email != al[j].group_email);
            } else if j < i {
                assert(al[j].group_email != al[i].group_email);
            }
            assert(m2 == m);
            assert(barred(s1, m2));
        }
    }
}

proof fn lemma_filter_keeps_distinct(v: Seq<MatchView>, f: spec_fn(MatchView) -> bool)
    requires
        groups_distinct(v),
    ensures
        groups_distinct(v.filter(f)),
    decreases v.len(),
{
    reveal(Seq::filter);
    if v.len() > 0 {
        let d = v.drop_last();
        assert forall|i: int, j: int| 0 <= i < j < d.len() implies (#[trigger] d[i]).group_email != (#[trigger] d[j]).group_email by {
            assert(v[i] == d[i] && v[j] == d[j]);
        }
        lemma_filter_keeps_distinct(d, f);
        let fd = d.filter(f);
        if f(v.last()) {
            let r = v.filter(f);
            assert forall|i: int, j: int| 0 <= i < j < r.len() implies (#[trigger] r[i]).group_email != (#[trigger] r[j]).group_email by {
                if j == r.len() - 1 {
                    assert(r[i] == fd[i]);
                    assert(fd.contains(fd[i]));
                    d.lemma_filter_contains_rev(f, fd[i]);
                    let k = choose|k: int| 0 <= k < d.len() && d[k] == fd[i];
                    assert(v[k] == fd[i]);
                    assert(r[j] == v[v.len() - 1]);
                } else {
                    assert(r[i] == fd[i] && r[j] == fd[j]);
                }
            }
        }
    }
}

/// With distinct group emails, a group is shown at most one tentative match.
pub proof fn lemma_group_sees_at_most_one(s: LedgerView, email: Seq<char>)
    requires
        forall|i: int, j: int|
            0 <= i < j < s.roster.groups.len() ==> (#[trigger] s.roster.groups[i]).email
                != (#[trigger] s.roster.groups[j]).email,
    ensures
        visible_spec(s, PartyView::Group(email)).len() <= 1,
{
    let party = PartyView::Group(email);
    let v = visible_spec(s, party);
    lemma_allocation_one_entry_per_group(s.roster);
    lemma_sorted_by_distinct(allocation(s.roster), SortKey::ProjectName);
    lemma_filter_keeps_distinct(sorted_by(allocation(s.roster), SortKey::ProjectName), shown_pred(s, party));
    if v.len() > 1 {
        assert(v.contains(v[0]) && v.contains(v[1]));
        lemma_visible_in_allocation(s, party, v[0]);
        lemma_visible_in_allocation(s, party, v[1]);
        assert(v[0].group_email != v[1].group_email);
    }
}

} // verus!
