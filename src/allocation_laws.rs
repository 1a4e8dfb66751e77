use vstd::prelude::*;
use crate::allocate::{
    ProposalState, Roster, allocation, extra_matches, final_assignment, free_projects,
    held_score, initial_state, lemma_proposal_step, lemma_worst_in_bounds, leftover_pass,
    match_of, prefs_of, proposal_discarded, proposal_measure, proposal_result,
    proposal_state_ok, proposal_step, run_proposals, score_of, slot_matches, unsorted_allocation,
    worst_in,
};
use crate::model::{MatchView, ProjectView, lemma_first_index_where, project_index};
use crate::order::{
    SortKey, groups_distinct, insert_sorted, is_sorted_by, key_lt, lemma_sorted_by_distinct,
    lemma_sorted_by_ordered, sorted_by,
};

verus! {

/// No group index sits in two slots.
pub open spec fn slots_distinct(hs: Seq<Seq<int>>) -> bool {
    forall|pa: int, ja: int, pb: int, jb: int|
        0 <= pa < hs.len() && 0 <= ja < hs[pa].len() && 0 <= pb < hs.len() && 0 <= jb < hs[pb].len()
            && #[trigger] hs[pa][ja] == #[trigger] hs[pb][jb] ==> pa == pb && ja == jb
}

/// What the proposal loop keeps true: every slot holder is marked matched
/// and sits in one slot only; the queue holds each unmatched group at most once.
pub open spec fn proposal_inv(c: Roster, s: ProposalState) -> bool {
    &&& proposal_state_ok(c, s)
    &&& slots_distinct(s.holders)
    &&& forall|p: int, j: int|
        0 <= p < s.holders.len() && 0 <= j < s.holders[p].len() ==> s.matched[#[trigger] s.holders[p][j]]
    &&& forall|i: int| 0 <= i < s.queue.len() ==> !s.matched[#[trigger] s.queue[i]]
    &&& s.queue.no_duplicates()
}

proof fn lemma_proposal_inv_step(c: Roster, s: ProposalState)
    requires
        proposal_inv(c, s),
        s.queue.len() > 0,
    ensures
        proposal_inv(c, proposal_step(c, s)),
{
    lemma_proposal_step(c, s);
    let t = proposal_step(c, s);
    let g = s.queue[0];
    let rest = s.queue.drop_first();
    let hs = s.holders;
    assert(!s.matched[g]);
    assert forall|i: int| 0 <= i < rest.len() implies rest[i] != g by {
        assert(s.queue[i + 1] == rest[i]);
    }
    assert forall|p: int, j: int| 0 <= p < hs.len() && 0 <= j < hs[p].len() implies hs[p][j] != g by {
        assert(s.matched[hs[p][j]]);
    }
    if s.next[g] >= prefs_of(c, g).len() {
        assert(t.queue == rest);
    } else {
        let k = s.next[g];
        let p = project_index(c.projects, prefs_of(c, g)[k]);
        lemma_first_index_where(c.projects, |q: ProjectView| q.id == prefs_of(c, g)[k], c.projects.len() as int);
        if proposal_discarded(c, g, p) {
            assert forall|i: int, j: int| 0 <= i < t.queue.len() && 0 <= j < t.queue.len() && i != j implies t.queue[i] != t.queue[j] by {
                if i < rest.len() && j < rest.len() {
                    assert(s.queue[i + 1] == t.queue[i] && s.queue[j + 1] == t.queue[j]);
                }
            }
            assert forall|i: int| 0 <= i < t.queue.len() implies !t.matched[#[trigger] t.queue[i]] by {
                if i < rest.len() {
                    assert(s.queue[i + 1] == t.queue[i]);
                }
            }
        } else if hs[p].len() < c.projects[p].capacity {
            let th = t.holders;
            assert forall|pa: int, ja: int, pb: int, jb: int|
                0 <= pa < th.len() && 0 <= ja < th[pa].len() && 0 <= pb < th.len() && 0 <= jb < th[pb].len()
                    && #[trigger] th[pa][ja] == #[trigger] th[pb][jb] implies pa == pb && ja == jb by {
                let new_a = pa == p && ja == hs[p].len();
                let new_b = pb == p && jb == hs[p].len();
                if !new_a {
                    assert(th[pa][ja] == hs[pa][ja]);
                }
                if !new_b {
                    assert(th[pb][jb] == hs[pb][jb]);
                }
            }
            assert forall|q: int, j: int| 0 <= q < th.len() && 0 <= j < th[q].len() implies t.matched[#[trigger] th[q][j]] by {
                if !(q == p && j == hs[p].len()) {
                    assert(th[q][j] == hs[q][j]);
                    assert(s.matched[hs[q][j]]);
                }
            }
            assert forall|i: int| 0 <= i < t.queue.len() implies !t.matched[#[trigger] t.queue[i]] by {
                assert(s.queue[i + 1] == t.queue[i]);
            }
            assert forall|i: int, j: int| 0 <= i < t.queue.len() && 0 <= j < t.queue.len() && i != j implies t.queue[i] != t.queue[j] by {
                assert(s.queue[i + 1] == t.queue[i] && s.queue[j + 1] == t.queue[j]);
            }
        } else {
            lemma_worst_in_bounds(c, p, hs[p], hs[p].len() as int);
            let w = worst_in(c, p, hs[p], hs[p].len() as int);
            let h = hs[p][w];
            if score_of(c, p, g).unwrap() < held_score(c, p, h) {
                let th = t.holders;
                assert(s.matched[h]);
                assert forall|i: int| 0 <= i < rest.len() implies rest[i] != h by {
                    assert(s.queue[i + 1] == rest[i]);
                    assert(!s.matched[s.queue[i + 1]]);
                }
                assert forall|pa: int, ja: int, pb: int, jb: int|
                    0 <= pa < th.len() && 0 <= ja < th[pa].len() && 0 <= pb < th.len() && 0 <= jb < th[pb].len()
                        && #[trigger] th[pa][ja] == #[trigger] th[pb][jb] implies pa == pb && ja == jb by {
                    let new_a = pa == p && ja == w;
                    let new_b = pb == p && jb == w;
                    if !new_a {
                        assert(th[pa][ja] == hs[pa][ja]);
                    }
                    if !new_b {
                        assert(th[pb][jb] == hs[pb][jb]);
                    }
                }
                assert forall|q: int, j: int| 0 <= q < th.len() && 0 <= j < th[q].len() implies t.matched[#[trigger] th[q][j]] by {
                    if !(q == p && j == w) {
                        assert(th[q][j] == hs[q][j]);
                        assert(s.matched[hs[q][j]]);
                        assert(hs[q][j] != h);
                    }
                }
                assert forall|i: int| 0 <= i < t.queue.len() implies !t.matched[#[trigger] t.queue[i]] by {
                    if i < rest.len() {
                        assert(s.queue[i + 1] == t.queue[i]);
                    }
                }
                assert forall|i: int, j: int| 0 <= i < t.queue.len() && 0 <= j < t.queue.len() && i != j implies t.queue[i] != t.queue[j] by {
                    if i < rest.len() && j < rest.len() {
                        assert(s.queue[i + 1] == t.queue[i] && s.queue[j + 1] == t.queue[j]);
                    }
                }
            } else {
                assert forall|i: int, j: int| 0 <= i < t.queue.len() && 0 <= j < t.queue.len() && i != j implies t.queue[i] != t.queue[j] by {
                    if i < rest.len() && j < rest.len() {
                        assert(s.queue[i + 1] == t.queue[i] && s.queue[j + 1] == t.queue[j]);
                    }
                }
                assert forall|i: int| 0 <= i < t.queue.len() implies !t.matched[#[trigger] t.queue[i]] by {
                    if i < rest.len() {
                        assert(s.queue[i + 1] == t.queue[i]);
                    }
                }
            }
        }
    }
}

proof fn lemma_proposal_inv_run(c: Roster, s: ProposalState)
    requires
        proposal_inv(c, s),
    ensures
        proposal_inv(c, run_proposals(c, s)),
    decreases proposal_measure(c, s),
{
    if s.queue.len() > 0 {
        lemma_proposal_step(c, s);
        lemma_proposal_inv_step(c, s);
        lemma_proposal_inv_run(c, proposal_step(c, s));
    }
}

/// The proposal loop gives each group at most one slot: no group index
/// occupies two slots, of one project or of two, when the loop ends.
pub proof fn lemma_main_loop_one_slot_per_group(c: Roster)
    ensures
        slots_distinct(proposal_result(c).holders),
        forall|p: int, j: int|
            0 <= p < proposal_result(c).holders.len() && 0 <= j < proposal_result(c).holders[p].len()
                ==> proposal_result(c).matched[#[trigger] proposal_result(c).holders[p][j]],
{
    let s = initial_state(c);
    assert(proposal_inv(c, s));
    lemma_proposal_inv_run(c, s);
}

/// Allocation depends on its inputs alone: equal inputs give equal lists,
/// and every list it gives is in order of group email.
pub proof fn lemma_allocation_deterministic(c1: Roster, c2: Roster)
    requires
        c1 == c2,
    ensures
        allocation(c1) == allocation(c2),
        is_sorted_by(allocation(c1), SortKey::GroupEmail),
{
    if c1.groups.len() > 0 && c1.projects.len() > 0 {
        lemma_sorted_by_ordered(unsorted_allocation(c1), SortKey::GroupEmail);
    }
}

/// Group index `g` sits in some slot.
pub open spec fn in_slot(hs: Seq<Seq<int>>, g: int) -> bool {
    exists|p: int, j: int| 0 <= p < hs.len() && 0 <= j < hs[p].len() && #[trigger] hs[p][j] == g
}

/// Every group marked matched sits in some slot.
pub open spec fn matched_held(s: ProposalState) -> bool {
    forall|g: int| 0 <= g < s.matched.len() && #[trigger] s.matched[g] ==> in_slot(s.holders, g)
}

proof fn lemma_matched_held_step(c: Roster, s: ProposalState)
    requires
        proposal_inv(c, s),
        matched_held(s),
        s.queue.len() > 0,
    ensures
        matched_held(proposal_step(c, s)),
{
    lemma_proposal_step(c, s);
    let t = proposal_step(c, s);
    let g = s.queue[0];
    let hs = s.holders;
    if s.next[g] < prefs_of(c, g).len() {
        let k = s.next[g];
        let p = project_index(c.projects, prefs_of(c, g)[k]);
        lemma_first_index_where(c.projects, |q: ProjectView| q.id == prefs_of(c, g)[k], c.projects.len() as int);
        if !proposal_discarded(c, g, p) {
            if hs[p].len() < c.projects[p].capacity {
                assert forall|x: int| 0 <= x < t.matched.len() && #[trigger] t.matched[x] implies in_slot(t.holders, x) by {
                    if x == g {
                        assert(t.holders[p][hs[p].len() as int] == g);
                    } else {
                        assert(s.matched[x]);
                        let (pa, ja) = choose|pa: int, ja: int| 0 <= pa < hs.len() && 0 <= ja < hs[pa].len() && #[trigger] hs[pa][ja] == x;
                        assert(t.holders[pa][ja] == x);
                    }
                }
            } else {
                lemma_worst_in_bounds(c, p, hs[p], hs[p].len() as int);
                let w = worst_in(c, p, hs[p], hs[p].len() as int);
                let h = hs[p][w];
                if score_of(c, p, g).unwrap() < held_score(c, p, h) {
                    assert forall|x: int| 0 <= x < t.matched.len() && #[trigger] t.matched[x] implies in_slot(t.holders, x) by {
                        if x == g {
                            assert(t.holders[p][w] == g);
                        } else {
                            assert(x != h && s.matched[x]);
                            let (pa, ja) = choose|pa: int, ja: int| 0 <= pa < hs.len() && 0 <= ja < hs[pa].len() && #[trigger] hs[pa][ja] == x;
                            assert(!(pa == p && ja == w));
                            assert(t.holders[pa][ja] == x);
                        }
                    }
                }
            }
        }
    }
}

proof fn lemma_run_invariants(c: Roster, s: ProposalState)
    requires
        proposal_inv(c, s),
        matched_held(s),
    ensures
        proposal_inv(c, run_proposals(c, s)),
        matched_held(run_proposals(c, s)),
    decreases proposal_measure(c, s),
{
    if s.queue.len() > 0 {
        lemma_proposal_step(c, s);
        lemma_proposal_inv_step(c, s);
        lemma_matched_held_step(c, s);
        lemma_run_invariants(c, proposal_step(c, s));
    }
}

proof fn lemma_free_projects_bounds(hs: Seq<Seq<int>>, n: int)
    requires
        0 <= n <= hs.len(),
    ensures
        forall|i: int| 0 <= i < free_projects(hs, n).len() ==> 0 <= #[trigger] free_projects(hs, n)[i] < n,
    decreases n,
{
    if n > 0 {
        lemma_free_projects_bounds(hs, n - 1);
        let f = free_projects(hs, n - 1);
        assert forall|i: int| 0 <= i < free_projects(hs, n).len() implies 0 <= #[trigger] free_projects(hs, n)[i] < n by {
            if i < f.len() {
                assert(free_projects(hs, n)[i] == f[i]);
            }
        }
    }
}

/// After the pass over the first `n` groups, each of them that the loop left
/// unmatched has a slot or an extra assignment, and no slot of the loop is lost.
proof fn lemma_leftover_covers(c: Roster, r: ProposalState, free: Seq<int>, n: int)
    requires
        proposal_state_ok(c, r),
        0 <= n <= c.groups.len(),
        forall|i: int| 0 <= i < free.len() ==> 0 <= #[trigger] free[i] < r.holders.len(),
    ensures
        leftover_pass(c, r, free, n).holders.len() == r.holders.len(),
        0 <= leftover_pass(c, r, free, n).used <= free.len(),
        forall|g: int| 0 <= g < r.matched.len() && in_slot(r.holders, g) ==> in_slot(leftover_pass(c, r, free, n).holders, g),
        forall|g: int|
            0 <= g < n && !#[trigger] r.matched[g] ==> in_slot(leftover_pass(c, r, free, n).holders, g) || exists|e: int|
                0 <= e < leftover_pass(c, r, free, n).extras.len() && (#[trigger] leftover_pass(c, r, free, n).extras[e]).0 == g,
    decreases n,
{
    if n > 0 {
        lemma_leftover_covers(c, r, free, n - 1);
        let a = leftover_pass(c, r, free, n - 1);
        let b = leftover_pass(c, r, free, n);
        if !r.matched[n - 1] {
            if a.used < free.len() {
                let p = free[a.used];
                assert forall|x: int| in_slot(a.holders, x) implies in_slot(b.holders, x) by {
                    let (pa, ja) = choose|pa: int, ja: int| 0 <= pa < a.holders.len() && 0 <= ja < a.holders[pa].len() && #[trigger] a.holders[pa][ja] == x;
                    assert(b.holders[pa][ja] == x);
                }
                assert(b.holders[p][a.holders[p].len() as int] == n - 1);
                assert(b.extras == a.extras);
                assert forall|g: int| 0 <= g < n && !#[trigger] r.matched[g] && !in_slot(b.holders, g) implies exists|e: int|
                    0 <= e < b.extras.len() && (#[trigger] b.extras[e]).0 == g by {
                    if g < n - 1 {
                        assert(!in_slot(a.holders, g));
                    }
                }
            } else {
                assert(b.extras[a.extras.len() as int].0 == n - 1);
                assert forall|g: int| 0 <= g < n - 1 && !#[trigger] r.matched[g] && !in_slot(b.holders, g) implies exists|e: int|
                    0 <= e < b.extras.len() && (#[trigger] b.extras[e]).0 == g by {
                    let e = choose|e: int| 0 <= e < a.extras.len() && (#[trigger] a.extras[e]).0 == g;
                    assert(b.extras[e] == a.extras[e]);
                }
            }
        }
    }
}

proof fn lemma_slot_matches_contains(c: Roster, hs: Seq<Seq<int>>, n: int, p: int, j: int)
    requires
        0 <= p < n <= hs.len(),
        0 <= j < hs[p].len(),
    ensures
        slot_matches(c, hs, n).contains(match_of(c, hs[p][j], p)),
    decreases n,
{
    let prev = slot_matches(c, hs, n - 1);
    if p == n - 1 {
        assert(slot_matches(c, hs, n)[prev.len() + j] == match_of(c, hs[p][j], p));
    } else {
        lemma_slot_matches_contains(c, hs, n - 1, p, j);
        let i = choose|i: int| 0 <= i < prev.len() && prev[i] == match_of(c, hs[p][j], p);
        assert(slot_matches(c, hs, n)[i] == prev[i]);
    }
}

proof fn lemma_insert_sorted_keeps(t: Seq<MatchView>, x: MatchView, by: SortKey)
    ensures
        insert_sorted(t, x, by).contains(x),
        forall|y: MatchView| t.contains(y) ==> insert_sorted(t, x, by).contains(y),
    decreases t.len(),
{
    let r = insert_sorted(t, x, by);
    if t.len() == 0 {
        assert(r[0] == x);
    } else if key_lt(x, t.last(), by) {
        let d = t.drop_last();
        lemma_insert_sorted_keeps(d, x, by);
        let id = insert_sorted(d, x, by);
        let i = choose|i: int| 0 <= i < id.len() && id[i] == x;
        assert(r[i] == x);
        assert forall|y: MatchView| t.contains(y) implies r.contains(y) by {
            let k = choose|k: int| 0 <= k < t.len() && t[k] == y;
            if k == t.len() - 1 {
                assert(r[r.len() - 1] == y);
            } else {
                assert(d[k] == y);
                assert(d.contains(y));
                assert(id.contains(y));
                let m = choose|m: int| 0 <= m < id.len() && id[m] == y;
                assert(r[m] == y);
            }
        }
    } else {
        assert(r[t.len() as int] == x);
        assert forall|y: MatchView| t.contains(y) implies r.contains(y) by {
            let k = choose|k: int| 0 <= k < t.len() && t[k] == y;
            assert(r[k] == y);
        }
    }
}

proof fn lemma_sorted_by_keeps(s: Seq<MatchView>, by: SortKey)
    ensures
        forall|y: MatchView| s.contains(y) ==> sorted_by(s, by).contains(y),
    decreases s.len(),
{
    if s.len() > 0 {
        let d = s.drop_last();
        lemma_sorted_by_keeps(d, by);
        lemma_insert_sorted_keeps(sorted_by(d, by), s.last(), by);
        assert forall|y: MatchView| s.contains(y) implies sorted_by(s, by).contains(y) by {
            let k = choose|k: int| 0 <= k < s.len() && s[k] == y;
            if k < s.len() - 1 {
                assert(d[k] == y);
                assert(d.contains(y));
                assert(sorted_by(d, by).contains(y));
            } else {
                assert(y == s.last());
            }
        }
    }
}

/// Whenever there is a project, every group is assigned one: the proposal
/// loop gives it a slot, or the pass over leftover groups gives it a free
/// project or its fallback.
pub proof fn lemma_every_group_assigned(c: Roster, g: int)
    requires
        0 <= g < c.groups.len(),
        c.projects.len() > 0,
    ensures
        exists|i: int| 0 <= i < allocation(c).len() && #[trigger] allocation(c)[i].group_email == c.groups[g].email,
{
    let s0 = initial_state(c);
    assert(proposal_inv(c, s0));
    assert(matched_held(s0));
    lemma_run_invariants(c, s0);
    let r = proposal_result(c);
    let np = c.projects.len() as int;
    let free = free_projects(r.holders, np);
    lemma_free_projects_bounds(r.holders, np);
    lemma_leftover_covers(c, r, free, c.groups.len() as int);
    let a = final_assignment(c);
    let held = slot_matches(c, a.holders, np);
    let extra = extra_matches(c, a.extras);
    let u = unsorted_allocation(c);
    let target = if r.matched[g] || in_slot(a.holders, g) {
        let (p, j) = choose|p: int, j: int| 0 <= p < a.holders.len() && 0 <= j < a.holders[p].len() && #[trigger] a.holders[p][j] == g;
        lemma_slot_matches_contains(c, a.holders, np, p, j);
        let i = choose|i: int| 0 <= i < held.len() && held[i] == match_of(c, g, p);
        assert(u[i] == held[i]);
        match_of(c, g, p)
    } else {
        let e = choose|e: int| 0 <= e < a.extras.len() && (#[trigger] a.extras[e]).0 == g;
        assert(u[held.len() + e] == extra[e]);
        extra[e]
    };
    assert(u.contains(target));
    lemma_sorted_by_keeps(u, SortKey::GroupEmail);
    let i = choose|i: int| 0 <= i < allocation(c).len() && allocation(c)[i] == target;
    assert(allocation(c)[i].group_email == c.groups[g].email);
}

/// Group index `x` sits in a slot of one of the first `n` projects.
pub open spec fn in_first_slots(hs: Seq<Seq<int>>, n: int, x: int) -> bool {
    exists|p: int, j: int| 0 <= p < n && 0 <= j < hs[p].len() && #[trigger] hs[p][j] == x
}

/// The group indices of the slots of the first `n` projects, project by project.
pub open spec fn slot_groups(hs: Seq<Seq<int>>, n: int) -> Seq<int>
    decreases n,
{
    if n <= 0 {
        Seq::empty()
    } else {
        slot_groups(hs, n - 1) + hs[n - 1]
    }
}

proof fn lemma_slot_groups(c: Roster, hs: Seq<Seq<int>>, n: int)
    requires
        0 <= n <= hs.len(),
    ensures
        slot_matches(c, hs, n).len() == slot_groups(hs, n).len(),
        forall|i: int|
            0 <= i < slot_groups(hs, n).len() ==> (#[trigger] slot_matches(c, hs, n)[i]).group_email
                == c.groups[slot_groups(hs, n)[i]].email,
        forall|i: int| 0 <= i < slot_groups(hs, n).len() ==> in_first_slots(hs, n, #[trigger] slot_groups(hs, n)[i]),
        slots_distinct(hs) ==> slot_groups(hs, n).no_duplicates(),
    decreases n,
{
    if n > 0 {
        lemma_slot_groups(c, hs, n - 1);
        let pg = slot_groups(hs, n - 1);
        let g = slot_groups(hs, n);
        let m = slot_matches(c, hs, n);
        assert forall|i: int| 0 <= i < g.len() implies (#[trigger] m[i]).group_email == c.groups[g[i]].email by {
            if i >= pg.len() {
                assert(g[i] == hs[n - 1][i - pg.len()]);
            } else {
                assert(g[i] == pg[i]);
                assert(m[i] == slot_matches(c, hs, n - 1)[i]);
            }
        }
        assert forall|i: int| 0 <= i < g.len() implies in_first_slots(hs, n, #[trigger] g[i]) by {
            if i >= pg.len() {
                assert(hs[n - 1][i - pg.len()] == g[i]);
            } else {
                assert(g[i] == pg[i]);
                assert(in_first_slots(hs, n - 1, pg[i]));
                let (pa, ja) = choose|pa: int, ja: int| 0 <= pa < n - 1 && 0 <= ja < hs[pa].len() && #[trigger] hs[pa][ja] == pg[i];
                assert(hs[pa][ja] == g[i]);
            }
        }
        if slots_distinct(hs) {
            assert forall|i: int, j: int| 0 <= i < g.len() && 0 <= j < g.len() && i != j implies g[i] != g[j] by {
                if i < pg.len() && j < pg.len() {
                    assert(g[i] == pg[i] && g[j] == pg[j]);
                } else if i >= pg.len() && j >= pg.len() {
                    let (ja, jb) = (i - pg.len(), j - pg.len());
                    assert(g[i] == hs[n - 1][ja] && g[j] == hs[n - 1][jb]);
                } else if i < pg.len() {
                    assert(g[i] == pg[i]);
                    assert(in_first_slots(hs, n - 1, pg[i]));
                    let (pa, ja) = choose|pa: int, ja: int| 0 <= pa < n - 1 && 0 <= ja < hs[pa].len() && #[trigger] hs[pa][ja] == pg[i];
                    assert(g[j] == hs[n - 1][j - pg.len()]);
                    assert(hs[pa][ja] == pg[i]);
                } else {
                    assert(g[j] == pg[j]);
                    assert(in_first_slots(hs, n - 1, pg[j]));
                    let (pa, ja) = choose|pa: int, ja: int| 0 <= pa < n - 1 && 0 <= ja < hs[pa].len() && #[trigger] hs[pa][ja] == pg[j];
                    assert(g[i] == hs[n - 1][i - pg.len()]);
                    assert(hs[pa][ja] == pg[j]);
                }
            }
        }
    }
}

/// The pass over leftover groups places each of them once: its slots stay
/// distinct, and each extra assignment is for a group that has no slot and
/// no other extra assignment.
proof fn lemma_leftover_unique(c: Roster, r: ProposalState, free: Seq<int>, n: int)
    requires
        proposal_state_ok(c, r),
        slots_distinct(r.holders),
        forall|p: int, j: int|
            0 <= p < r.holders.len() && 0 <= j < r.holders[p].len() ==> r.matched[#[trigger] r.holders[p][j]],
        0 <= n <= c.groups.len(),
        forall|i: int| 0 <= i < free.len() ==> 0 <= #[trigger] free[i] < r.holders.len(),
    ensures
        leftover_pass(c, r, free, n).holders.len() == r.holders.len(),
        slots_distinct(leftover_pass(c, r, free, n).holders),
        forall|p: int, j: int|
            0 <= p < leftover_pass(c, r, free, n).holders.len() && 0 <= j < leftover_pass(c, r, free, n).holders[p].len()
                ==> ({
                let v = #[trigger] leftover_pass(c, r, free, n).holders[p][j];
                0 <= v < c.groups.len() && (r.matched[v] || v < n)
            }),
        forall|k: int|
            0 <= k < leftover_pass(c, r, free, n).extras.len() ==> ({
                let e = #[trigger] leftover_pass(c, r, free, n).extras[k];
                0 <= e.0 < n && !in_slot(leftover_pass(c, r, free, n).holders, e.0)
            }),
        forall|k: int, l: int|
            0 <= k < l < leftover_pass(c, r, free, n).extras.len() ==> (#[trigger] leftover_pass(c, r, free, n).extras[k]).0
                != (#[trigger] leftover_pass(c, r, free, n).extras[l]).0,
        0 <= leftover_pass(c, r, free, n).used <= free.len(),
    decreases n,
{
    if n > 0 {
        lemma_leftover_unique(c, r, free, n - 1);
        let a = leftover_pass(c, r, free, n - 1);
        let b = leftover_pass(c, r, free, n);
        let g = n - 1;
        if !r.matched[g] {
            assert(!in_slot(a.holders, g)) by {
                if in_slot(a.holders, g) {
                    let (pa, ja) = choose|pa: int, ja: int| 0 <= pa < a.holders.len() && 0 <= ja < a.holders[pa].len() && #[trigger] a.holders[pa][ja] == g;
                    assert(a.holders[pa][ja] == g);
                }
            }
            if a.used < free.len() {
                let p = free[a.used];
                let hb = b.holders;
                let ha = a.holders;
                assert forall|pa: int, ja: int, pb: int, jb: int|
                    0 <= pa < hb.len() && 0 <= ja < hb[pa].len() && 0 <= pb < hb.len() && 0 <= jb < hb[pb].len()
                        && #[trigger] hb[pa][ja] == #[trigger] hb[pb][jb] implies pa == pb && ja == jb by {
                    let new_a = pa == p && ja == ha[p].len();
                    let new_b = pb == p && jb == ha[p].len();
                    if !new_a {
                        assert(hb[pa][ja] == ha[pa][ja]);
                    }
                    if !new_b {
                        assert(hb[pb][jb] == ha[pb][jb]);
                    }
                }
                assert forall|pa: int, ja: int| 0 <= pa < hb.len() && 0 <= ja < hb[pa].len() implies ({
                    let v = #[trigger] hb[pa][ja];
                    0 <= v < c.groups.len() && (r.matched[v] || v < n)
                }) by {
                    if !(pa == p && ja == ha[p].len()) {
                        assert(hb[pa][ja] == ha[pa][ja]);
                    }
                }
                assert forall|k: int| 0 <= k < b.extras.len() implies ({
                    let e = #[trigger] b.extras[k];
                    0 <= e.0 < n && !in_slot(b.holders, e.0)
                }) by {
                    let e0 = b.extras[k].0;
                    assert(a.extras[k] == b.extras[k]);
                    if in_slot(hb, e0) {
                        let (pa, ja) = choose|pa: int, ja: int| 0 <= pa < hb.len() && 0 <= ja < hb[pa].len() && #[trigger] hb[pa][ja] == e0;
                        if !(pa == p && ja == ha[p].len()) {
                            assert(ha[pa][ja] == e0);
                        }
                    }
                }
            } else {
                assert forall|k: int| 0 <= k < b.extras.len() implies ({
                    let e = #[trigger] b.extras[k];
                    0 <= e.0 < n && !in_slot(b.holders, e.0)
                }) by {
                    if k < a.extras.len() {
                        assert(a.extras[k] == b.extras[k]);
                    }
                }
                assert forall|k: int, l: int| 0 <= k < l < b.extras.len() implies (#[trigger] b.extras[k]).0 != (#[trigger] b.extras[l]).0 by {
                    assert(a.extras[k] == b.extras[k]);
                    if l < a.extras.len() {
                        assert(a.extras[l] == b.extras[l]);
                    }
                }
            }
        }
    }
}

/// When group emails are distinct, no group email appears twice in the
/// allocation: each group gets one slot in the proposal loop, or one place
/// in the pass over leftover groups, never both.
pub proof fn lemma_allocation_one_entry_per_group(c: Roster)
    requires
        forall|i: int, j: int| 0 <= i < j < c.groups.len() ==> (#[trigger] c.groups[i]).email != (#[trigger] c.groups[j]).email,
    ensures
        groups_distinct(allocation(c)),
{
    if c.groups.len() > 0 && c.projects.len() > 0 {
        let s0 = initial_state(c);
        assert(proposal_inv(c, s0));
        assert(matched_held(s0));
        lemma_run_invariants(c, s0);
        let r = proposal_result(c);
        let np = c.projects.len() as int;
        let free = free_projects(r.holders, np);
        lemma_free_projects_bounds(r.holders, np);
        lemma_leftover_unique(c, r, free, c.groups.len() as int);
        let a = final_assignment(c);
        lemma_slot_groups(c, a.holders, np);
        let sg = slot_groups(a.holders, np);
        let held = slot_matches(c, a.holders, np);
        let extra = extra_matches(c, a.extras);
        let u = unsorted_allocation(c);
        // The group index behind each entry.
        let gi = |i: int| if i < held.len() { sg[i] } else { a.extras[i - held.len()].0 };
        assert forall|i: int| 0 <= i < u.len() implies 0 <= #[trigger] gi(i) < c.groups.len() && u[i].group_email == c.groups[gi(i)].email by {
            if i < held.len() {
                assert(u[i] == held[i]);
                assert(in_first_slots(a.holders, np, sg[i]));
                let (p, j) = choose|p: int, j: int| 0 <= p < np && 0 <= j < a.holders[p].len() && #[trigger] a.holders[p][j] == sg[i];
                assert(a.holders[p][j] == sg[i]);
            } else {
                assert(u[i] == extra[i - held.len()]);
                let e = a.extras[i - held.len()];
            }
        }
        assert forall|i: int, j: int| 0 <= i < j < u.len() implies (#[trigger] u[i]).group_email != (#[trigger] u[j]).group_email by {
            assert(0 <= gi(i) < c.groups.len() && u[i].group_email == c.groups[gi(i)].email);
            assert(0 <= gi(j) < c.groups.len() && u[j].group_email == c.groups[gi(j)].email);
            if j < held.len() {
                assert(sg[i] != sg[j]);
            } else if i >= held.len() {
                let (k, l) = (i - held.len(), j - held.len());
                assert(a.extras[k].0 != a.extras[l].0);
            } else {
                let e0 = a.extras[j - held.len()].0;
                assert(!in_slot(a.holders, e0));
                assert(in_first_slots(a.holders, np, sg[i]));
                let (p, q) = choose|p: int, q: int| 0 <= p < np && 0 <= q < a.holders[p].len() && #[trigger] a.holders[p][q] == sg[i];
                assert(a.holders[p][q] == sg[i]);
            }
            if gi(i) < gi(j) {
                assert(c.groups[gi(i)].email != c.groups[gi(j)].email);
            } else {
                assert(c.groups[gi(j)].email != c.groups[gi(i)].email);
            }
        }
        lemma_sorted_by_distinct(u, SortKey::GroupEmail);
    }
}

} // verus!
