use vstd::prelude::*;
use crate::model::{MatchResult, MatchView, match_views};
use crate::text::{lemma_bytes_le_transitive, lemma_bytes_lt_asymmetric, text_less, text_lt};

verus! {

/// Field by which a list of matches is put in order.
#[derive(Clone, Copy, PartialEq, Eq, Structural)]
pub enum SortKey {
    GroupEmail,
    ProjectName,
}

pub open spec fn sort_key(m: MatchView, by: SortKey) -> Seq<char> {
    match by {
        SortKey::GroupEmail => m.group_email,
        SortKey::ProjectName => m.project_name,
    }
}

pub open spec fn key_lt(a: MatchView, b: MatchView, by: SortKey) -> bool {
    text_lt(sort_key(a, by), sort_key(b, by))
}

/// `s` with `x` put after every entry that does not come after it.
pub open spec fn insert_sorted(s: Seq<MatchView>, x: MatchView, by: SortKey) -> Seq<MatchView>
    decreases s.len(),
{
    if s.len() == 0 {
        seq![x]
    } else if key_lt(x, s.last(), by) {
        insert_sorted(s.drop_last(), x, by).push(s.last())
    } else {
        s.push(x)
    }
}

/// Stable insertion sort of `s` by the key `by`.
pub open spec fn sorted_by(s: Seq<MatchView>, by: SortKey) -> Seq<MatchView>
    decreases s.len(),
{
    if s.len() == 0 {
        s
    } else {
        insert_sorted(sorted_by(s.drop_last(), by), s.last(), by)
    }
}

/// No entry comes after a later one.
pub open spec fn is_sorted_by(s: Seq<MatchView>, by: SortKey) -> bool {
    forall|i: int, j: int| 0 <= i < j < s.len() ==> !key_lt(#[trigger] s[j], #[trigger] s[i], by)
}

impl MatchResult {
    /// A field-by-field copy.
    pub fn copied(&self) -> (r: MatchResult)
        ensures
            r@ == self@,
    {
        MatchResult {
            group_email: self.group_email.clone(),
            project_id: self.project_id.clone(),
            project_name: self.project_name.clone(),
            company_email: self.company_email.clone(),
        }
    }
}

fn key_less(a: &MatchResult, b: &MatchResult, by: SortKey) -> (r: bool)
    ensures
        r == key_lt(a@, b@, by),
{
    match by {
        SortKey::GroupEmail => text_less(&a.group_email, &b.group_email),
        SortKey::ProjectName => text_less(&a.project_name, &b.project_name),
    }
}

fn insert_in_order(out: &mut Vec<MatchResult>, x: MatchResult, by: SortKey)
    ensures
        match_views(final(out)@) == insert_sorted(match_views(old(out)@), x@, by),
{
    let ghost o = match_views(out@);
    let mut j: usize = out.len();
    assert(o.take(j as int) =~= o);
    assert(o.skip(j as int) =~= Seq::<MatchView>::empty());
    assert(insert_sorted(o, x@, by) =~= insert_sorted(o.take(j as int), x@, by) + o.skip(j as int));
    while j > 0 && key_less(&x, &out[j - 1], by)
        invariant
            j <= out.len(),
            o == match_views(out@),
            insert_sorted(o, x@, by) == insert_sorted(o.take(j as int), x@, by) + o.skip(j as int),
        decreases j,
    {
        assert(o.take(j as int).drop_last() =~= o.take(j - 1));
        assert(o.take(j as int).last() == o[j - 1]);
        assert(insert_sorted(o.take(j - 1), x@, by).push(o[j - 1]) + o.skip(j as int)
            =~= insert_sorted(o.take(j - 1), x@, by) + o.skip(j - 1));
        j = j - 1;
    }
    if j > 0 {
        assert(o.take(j as int).last() == o[j - 1]);
    }
    out.insert(j, x);
    assert(match_views(out@) =~= o.take(j as int).push(x@) + o.skip(j as int));
}

/// Sorts `v` by the key `by`, keeping the given order among equal keys.
pub fn sort_matches(v: &Vec<MatchResult>, by: SortKey) -> (r: Vec<MatchResult>)
    ensures
        match_views(r@) == sorted_by(match_views(v@), by),
{
    let ghost s = match_views(v@);
    let mut out: Vec<MatchResult> = Vec::new();
    let mut i: usize = 0;
    assert(s.take(0) =~= Seq::<MatchView>::empty());
    while i < v.len()
        invariant
            i <= v.len(),
            s == match_views(v@),
            match_views(out@) == sorted_by(s.take(i as int), by),
        decreases v.len() - i,
    {
        assert(s.take(i + 1).drop_last() =~= s.take(i as int));
        insert_in_order(&mut out, v[i].copied(), by);
        i = i + 1;
    }
    assert(s.take(v.len() as int) =~= s);
    out
}

/// Inserting adds `x` and keeps every other entry.
pub proof fn lemma_insert_sorted_members(s: Seq<MatchView>, x: MatchView, by: SortKey)
    ensures
        insert_sorted(s, x, by).len() == s.len() + 1,
        forall|i: int|
            0 <= i < insert_sorted(s, x, by).len() ==> #[trigger] insert_sorted(s, x, by)[i] == x
                || s.contains(insert_sorted(s, x, by)[i]),
    decreases s.len(),
{
    if s.len() > 0 && key_lt(x, s.last(), by) {
        let t = s.drop_last();
        lemma_insert_sorted_members(t, x, by);
        let r = insert_sorted(s, x, by);
        assert forall|i: int| 0 <= i < r.len() implies #[trigger] r[i] == x || s.contains(r[i]) by {
            if i == r.len() - 1 {
                assert(s[s.len() - 1] == r[i]);
            } else {
                assert(insert_sorted(t, x, by)[i] == r[i]);
                if r[i] != x {
                    let j = choose|j: int| 0 <= j < t.len() && t[j] == r[i];
                    assert(s[j] == r[i]);
                }
            }
        }
    } else if s.len() > 0 {
        let r = insert_sorted(s, x, by);
        assert forall|i: int| 0 <= i < r.len() implies #[trigger] r[i] == x || s.contains(r[i]) by {
            if i < s.len() {
                assert(s[i] == r[i]);
            }
        }
    }
}

/// Inserting into an ordered list keeps it ordered.
pub proof fn lemma_insert_sorted_ordered(s: Seq<MatchView>, x: MatchView, by: SortKey)
    requires
        is_sorted_by(s, by),
    ensures
        is_sorted_by(insert_sorted(s, x, by), by),
    decreases s.len(),
{
    let r = insert_sorted(s, x, by);
    if s.len() == 0 {
    } else if key_lt(x, s.last(), by) {
        let t = s.drop_last();
        let last = s.last();
        assert(is_sorted_by(t, by));
        lemma_insert_sorted_ordered(t, x, by);
        lemma_insert_sorted_members(t, x, by);
        let it = insert_sorted(t, x, by);
        assert forall|i: int, j: int| 0 <= i < j < r.len() implies !key_lt(#[trigger] r[j], #[trigger] r[i], by) by {
            if j == r.len() - 1 {
                assert(r[j] == last);
                assert(r[i] == it[i]);
                if it[i] == x {
                    lemma_bytes_lt_asymmetric(
                        vstd::utf8::encode_utf8(sort_key(x, by)),
                        vstd::utf8::encode_utf8(sort_key(last, by)),
                    );
                } else {
                    let k = choose|k: int| 0 <= k < t.len() && t[k] == it[i];
                    assert(s[k] == it[i]);
                    assert(s[s.len() - 1] == last);
                }
            } else {
                assert(r[i] == it[i] && r[j] == it[j]);
            }
        }
    } else {
        let last = s.last();
        assert forall|i: int, j: int| 0 <= i < j < r.len() implies !key_lt(#[trigger] r[j], #[trigger] r[i], by) by {
            if j == r.len() - 1 {
                assert(r[j] == x);
                assert(r[i] == s[i]);
                if i < s.len() - 1 {
                    assert(!key_lt(s[s.len() - 1], s[i], by));
                    lemma_bytes_le_transitive(
                        vstd::utf8::encode_utf8(sort_key(s[i], by)),
                        vstd::utf8::encode_utf8(sort_key(last, by)),
                        vstd::utf8::encode_utf8(sort_key(x, by)),
                    );
                }
            } else {
                assert(r[i] == s[i] && r[j] == s[j]);
            }
        }
    }
}

/// The sort puts its input in order.
pub proof fn lemma_sorted_by_ordered(s: Seq<MatchView>, by: SortKey)
    ensures
        is_sorted_by(sorted_by(s, by), by),
    decreases s.len(),
{
    if s.len() > 0 {
        lemma_sorted_by_ordered(s.drop_last(), by);
        lemma_insert_sorted_ordered(sorted_by(s.drop_last(), by), s.last(), by);
    }
}

/// No two entries have the same group email.
pub open spec fn groups_distinct(s: Seq<MatchView>) -> bool {
    forall|i: int, j: int| 0 <= i < j < s.len() ==> (#[trigger] s[i]).group_email != (#[trigger] s[j]).group_email
}

/// Every entry of the sorted list comes from the input.
pub proof fn lemma_sorted_by_members(s: Seq<MatchView>, by: SortKey)
    ensures
        sorted_by(s, by).len() == s.len(),
        forall|i: int| 0 <= i < sorted_by(s, by).len() ==> s.contains(#[trigger] sorted_by(s, by)[i]),
    decreases s.len(),
{
    if s.len() > 0 {
        let d = s.drop_last();
        lemma_sorted_by_members(d, by);
        let sd = sorted_by(d, by);
        lemma_insert_sorted_members(sd, s.last(), by);
        let r = sorted_by(s, by);
        assert forall|i: int| 0 <= i < r.len() implies s.contains(#[trigger] r[i]) by {
            if r[i] == s.last() {
                assert(s[s.len() - 1] == r[i]);
            } else {
                let k = choose|k: int| 0 <= k < sd.len() && sd[k] == r[i];
                assert(d.contains(sd[k]));
                let m = choose|m: int| 0 <= m < d.len() && d[m] == sd[k];
                assert(s[m] == r[i]);
            }
        }
    }
}

proof fn lemma_insert_sorted_distinct(t: Seq<MatchView>, x: MatchView, by: SortKey)
    requires
        groups_distinct(t),
        forall|i: int| 0 <= i < t.len() ==> (#[trigger] t[i]).group_email != x.group_email,
    ensures
        groups_distinct(insert_sorted(t, x, by)),
    decreases t.len(),
{
    if t.len() > 0 && key_lt(x, t.last(), by) {
        let d = t.drop_last();
        assert forall|i: int| 0 <= i < d.len() implies (#[trigger] d[i]).group_email != x.group_email by {
            assert(t[i] == d[i]);
        }
        lemma_insert_sorted_distinct(d, x, by);
        lemma_insert_sorted_members(d, x, by);
        let id = insert_sorted(d, x, by);
        let r = insert_sorted(t, x, by);
        assert forall|i: int, j: int| 0 <= i < j < r.len() implies (#[trigger] r[i]).group_email != (#[trigger] r[j]).group_email by {
            if j == r.len() - 1 {
                assert(r[j] == t[t.len() - 1]);
                assert(r[i] == id[i]);
                if id[i] != x {
                    let k = choose|k: int| 0 <= k < d.len() && d[k] == id[i];
                    assert(t[k] == id[i]);
                }
            } else {
                assert(r[i] == id[i] && r[j] == id[j]);
            }
        }
    } else if t.len() > 0 {
        let r = insert_sorted(t, x, by);
        assert forall|i: int, j: int| 0 <= i < j < r.len() implies (#[trigger] r[i]).group_email != (#[trigger] r[j]).group_email by {
            assert(r[i] == t[i]);
            if j < t.len() {
                assert(r[j] == t[j]);
            }
        }
    }
}

/// Sorting keeps group emails distinct.
pub proof fn lemma_sorted_by_distinct(s: Seq<MatchView>, by: SortKey)
    requires
        groups_distinct(s),
    ensures
        groups_distinct(sorted_by(s, by)),
    decreases s.len(),
{
    if s.len() > 0 {
        let d = s.drop_last();
        assert forall|i: int, j: int| 0 <= i < j < d.len() implies (#[trigger] d[i]).group_email != (#[trigger] d[j]).group_email by {
            assert(s[i] == d[i] && s[j] == d[j]);
        }
        lemma_sorted_by_distinct(d, by);
        lemma_sorted_by_members(d, by);
        let sd = sorted_by(d, by);
        assert forall|i: int| 0 <= i < sd.len() implies (#[trigger] sd[i]).group_email != s.last().group_email by {
            assert(d.contains(sd[i]));
            let m = choose|m: int| 0 <= m < d.len() && d[m] == sd[i];
            assert(s[m] == sd[i]);
        }
        lemma_insert_sorted_distinct(sd, s.last(), by);
    }
}

} // verus!
