use vstd::prelude::*;

verus! {

/// Desirability score of the candidate at 0-based position `r` of a
/// ranking of length `len`; lower is better.
pub open spec fn rank_score_spec(r: int, len: int) -> int {
    (r + 1) * 10 - (if r < 3 { 5int } else { 0int }) - (if len <= 2 { 3int } else { 0int })
}

/// Scores are computed in `u128`, which holds every score of a list that fits in memory.
pub fn rank_score(position: usize, list_len: usize) -> (r: u128)
    ensures
        r as int == rank_score_spec(position as int, list_len as int),
{
    let base: u128 = (position as u128 + 1) * 10;
    let bonus: u128 = if position < 3 { 5 } else { 0 };
    let short: u128 = if list_len <= 2 { 3 } else { 0 };
    base - bonus - short
}

/// The text values of a list of strings.
pub open spec fn texts(v: Seq<String>) -> Seq<Seq<char>> {
    v.map_values(|s: String| s@)
}

/// Index of the last occurrence of `x` among the first `n` entries of `s`, or -1.
pub open spec fn last_index_in(s: Seq<Seq<char>>, x: Seq<char>, n: int) -> int
    decreases n,
{
    if n <= 0 {
        -1
    } else if s[n - 1] == x {
        n - 1
    } else {
        last_index_in(s, x, n - 1)
    }
}

/// The score a project's ranking gives to candidate `g`: absent when the
/// ranking does not list `g`. A candidate listed twice keeps the score of its
/// last listing.
pub open spec fn score_in(ranked: Seq<Seq<char>>, g: Seq<char>) -> Option<int> {
    let i = last_index_in(ranked, g, ranked.len() as int);
    if i < 0 {
        None
    } else {
        Some(rank_score_spec(i, ranked.len() as int))
    }
}

/// Looks up the score that `ranked` gives to `candidate`.
pub fn score_for(ranked: &Vec<String>, candidate: &String) -> (r: Option<u128>)
    ensures
        r.is_some() == score_in(texts(ranked@), candidate@).is_some(),
        r.is_some() ==> r.unwrap() as int == score_in(texts(ranked@), candidate@).unwrap(),
{
    let ghost t = texts(ranked@);
    let mut last: Option<usize> = None;
    let mut i: usize = 0;
    while i < ranked.len()
        invariant
            i <= ranked.len(),
            t == texts(ranked@),
            match last {
                Some(j) => j as int == last_index_in(t, candidate@, i as int) && j < i,
                None => last_index_in(t, candidate@, i as int) == -1,
            },
        decreases ranked.len() - i,
    {
        if ranked[i] == *candidate {
            last = Some(i);
        }
        i = i + 1;
    }
    match last {
        Some(j) => Some(rank_score(j, ranked.len())),
        None => None,
    }
}

} // verus!
