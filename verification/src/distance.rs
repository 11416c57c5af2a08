//! The squared run-length distance between two strings.
//!
//! The runs of the first string fill an accumulator, one entry per run; the
//! runs of the second string are merged into it; the result is the sum of the
//! squares of the net counts that remain. Its square root is the Euclidean
//! norm of the net counts.
use vstd::prelude::*;
use crate::accumulator::{
    absorb, absorb_all, entries, has_distinct_characters, lemma_absorb_all_keeps_distinct,
    lemma_absorb_shape, lemma_absorb_weight, lemma_first_entry_is_first,
    lemma_first_entry_unique, lemma_squared_norm_push, lemma_squared_norm_zero, seed,
    squared_norm, subtract_or_append, sum_of_squares, weight,
};
use crate::count::Count;
use crate::runs::{
    expand, lemma_encoding_unique, lemma_leading_run_bounds, lemma_runs_is_encoding, runs,
};

verus! {

/// The accumulator for `s` and `t`: one entry for each run of `s`, with the
/// runs of `t` merged in.
pub open spec fn merged(s: Seq<char>, t: Seq<char>) -> Seq<(int, char)> {
    absorb_all(seed(runs(s)), runs(t))
}

/// The sum of the squares of the net counts that are left when the runs of
/// `t` are merged into the runs of `s`.
pub open spec fn squared_distance_of(s: Seq<char>, t: Seq<char>) -> int {
    squared_norm(merged(s, t))
}

/// No character of `s` occurs in two separate runs.
pub open spec fn has_distinct_runs(s: Seq<char>) -> bool {
    forall|i: int, j: int|
        0 <= i < j < runs(s).len() ==> (#[trigger] runs(s)[i]).0 != (#[trigger] runs(s)[j]).0
}

/// The squared distance is never negative, and it is zero exactly when the
/// merge leaves every net count at zero.
pub proof fn lemma_squared_distance_zero(s: Seq<char>, t: Seq<char>)
    ensures
        squared_distance_of(s, t) >= 0,
        squared_distance_of(s, t) == 0 <==> forall|i: int|
            0 <= i < merged(s, t).len() ==> (#[trigger] merged(s, t)[i]).0 == 0,
{
    lemma_squared_norm_zero(merged(s, t));
}

/// The accumulator for the runs `r` in which the first `n` entries have been
/// brought to zero.
spec fn settled(r: Seq<(char, nat)>, n: int) -> Seq<(int, char)> {
    Seq::new(
        r.len(),
        |i: int|
            if i < n {
                (0, r[i].0)
            } else {
                (r[i].1 as int, r[i].0)
            },
    )
}

/// Merging runs with distinct characters into their own accumulator brings
/// the entries to zero one after the other.
proof fn lemma_settle(r: Seq<(char, nat)>, n: int)
    requires
        0 <= n <= r.len(),
        forall|i: int, j: int| 0 <= i < j < r.len() ==> (#[trigger] r[i]).0 != (#[trigger] r[j]).0,
    ensures
        absorb_all(settled(r, n), r.skip(n)) == settled(r, r.len() as int),
    decreases r.len() - n,
{
    let acc = settled(r, n);
    if n < r.len() {
        let run = r[n];
        assert(r.skip(n).drop_first() =~= r.skip(n + 1));
        lemma_first_entry_unique(acc, run.0, n);
        assert(absorb(acc, run) =~= settled(r, n + 1));
        lemma_settle(r, n + 1);
    }
}

/// Where the first string has no character in two separate runs, the merge
/// leaves no two entries with the same character.
pub proof fn lemma_merged_keeps_distinct(s: Seq<char>, t: Seq<char>)
    requires
        has_distinct_runs(s),
    ensures
        has_distinct_characters(merged(s, t)),
{
    lemma_absorb_all_keeps_distinct(seed(runs(s)), runs(t));
}

/// A string without a character in two separate runs is at distance zero
/// from itself.
pub proof fn lemma_self_distance_zero(s: Seq<char>)
    requires
        has_distinct_runs(s),
    ensures
        squared_distance_of(s, s) == 0,
{
    let r = runs(s);
    assert(seed(r) =~= settled(r, 0));
    assert(r.skip(0) =~= r);
    lemma_settle(r, 0);
    lemma_squared_norm_zero(settled(r, r.len() as int));
}

/// An entry that stands behind another entry for the same character is never
/// changed by a merge: the search stops before it.
proof fn lemma_shadowed_entry_stays(acc: Seq<(int, char)>, r: Seq<(char, nat)>, i: int, j: int)
    requires
        0 <= i < j < acc.len(),
        acc[i].1 == acc[j].1,
    ensures
        j < absorb_all(acc, r).len(),
        absorb_all(acc, r)[j] == acc[j],
    decreases r.len(),
{
    if r.len() > 0 {
        lemma_first_entry_is_first(acc, r[0].0);
        lemma_absorb_shape(acc, r[0]);
        lemma_shadowed_entry_stays(absorb(acc, r[0]), r.drop_first(), i, j);
    }
}

/// A string with a character in two separate runs is not at distance zero
/// from itself: the entry of the later run is never reached by the merge.
pub proof fn lemma_self_distance_positive(s: Seq<char>)
    requires
        !has_distinct_runs(s),
    ensures
        squared_distance_of(s, s) > 0,
{
    let r = runs(s);
    let (i, j) = choose|i: int, j: int|
        0 <= i < j < r.len() && (#[trigger] r[i]).0 == (#[trigger] r[j]).0;
    lemma_runs_is_encoding(s);
    lemma_shadowed_entry_stays(seed(r), r, i, j);
    lemma_squared_norm_zero(merged(s, s));
}

/// The squared distance is not symmetric. Where a character of the first
/// string has two runs, only the entry of the first of them is ever reduced:
/// merging "AA" into "ABA" leaves the net counts -1, 1, 1, while merging
/// "ABA" into "AA" leaves 0, 1.
pub proof fn lemma_not_symmetric()
    ensures
        exists|s: Seq<char>, t: Seq<char>|
            #[trigger] squared_distance_of(s, t) != squared_distance_of(t, s),
{
    let s = seq!['A', 'B', 'A'];
    let t = seq!['A', 'A'];
    let rs = seq![('A', 1nat), ('B', 1nat), ('A', 1nat)];
    let rt = seq![('A', 2nat)];
    assert(runs(s) == rs) by {
        reveal_with_fuel(expand, 4);
        assert(expand(rs) =~= s);
        lemma_encoding_unique(rs, s);
    }
    assert(runs(t) == rt) by {
        reveal_with_fuel(expand, 2);
        assert(expand(rt) =~= t);
        lemma_encoding_unique(rt, t);
    }
    let st = seq![(-1int, 'A'), (1int, 'B'), (1int, 'A')];
    assert(merged(s, t) == st) by {
        let acc = seed(rs);
        assert(acc =~= seq![(1int, 'A'), (1int, 'B'), (1int, 'A')]);
        lemma_first_entry_unique(acc, 'A', 0);
        assert(absorb(acc, rt[0]) =~= st);
        assert(rt.drop_first() =~= Seq::empty());
        reveal_with_fuel(absorb_all, 2);
    }
    let ts = seq![(0int, 'A'), (1int, 'B')];
    assert(merged(t, s) == ts) by {
        let a0 = seed(rt);
        let a1 = seq![(1int, 'A')];
        let a2 = seq![(1int, 'A'), (1int, 'B')];
        assert(a0 =~= seq![(2int, 'A')]);
        lemma_first_entry_unique(a0, 'A', 0);
        assert(absorb(a0, rs[0]) =~= a1);
        lemma_first_entry_unique(a1, 'B', 1);
        assert(absorb(a1, rs[1]) =~= a2);
        lemma_first_entry_unique(a2, 'A', 0);
        assert(absorb(a2, rs[2]) =~= ts);
        assert(rs.drop_first() =~= seq![rs[1], rs[2]]);
        assert(rs.drop_first().drop_first() =~= seq![rs[2]]);
        assert(rs.drop_first().drop_first().drop_first() =~= Seq::empty());
        reveal_with_fuel(absorb_all, 4);
    }
    let none = Seq::<(int, char)>::empty();
    assert(squared_norm(st) == 3) by {
        lemma_squared_norm_push(none, -1, 'A');
        lemma_squared_norm_push(none.push((-1int, 'A')), 1, 'B');
        lemma_squared_norm_push(none.push((-1int, 'A')).push((1int, 'B')), 1, 'A');
        assert(st =~= none.push((-1int, 'A')).push((1int, 'B')).push((1int, 'A')));
    }
    assert(squared_norm(ts) == 1) by {
        lemma_squared_norm_push(none, 0, 'A');
        lemma_squared_norm_push(none.push((0int, 'A')), 1, 'B');
        assert(ts =~= none.push((0int, 'A')).push((1int, 'B')));
    }
    assert(squared_distance_of(s, t) != squared_distance_of(t, s));
}

/// Appends the characters of `s` to `buf`.
fn push_chars(buf: &mut Vec<char>, s: &str)
    ensures
        final(buf)@ == old(buf)@ + s@,
{
    for ch in it: s.chars()
        invariant
            it.seq() == s@,
            buf@ == old(buf)@ + s@.take(it.index() as int),
    {
        buf.push(ch);
    }
}

/// The squared distance between two character slices whose lengths together
/// fit in `usize`.
///
/// Every net count is bounded by the number of characters read so far, so the
/// sum of the squares is at most the square of `usize::MAX`, which fits in
/// `u128`.
fn squared_distance_of_chars(s: &[char], t: &[char]) -> (d: u128)
    requires
        s@.len() + t@.len() <= usize::MAX,
    ensures
        d == squared_distance_of(s@, t@),
{
    let mut v: Vec<(i128, char)> = Vec::new();

    let mut groups = Count::from(s);
    loop
        invariant
            entries(v@) + seed(runs(groups@)) == seed(runs(s@)),
            weight(entries(v@)) + groups@.len() <= s@.len() <= usize::MAX,
        ensures
            entries(v@) == seed(runs(s@)),
            weight(entries(v@)) <= s@.len(),
        decreases groups@.len(),
    {
        let ghost pending = groups@;
        let ghost before = entries(v@);
        match groups.next() {
            None => {
                break ;
            },
            Some((ch, count)) => {
                proof {
                    lemma_leading_run_bounds(pending);
                }
                v.push((count as i128, ch));
                proof {
                    let entry = (count as int, ch);
                    assert(entries(v@).drop_last() =~= before);
                    assert(before.push(entry) + seed(runs(groups@)) =~= before + seed(
                        runs(pending),
                    ));
                }
            },
        }
    }

    let mut groups = Count::from(t);
    loop
        invariant
            absorb_all(entries(v@), runs(groups@)) == merged(s@, t@),
            weight(entries(v@)) + groups@.len() <= s@.len() + t@.len() <= usize::MAX,
        ensures
            entries(v@) == merged(s@, t@),
            weight(entries(v@)) <= usize::MAX,
        decreases groups@.len(),
    {
        let ghost pending = groups@;
        let ghost before = entries(v@);
        match groups.next() {
            None => {
                break ;
            },
            Some((ch, count)) => {
                proof {
                    lemma_leading_run_bounds(pending);
                    lemma_absorb_weight(before, (ch, count as nat));
                }
                subtract_or_append(&mut v, ch, count);
            },
        }
    }

    sum_of_squares(&v)
}

/// The squared distance between `s` and `t`.
///
/// The runs of `s` become the entries of an accumulator, the runs of `t` are
/// merged into it, and the squares of the net counts are added up.
pub fn squared_distance(s: String, t: String) -> (d: u128)
    ensures
        d == squared_distance_of(s@, t@),
{
    // Both strings are decoded into one buffer: its length fits in `usize`,
    // and so does the number of characters of the two strings together.
    let mut chars: Vec<char> = Vec::new();
    push_chars(&mut chars, s.as_str());
    let mid: usize = chars.len();
    push_chars(&mut chars, t.as_str());
    let (left, right) = chars.as_slice().split_at(mid);
    assert(left@ =~= s@);
    assert(right@ =~= t@);
    assert(s@.len() + t@.len() == chars.len());
    squared_distance_of_chars(left, right)
}

} // verus!
