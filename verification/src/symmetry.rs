//! The distance between strings in which every character forms one block.
//!
//! Where no character of either string occurs in two separate runs, each
//! character has one net count, the difference of its two run lengths up to
//! sign, and the squared distance does not depend on the order of the two
//! strings. Without that condition it may: see `lemma_not_symmetric`.
use vstd::prelude::*;
use vstd::math::abs;
use crate::accumulator::{
    absorb, absorb_all, first_entry, has_distinct_characters, has_entry,
    lemma_absorb_net_count, lemma_first_entry_is_first, lemma_first_entry_unique, net_count,
    seed, squared_norm,
};
use crate::distance::{
    has_distinct_runs, lemma_merged_keeps_distinct, merged, squared_distance_of,
};
use crate::runs::{lemma_runs_is_encoding, runs};

verus! {

/// Length of the first run of `s` with character `ch`; zero if `ch` does not
/// occur in `s`.
pub open spec fn run_length(s: Seq<char>, ch: char) -> int {
    net_count(seed(runs(s)), ch)
}

/// The entries for the runs `r` are the entry for the first run followed by
/// the entries for the others.
proof fn lemma_seed_unfold(r: Seq<(char, nat)>, ch: char)
    requires
        r.len() > 0,
    ensures
        has_entry(seed(r), ch) <==> ch == r[0].0 || has_entry(seed(r.drop_first()), ch),
        net_count(seed(r), ch) == if ch == r[0].0 {
            r[0].1 as int
        } else {
            net_count(seed(r.drop_first()), ch)
        },
        has_distinct_characters(seed(r)) ==> has_distinct_characters(seed(r.drop_first()))
            && !has_entry(seed(r.drop_first()), r[0].0),
{
    let acc = seed(r);
    let tail = seed(r.drop_first());
    assert(acc.drop_first() =~= tail);
    lemma_first_entry_is_first(tail, ch);
    if has_distinct_characters(acc) {
        assert(has_distinct_characters(tail));
        lemma_first_entry_is_first(tail, r[0].0);
        let k: int = first_entry(tail, r[0].0);
        if k < tail.len() {
            assert(acc[0].1 != acc[k + 1].1);
        }
    }
}

/// What merging runs with distinct characters does to the net count of each
/// character: a character of the runs loses its run's length, or starts with
/// it where it had no entry; every other character keeps what it had.
pub proof fn lemma_absorb_all_net_count(acc: Seq<(int, char)>, r: Seq<(char, nat)>, ch: char)
    requires
        has_distinct_characters(seed(r)),
    ensures
        has_entry(absorb_all(acc, r), ch) <==> has_entry(acc, ch) || has_entry(seed(r), ch),
        net_count(absorb_all(acc, r), ch) == if !has_entry(seed(r), ch) {
            net_count(acc, ch)
        } else if has_entry(acc, ch) {
            net_count(acc, ch) - net_count(seed(r), ch)
        } else {
            net_count(seed(r), ch)
        },
    decreases r.len(),
{
    if r.len() > 0 {
        lemma_seed_unfold(r, ch);
        lemma_absorb_net_count(acc, r[0], ch);
        lemma_absorb_all_net_count(absorb(acc, r[0]), r.drop_first(), ch);
    }
}

/// Without one of its entries the squared norm is smaller by the square of
/// that entry's net count.
proof fn lemma_squared_norm_remove(acc: Seq<(int, char)>, k: int)
    requires
        0 <= k < acc.len(),
    ensures
        squared_norm(acc) == squared_norm(acc.remove(k)) + acc[k].0 * acc[k].0,
    decreases acc.len(),
{
    if k < acc.len() - 1 {
        lemma_squared_norm_remove(acc.drop_last(), k);
        assert(acc.remove(k).drop_last() =~= acc.drop_last().remove(k));
    }
}

/// Removing an entry leaves the other characters as they were, and, where the
/// characters are distinct, leaves no entry for the character removed.
proof fn lemma_remove_entry(acc: Seq<(int, char)>, k: int, ch: char)
    requires
        0 <= k < acc.len(),
        has_distinct_characters(acc),
    ensures
        has_distinct_characters(acc.remove(k)),
        ch == acc[k].1 ==> !has_entry(acc.remove(k), ch),
        ch != acc[k].1 ==> (has_entry(acc.remove(k), ch) <==> has_entry(acc, ch)),
        ch != acc[k].1 ==> net_count(acc.remove(k), ch) == net_count(acc, ch),
{
    let rest = acc.remove(k);
    let i: int = first_entry(acc, ch);
    lemma_first_entry_is_first(acc, ch);
    assert forall|j: int| 0 <= j < rest.len() implies #[trigger] rest[j] == if j < k {
        acc[j]
    } else {
        acc[j + 1]
    } by {}
    if ch == acc[k].1 {
        lemma_first_entry_unique(rest, ch, rest.len() as int);
    } else if i < k {
        lemma_first_entry_unique(rest, ch, i);
    } else {
        lemma_first_entry_unique(rest, ch, i - 1);
    }
}

/// The squared norm of entries with distinct characters depends only on the
/// net count of each character, up to sign, and not on the order of the
/// entries.
pub proof fn lemma_squared_norm_by_character(a: Seq<(int, char)>, b: Seq<(int, char)>)
    requires
        has_distinct_characters(a),
        has_distinct_characters(b),
        forall|ch: char| #[trigger] has_entry(a, ch) <==> has_entry(b, ch),
        forall|ch: char| abs(#[trigger] net_count(a, ch)) == abs(net_count(b, ch)),
    ensures
        squared_norm(a) == squared_norm(b),
    decreases a.len(),
{
    if a.len() == 0 {
        if b.len() > 0 {
            lemma_first_entry_unique(b, b[0].1, 0);
            assert(has_entry(a, b[0].1) <==> has_entry(b, b[0].1));
        }
    } else {
        let n: int = a.len() - 1;
        let ch = a[n].1;
        lemma_first_entry_unique(a, ch, n);
        let k: int = first_entry(b, ch);
        lemma_first_entry_is_first(b, ch);
        let x: int = net_count(a, ch);
        let y: int = net_count(b, ch);
        let a1 = a.remove(n);
        let b1 = b.remove(k);
        assert forall|c: char| #[trigger] has_entry(a1, c) <==> has_entry(b1, c) by {
            lemma_remove_entry(a, n, c);
            lemma_remove_entry(b, k, c);
        }
        assert forall|c: char| abs(#[trigger] net_count(a1, c)) == abs(net_count(b1, c)) by {
            lemma_remove_entry(a, n, c);
            lemma_remove_entry(b, k, c);
        }
        lemma_squared_norm_by_character(a1, b1);
        lemma_squared_norm_remove(b, k);
        assert(x * x == y * y) by (nonlinear_arith)
            requires
                x == y || x == -y,
        ;
    }
}

/// Between strings in which every character forms one block, each character
/// is left with the difference of its two run lengths, up to sign.
pub proof fn lemma_net_count_of_blocks(s: Seq<char>, t: Seq<char>, ch: char)
    requires
        has_distinct_runs(s),
        has_distinct_runs(t),
    ensures
        has_entry(merged(s, t), ch) <==> run_length(s, ch) > 0 || run_length(t, ch) > 0,
        abs(net_count(merged(s, t), ch)) == abs(run_length(s, ch) - run_length(t, ch)),
{
    lemma_absorb_all_net_count(seed(runs(s)), runs(t), ch);
    lemma_run_length_positive(s, ch);
    lemma_run_length_positive(t, ch);
}

/// A character has a run exactly when its run length is positive.
proof fn lemma_run_length_positive(s: Seq<char>, ch: char)
    ensures
        run_length(s, ch) >= 0,
        has_entry(seed(runs(s)), ch) <==> run_length(s, ch) > 0,
{
    lemma_runs_is_encoding(s);
    lemma_first_entry_is_first(seed(runs(s)), ch);
}

/// Between strings in which every character forms one block, the squared
/// distance is the same in both directions.
pub proof fn lemma_symmetric_for_blocks(s: Seq<char>, t: Seq<char>)
    requires
        has_distinct_runs(s),
        has_distinct_runs(t),
    ensures
        squared_distance_of(s, t) == squared_distance_of(t, s),
{
    let a = merged(s, t);
    let b = merged(t, s);
    lemma_merged_keeps_distinct(s, t);
    lemma_merged_keeps_distinct(t, s);
    assert forall|ch: char| #[trigger] has_entry(a, ch) <==> has_entry(b, ch) by {
        lemma_net_count_of_blocks(s, t, ch);
        lemma_net_count_of_blocks(t, s, ch);
    }
    assert forall|ch: char| abs(#[trigger] net_count(a, ch)) == abs(net_count(b, ch)) by {
        lemma_net_count_of_blocks(s, t, ch);
        lemma_net_count_of_blocks(t, s, ch);
    }
    lemma_squared_norm_by_character(a, b);
}

} // verus!
