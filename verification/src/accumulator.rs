//! The accumulator: an ordered sequence of (net count, character) entries
//! into which runs are merged, and its squared Euclidean norm.
//!
//! The accumulator is a sequence, not a map. A run is merged by looking for
//! the first entry with the run's character: if there is one, the run's
//! length is subtracted from its net count, and otherwise a new entry is
//! appended. Entries are never removed or reordered, and an accumulator that
//! starts with two entries for one character keeps both.
use vstd::prelude::*;
use vstd::math::abs;

verus! {

/// `i` is where a search for `ch` from the front of `acc` stops: at the first
/// entry for `ch`, or at `acc.len()` if there is none.
pub open spec fn is_first_entry(acc: Seq<(int, char)>, ch: char, i: int) -> bool {
    &&& 0 <= i <= acc.len()
    &&& forall|j: int| 0 <= j < i ==> (#[trigger] acc[j]).1 != ch
    &&& i < acc.len() ==> acc[i].1 == ch
}

/// Position of the first entry of `acc` for `ch`; `acc.len()` if no entry
/// has that character.
pub open spec fn first_entry(acc: Seq<(int, char)>, ch: char) -> int
    decreases acc.len(),
{
    if acc.len() == 0 {
        0
    } else if acc[0].1 == ch {
        0
    } else {
        1 + first_entry(acc.drop_first(), ch)
    }
}

/// The accumulator after one run was merged into it: the first entry for the
/// run's character loses the run's length, or, if there is no such entry,
/// one is appended with the run's length as its net count.
pub open spec fn absorb(acc: Seq<(int, char)>, run: (char, nat)) -> Seq<(int, char)> {
    let i: int = first_entry(acc, run.0);
    if i < acc.len() {
        acc.update(i, (acc[i].0 - run.1, run.0))
    } else {
        acc.push((run.1 as int, run.0))
    }
}

/// The accumulator after the runs `r` were merged into it, first to last.
pub open spec fn absorb_all(acc: Seq<(int, char)>, r: Seq<(char, nat)>) -> Seq<(int, char)>
    decreases r.len(),
{
    if r.len() == 0 {
        acc
    } else {
        absorb_all(absorb(acc, r[0]), r.drop_first())
    }
}

/// The accumulator that holds one entry for each run of `r`, in order, with
/// the run's length as net count. Runs with equal characters get an entry
/// each.
pub open spec fn seed(r: Seq<(char, nat)>) -> Seq<(int, char)> {
    r.map_values(|run: (char, nat)| (run.1 as int, run.0))
}

/// Sum of the squares of the net counts.
pub open spec fn squared_norm(acc: Seq<(int, char)>) -> int
    decreases acc.len(),
{
    if acc.len() == 0 {
        0
    } else {
        squared_norm(acc.drop_last()) + acc.last().0 * acc.last().0
    }
}

/// Sum of the absolute values of the net counts.
pub open spec fn weight(acc: Seq<(int, char)>) -> int
    decreases acc.len(),
{
    if acc.len() == 0 {
        0
    } else {
        weight(acc.drop_last()) + abs(acc.last().0)
    }
}

/// No two entries have the same character.
pub open spec fn has_distinct_characters(acc: Seq<(int, char)>) -> bool {
    forall|i: int, j: int|
        0 <= i < j < acc.len() ==> (#[trigger] acc[i]).1 != (#[trigger] acc[j]).1
}

/// Whether `acc` has an entry for `ch`.
pub open spec fn has_entry(acc: Seq<(int, char)>, ch: char) -> bool {
    first_entry(acc, ch) < acc.len()
}

/// The net count that a merge finds for `ch`: that of the first entry for
/// `ch`, and zero where `acc` has no entry for `ch`.
pub open spec fn net_count(acc: Seq<(int, char)>, ch: char) -> int {
    if has_entry(acc, ch) {
        acc[first_entry(acc, ch)].0
    } else {
        0
    }
}

/// The entries of an accumulator in memory, as mathematical pairs.
pub open spec fn entries(v: Seq<(i128, char)>) -> Seq<(int, char)> {
    v.map_values(|e: (i128, char)| (e.0 as int, e.1))
}

/// `first_entry` finds the position that `is_first_entry` describes.
pub proof fn lemma_first_entry_is_first(acc: Seq<(int, char)>, ch: char)
    ensures
        is_first_entry(acc, ch, first_entry(acc, ch)),
    decreases acc.len(),
{
    if acc.len() > 0 && acc[0].1 != ch {
        let tail = acc.drop_first();
        let i: int = first_entry(tail, ch);
        lemma_first_entry_is_first(tail, ch);
        assert forall|j: int| 0 <= j < i + 1 implies (#[trigger] acc[j]).1 != ch by {
            if j > 0 {
                assert(acc[j] == tail[j - 1]);
            }
        }
    }
}

/// A search stops at one position only: whatever satisfies `is_first_entry`
/// is the value of `first_entry`.
pub proof fn lemma_first_entry_unique(acc: Seq<(int, char)>, ch: char, i: int)
    requires
        is_first_entry(acc, ch, i),
    ensures
        i == first_entry(acc, ch),
{
    lemma_first_entry_is_first(acc, ch);
}

/// Merging a run keeps every entry in its place with its character, and adds
/// at most one entry at the end.
pub proof fn lemma_absorb_shape(acc: Seq<(int, char)>, run: (char, nat))
    ensures
        acc.len() <= absorb(acc, run).len() <= acc.len() + 1,
        forall|i: int| 0 <= i < acc.len() ==> (#[trigger] absorb(acc, run)[i]).1 == acc[i].1,
        forall|i: int|
            0 <= i < acc.len() && i != first_entry(acc, run.0) ==> #[trigger] absorb(acc, run)[i]
                == acc[i],
{
    lemma_first_entry_is_first(acc, run.0);
}

/// What a merged run does to the net count of each character: the run's own
/// character loses the run's length, or starts with it where it had no
/// entry; every other character keeps what it had.
pub proof fn lemma_absorb_net_count(acc: Seq<(int, char)>, run: (char, nat), ch: char)
    ensures
        has_entry(absorb(acc, run), ch) <==> has_entry(acc, ch) || ch == run.0,
        net_count(absorb(acc, run), ch) == if ch != run.0 {
            net_count(acc, ch)
        } else if has_entry(acc, ch) {
            net_count(acc, ch) - run.1
        } else {
            run.1 as int
        },
{
    let after = absorb(acc, run);
    let i: int = first_entry(acc, ch);
    lemma_first_entry_is_first(acc, ch);
    lemma_first_entry_is_first(acc, run.0);
    if ch == run.0 || i < acc.len() {
        lemma_first_entry_unique(after, ch, i);
    } else {
        lemma_first_entry_unique(after, ch, after.len() as int);
    }
}

/// Merging a run never makes two entries for one character: if the entries
/// have distinct characters before, they have distinct characters after.
pub proof fn lemma_absorb_keeps_distinct(acc: Seq<(int, char)>, run: (char, nat))
    requires
        has_distinct_characters(acc),
    ensures
        has_distinct_characters(absorb(acc, run)),
{
    lemma_first_entry_is_first(acc, run.0);
}

/// Merging any number of runs never makes two entries for one character.
pub proof fn lemma_absorb_all_keeps_distinct(acc: Seq<(int, char)>, r: Seq<(char, nat)>)
    requires
        has_distinct_characters(acc),
    ensures
        has_distinct_characters(absorb_all(acc, r)),
    decreases r.len(),
{
    if r.len() > 0 {
        lemma_absorb_keeps_distinct(acc, r[0]);
        lemma_absorb_all_keeps_distinct(absorb(acc, r[0]), r.drop_first());
    }
}

/// A new last entry adds the square of its net count to the squared norm.
pub proof fn lemma_squared_norm_push(acc: Seq<(int, char)>, net: int, ch: char)
    ensures
        squared_norm(acc.push((net, ch))) == squared_norm(acc) + net * net,
{
    assert(acc.push((net, ch)).drop_last() =~= acc);
}

/// The squared norm is never negative, and it is zero exactly when every net
/// count is zero.
pub proof fn lemma_squared_norm_zero(acc: Seq<(int, char)>)
    ensures
        squared_norm(acc) >= 0,
        squared_norm(acc) == 0 <==> forall|i: int| 0 <= i < acc.len() ==> (#[trigger] acc[i]).0 == 0,
    decreases acc.len(),
{
    if acc.len() > 0 {
        let front = acc.drop_last();
        let x: int = acc.last().0;
        lemma_squared_norm_zero(front);
        assert(x * x >= 0 && (x * x == 0 <==> x == 0)) by (nonlinear_arith);
        if squared_norm(acc) == 0 {
            assert forall|i: int| 0 <= i < acc.len() implies (#[trigger] acc[i]).0 == 0 by {
                if i < acc.len() - 1 {
                    assert(acc[i] == front[i]);
                }
            }
        }
    }
}

/// The weight is never negative.
pub proof fn lemma_weight_nonnegative(acc: Seq<(int, char)>)
    ensures
        weight(acc) >= 0,
    decreases acc.len(),
{
    if acc.len() > 0 {
        lemma_weight_nonnegative(acc.drop_last());
    }
}

/// The weight of a prefix is at most the weight of the whole.
pub proof fn lemma_weight_of_prefix(acc: Seq<(int, char)>, n: int)
    requires
        0 <= n <= acc.len(),
    ensures
        weight(acc.take(n)) <= weight(acc),
    decreases acc.len() - n,
{
    if n == acc.len() {
        assert(acc.take(n) =~= acc);
    } else {
        lemma_weight_of_prefix(acc, n + 1);
        assert(acc.take(n + 1).drop_last() =~= acc.take(n));
    }
}

/// The weight of an accumulator bounds each of its net counts.
pub proof fn lemma_weight_bounds_entry(acc: Seq<(int, char)>, i: int)
    requires
        0 <= i < acc.len(),
    ensures
        abs(acc[i].0) <= weight(acc),
{
    lemma_weight_of_prefix(acc, i + 1);
    lemma_weight_nonnegative(acc.take(i + 1).drop_last());
}

/// Replacing one net count changes the weight by the difference of the
/// absolute values.
pub proof fn lemma_weight_update(acc: Seq<(int, char)>, i: int, e: (int, char))
    requires
        0 <= i < acc.len(),
    ensures
        weight(acc.update(i, e)) == weight(acc) - abs(acc[i].0) + abs(e.0),
    decreases acc.len(),
{
    if i == acc.len() - 1 {
        assert(acc.update(i, e).drop_last() =~= acc.drop_last());
    } else {
        lemma_weight_update(acc.drop_last(), i, e);
        assert(acc.update(i, e).drop_last() =~= acc.drop_last().update(i, e));
    }
}

/// A merged run adds at most its length to the weight.
pub proof fn lemma_absorb_weight(acc: Seq<(int, char)>, run: (char, nat))
    ensures
        weight(absorb(acc, run)) <= weight(acc) + run.1,
{
    let i: int = first_entry(acc, run.0);
    lemma_first_entry_is_first(acc, run.0);
    if i < acc.len() {
        lemma_weight_update(acc, i, (acc[i].0 - run.1, run.0));
    } else {
        assert(acc.push((run.1 as int, run.0)).drop_last() =~= acc);
    }
}

/// The squared norm is at most the square of the weight.
pub proof fn lemma_squared_norm_bound(acc: Seq<(int, char)>)
    ensures
        0 <= squared_norm(acc) <= weight(acc) * weight(acc),
    decreases acc.len(),
{
    if acc.len() > 0 {
        let front = acc.drop_last();
        let x: int = acc.last().0;
        let w: int = weight(front);
        let a: nat = abs(x);
        lemma_squared_norm_bound(front);
        lemma_weight_nonnegative(front);
        assert(x * x == a * a) by (nonlinear_arith)
            requires
                a == x || a == -x,
        ;
        assert(w * w + a * a <= (w + a) * (w + a)) by (nonlinear_arith)
            requires
                0 <= w,
                0 <= a,
        ;
    }
}

/// Position of the first entry for `ch`, if there is one.
pub(crate) fn find_entry(acc: &Vec<(i128, char)>, ch: char) -> (found: Option<usize>)
    ensures
        match found {
            Some(i) => i < acc@.len() && i == first_entry(entries(acc@), ch),
            None => first_entry(entries(acc@), ch) == acc@.len(),
        },
{
    let mut i: usize = 0;
    while i < acc.len()
        invariant
            i <= acc@.len(),
            forall|j: int| 0 <= j < i ==> (#[trigger] entries(acc@)[j]).1 != ch,
        decreases acc@.len() - i,
    {
        if acc[i].1 == ch {
            proof {
                lemma_first_entry_unique(entries(acc@), ch, i as int);
            }
            return Some(i);
        }
        i += 1;
    }
    proof {
        lemma_first_entry_unique(entries(acc@), ch, i as int);
    }
    None
}

/// Merges one run into the accumulator.
pub(crate) fn subtract_or_append(acc: &mut Vec<(i128, char)>, ch: char, count: usize)
    requires
        weight(entries(old(acc)@)) + count <= usize::MAX,
    ensures
        entries(final(acc)@) == absorb(entries(old(acc)@), (ch, count as nat)),
{
    let ghost before = entries(acc@);
    match find_entry(acc, ch) {
        Some(i) => {
            proof {
                lemma_weight_bounds_entry(before, i as int);
            }
            let net: i128 = acc[i].0 - count as i128;
            acc[i] = (net, ch);
        },
        None => {
            acc.push((count as i128, ch));
        },
    }
}

/// Sum of the squares of the net counts.
pub(crate) fn sum_of_squares(acc: &Vec<(i128, char)>) -> (sum: u128)
    requires
        weight(entries(acc@)) <= usize::MAX,
    ensures
        sum == squared_norm(entries(acc@)),
{
    let ghost all = entries(acc@);
    let mut sum: u128 = 0;
    let mut i: usize = 0;
    while i < acc.len()
        invariant
            i <= acc@.len(),
            all == entries(acc@),
            weight(all) <= usize::MAX,
            sum == squared_norm(all.take(i as int)),
        decreases acc@.len() - i,
    {
        let net: i128 = acc[i].0;
        let ghost upto = all.take(i + 1);
        proof {
            assert(upto.drop_last() =~= all.take(i as int));
            lemma_weight_bounds_entry(all, i as int);
            lemma_weight_of_prefix(all, i + 1);
            lemma_squared_norm_bound(upto);
            lemma_weight_nonnegative(upto);
            let w: int = weight(upto);
            assert(w * w <= u128::MAX) by (nonlinear_arith)
                requires
                    0 <= w <= 0xffff_ffff_ffff_ffff,
            ;
        }
        let size: u128 = if net < 0 {
            (-net) as u128
        } else {
            net as u128
        };
        assert(size * size == net * net) by (nonlinear_arith)
            requires
                size == net || size == -net,
        ;
        sum = sum + size * size;
        i += 1;
    }
    assert(all.take(i as int) =~= all);
    sum
}

} // verus!
