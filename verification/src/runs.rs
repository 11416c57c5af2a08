//! Run-length grouping of a character sequence, as mathematics.
//!
//! A run is a maximal block of consecutive equal characters. `runs` maps a
//! sequence to its runs in order, `expand` maps runs back to characters, and
//! the lemmas below show that the two are inverse to each other on
//! well-formed encodings.
use vstd::prelude::*;

verus! {

/// `k` is the length of the maximal block of equal characters at the front of
/// `s`: the first `k` characters equal `s[0]`, and the block cannot be
/// extended.
pub open spec fn is_leading_run(s: Seq<char>, k: int) -> bool {
    &&& 0 < k <= s.len()
    &&& forall|i: int| 0 <= i < k ==> #[trigger] s[i] == s[0]
    &&& k < s.len() ==> s[k] != s[0]
}

/// Length of the maximal block of equal characters at the front of `s`;
/// zero exactly for the empty sequence.
pub open spec fn leading_run(s: Seq<char>) -> nat
    decreases s.len(),
{
    if s.len() == 0 {
        0
    } else if s.len() > 1 && s[1] == s[0] {
        1 + leading_run(s.drop_first())
    } else {
        1
    }
}

/// The runs of `s` in order, each as (character, length).
pub open spec fn runs(s: Seq<char>) -> Seq<(char, nat)>
    decreases s.len(),
    via runs_terminates
{
    if s.len() == 0 {
        Seq::empty()
    } else {
        seq![(s[0], leading_run(s))] + runs(s.skip(leading_run(s) as int))
    }
}

#[via_fn]
proof fn runs_terminates(s: Seq<char>) {
    lemma_leading_run_bounds(s);
}

/// The characters that a sequence of runs stands for: each run's character
/// repeated as often as its length says, in order.
pub open spec fn expand(r: Seq<(char, nat)>) -> Seq<char>
    decreases r.len(),
{
    if r.len() == 0 {
        Seq::empty()
    } else {
        Seq::new(r[0].1, |i: int| r[0].0) + expand(r.drop_first())
    }
}

/// A well-formed run-length encoding: no run is empty, and neighbouring runs
/// have different characters.
pub open spec fn is_encoding(r: Seq<(char, nat)>) -> bool {
    &&& forall|i: int| 0 <= i < r.len() ==> (#[trigger] r[i]).1 > 0
    &&& forall|i: int| 0 <= i < r.len() - 1 ==> (#[trigger] r[i]).0 != r[i + 1].0
}

/// A leading run is never longer than the sequence, and is empty only for the
/// empty sequence.
pub proof fn lemma_leading_run_bounds(s: Seq<char>)
    ensures
        leading_run(s) <= s.len(),
        s.len() > 0 ==> leading_run(s) >= 1,
    decreases s.len(),
{
    if s.len() > 1 && s[1] == s[0] {
        lemma_leading_run_bounds(s.drop_first());
    }
}

/// `leading_run` computes the block that `is_leading_run` describes.
pub proof fn lemma_leading_run_is_block(s: Seq<char>)
    requires
        s.len() > 0,
    ensures
        is_leading_run(s, leading_run(s) as int),
    decreases s.len(),
{
    if s.len() > 1 && s[1] == s[0] {
        let t = s.drop_first();
        let k: int = leading_run(t) as int;
        lemma_leading_run_is_block(t);
        assert forall|i: int| 0 <= i < k + 1 implies #[trigger] s[i] == s[0] by {
            if i > 0 {
                assert(t[i - 1] == s[i]);
            }
        }
    }
}

/// A sequence has only one leading block: whatever satisfies `is_leading_run`
/// is the value of `leading_run`.
pub proof fn lemma_leading_run_unique(s: Seq<char>, k: int)
    requires
        is_leading_run(s, k),
    ensures
        k == leading_run(s),
{
    lemma_leading_run_is_block(s);
}

/// The runs of a non-empty sequence are its leading run followed by the runs
/// of what is left; the empty sequence has no runs.
pub proof fn lemma_runs_unfold(s: Seq<char>)
    ensures
        s.len() == 0 ==> runs(s).len() == 0,
        s.len() > 0 ==> runs(s).len() > 0 && runs(s)[0] == (s[0], leading_run(s))
            && runs(s).drop_first() == runs(s.skip(leading_run(s) as int)),
{
}

/// Expanding the runs of a sequence gives the sequence back: concatenating
/// each run's character, repeated as often as the run is long, reconstructs
/// the input exactly.
pub proof fn lemma_expand_runs(s: Seq<char>)
    ensures
        expand(runs(s)) == s,
    decreases s.len(),
{
    if s.len() > 0 {
        lemma_leading_run_is_block(s);
        lemma_runs_unfold(s);
        lemma_expand_runs(s.skip(leading_run(s) as int));
    }
}

/// The runs of a sequence form a well-formed encoding: every run has at least
/// one character, and no two neighbouring runs share their character, so each
/// run is maximal.
pub proof fn lemma_runs_is_encoding(s: Seq<char>)
    ensures
        is_encoding(runs(s)),
    decreases s.len(),
{
    if s.len() > 0 {
        lemma_leading_run_is_block(s);
        lemma_runs_is_encoding(s.skip(leading_run(s) as int));
    }
}

/// The first character of what a well-formed, non-empty encoding expands to
/// is the character of its first run.
proof fn lemma_expand_first(r: Seq<(char, nat)>)
    requires
        r.len() > 0,
        r[0].1 > 0,
    ensures
        expand(r).len() >= r[0].1,
        forall|i: int| 0 <= i < r[0].1 ==> #[trigger] expand(r)[i] == r[0].0,
        expand(r).skip(r[0].1 as int) == expand(r.drop_first()),
{
}

/// Run-length encodings are unique: a well-formed encoding that expands to
/// `s` is the sequence of runs of `s`.
pub proof fn lemma_encoding_unique(r: Seq<(char, nat)>, s: Seq<char>)
    requires
        is_encoding(r),
        expand(r) == s,
    ensures
        r == runs(s),
    decreases r.len(),
{
    if r.len() > 0 {
        let n: int = r[0].1 as int;
        let tail = r.drop_first();
        lemma_expand_first(r);
        assert(is_encoding(tail));
        lemma_leading_run_unique(s, n);
        lemma_encoding_unique(tail, s.skip(n));
    }
}

/// Grouping is a function of the characters alone: equal sequences have
/// identical runs.
pub proof fn lemma_runs_deterministic(s: Seq<char>, t: Seq<char>)
    requires
        s =~= t,
    ensures
        runs(s) == runs(t),
{
}

} // verus!
