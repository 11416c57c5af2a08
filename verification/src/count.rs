//! The run-length grouper: a pull-based state object that hands out the runs
//! of a character sequence one at a time.
use vstd::prelude::*;
use crate::runs::{leading_run, lemma_leading_run_unique, lemma_runs_unfold, runs};

verus! {

/// Groups the characters of a source into runs, on demand.
///
/// A `Count` reads its source one character at a time. To find the end of a
/// run it has to read the first character of the following one; that
/// character waits in a one-slot buffer and starts the next run.
///
/// The view of a `Count` is the sequence of characters that it has not yet
/// handed out as part of a run: the buffered character, if any, followed by
/// the unread rest of the source.
pub struct Count<'a> {
    source: &'a [char],
    pos: usize,
    next: Option<char>,
}

impl<'a> View for Count<'a> {
    type V = Seq<char>;

    closed spec fn view(&self) -> Seq<char> {
        let unread = self.source@.skip(self.pos as int);
        match self.next {
            Some(ch) => seq![ch] + unread,
            None => unread,
        }
    }
}

impl<'a> Count<'a> {
    /// The read position lies within the source, and a character can only be
    /// buffered after it was read.
    #[verifier::type_invariant]
    spec fn inv(&self) -> bool {
        &&& self.pos <= self.source@.len()
        &&& self.next is Some ==> self.pos > 0
    }

    /// A fresh grouper over `source`, with nothing read and nothing buffered.
    pub fn from(source: &'a [char]) -> (count: Self)
        ensures
            count@ == source@,
    {
        Count { source, pos: 0, next: None }
    }

    /// Reads the next character of the source, if one is left.
    fn pull(&mut self) -> (item: Option<char>)
        ensures
            final(self).source == old(self).source,
            final(self).next == old(self).next,
            match item {
                Some(ch) => {
                    &&& old(self).pos < old(self).source@.len()
                    &&& ch == old(self).source@[old(self).pos as int]
                    &&& final(self).pos == old(self).pos + 1
                },
                None => {
                    &&& old(self).pos == old(self).source@.len()
                    &&& final(self).pos == old(self).pos
                },
            },
    {
        proof {
            use_type_invariant(&*self);
        }
        if self.pos < self.source.len() {
            let ch = self.source[self.pos];
            self.pos = self.pos + 1;
            Some(ch)
        } else {
            None
        }
    }

    /// Hands out the next run, or `None` once every character has been handed
    /// out.
    ///
    /// The run is the maximal block of equal characters at the front of the
    /// pending characters: its character is the first of them, its length is
    /// `leading_run` of them, and exactly the characters of the run are
    /// removed from the front. So the runs come out in the order of `runs`:
    /// each call hands out the first run of the pending characters and
    /// leaves the others pending.
    pub fn next(&mut self) -> (run: Option<(char, usize)>)
        ensures
            match run {
                None => {
                    &&& old(self)@.len() == 0
                    &&& final(self)@ == old(self)@
                    &&& runs(old(self)@).len() == 0
                },
                Some((ch, count)) => {
                    &&& old(self)@.len() > 0
                    &&& ch == old(self)@[0]
                    &&& count == leading_run(old(self)@)
                    &&& final(self)@ == old(self)@.skip(count as int)
                    &&& runs(old(self)@).len() > 0
                    &&& runs(old(self)@)[0] == (ch, count as nat)
                    &&& runs(final(self)@) == runs(old(self)@).drop_first()
                },
            },
    {
        proof {
            use_type_invariant(&*self);
        }
        let ch = match self.next {
            Some(ch) => {
                self.next = None;
                ch
            },
            None => match self.pull() {
                Some(ch) => ch,
                None => {
                    return None;
                },
            },
        };
        let mut count: usize = 1;
        loop
            invariant
                self.source == old(self).source,
                self.next is None,
                1 <= count <= self.pos <= self.source@.len(),
                old(self)@ =~= Seq::new(count as nat, |i: int| ch) + self.source@.skip(
                    self.pos as int,
                ),
            decreases self.source@.len() - self.pos,
        {
            match self.pull() {
                None => {
                    proof {
                        lemma_leading_run_unique(old(self)@, count as int);
                        lemma_runs_unfold(old(self)@);
                    }
                    return Some((ch, count));
                },
                Some(next) => {
                    if next == ch {
                        count += 1;
                    } else {
                        self.next = Some(next);
                        proof {
                            lemma_leading_run_unique(old(self)@, count as int);
                            lemma_runs_unfold(old(self)@);
                        }
                        return Some((ch, count));
                    }
                },
            }
        }
    }
}

} // verus!
