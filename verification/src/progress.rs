//! Session progress: the cursor into the word list, the review-later queue,
//! and the set of removed word identifiers.

use vstd::prelude::*;

use crate::words::Word;
use crate::words::word_views;

verus! {

/// The persisted progress of a session.
///
/// `process` is the cursor into the word list (reduced modulo the list
/// length before use), `later` the FIFO queue of words deferred for
/// re-review, and `removed` the identifiers of permanently skipped words.
#[derive(Debug, PartialEq, Eq)]
pub struct ProcessData {
    pub process: usize,
    pub later: Vec<Word>,
    pub removed: Vec<String>,
}

/// The mathematical content of a `ProcessData`.
pub ghost struct ProgressV {
    pub process: nat,
    pub later: Seq<(Seq<char>, Seq<char>)>,
    pub removed: Seq<Seq<char>>,
}

/// The views of a sequence of identifiers.
pub open spec fn str_views(ss: Seq<String>) -> Seq<Seq<char>> {
    ss.map_values(|s: String| s@)
}

impl View for ProcessData {
    type V = ProgressV;

    open spec fn view(&self) -> ProgressV {
        ProgressV {
            process: self.process as nat,
            later: word_views(self.later@),
            removed: str_views(self.removed@),
        }
    }
}

/// The state of a session that has no saved progress.
pub open spec fn default_progress() -> ProgressV {
    ProgressV { process: 0, later: Seq::empty(), removed: Seq::empty() }
}

impl Default for ProcessData {
    /// The zero-value state: cursor at the start, both containers empty.
    fn default() -> (r: Self)
        ensures
            r@ == default_progress(),
    {
        let r = ProcessData { process: 0, later: Vec::new(), removed: Vec::new() };
        proof {
            assert(r@.later =~= default_progress().later);
            assert(r@.removed =~= default_progress().removed);
        }
        r
    }
}

impl ProcessData {
    /// The cursor reduced modulo the word-list length: always a valid index.
    pub fn normalized_cursor(&self, len: usize) -> (i: usize)
        requires
            len > 0,
        ensures
            i == self@.process % len as nat,
            i < len,
    {
        self.process % len
    }

    /// Moves the cursor one past its normalized position.
    pub fn advance(&mut self, len: usize)
        requires
            len > 0,
        ensures
            final(self)@.process == old(self)@.process % len as nat + 1,
            final(self)@.later == old(self)@.later,
            final(self)@.removed == old(self)@.removed,
    {
        self.process = self.process % len + 1;
    }

    /// Appends a word to the tail of the review-later queue.
    pub fn push_later(&mut self, w: Word)
        ensures
            final(self)@.later == old(self)@.later.push(w@),
            final(self)@.removed == old(self)@.removed,
            final(self)@.process == old(self)@.process,
    {
        self.later.push(w);
        proof {
            assert(final(self)@.later =~= old(self)@.later.push(
                final(self).later@[final(self).later@.len() - 1]@,
            ));
        }
    }

    /// A copy of the head of the review-later queue, if any.
    pub fn later_head(&self) -> (r: Option<Word>)
        ensures
            match r {
                Some(w) => self@.later.len() > 0 && w@ == self@.later[0],
                None => self@.later.len() == 0,
            },
    {
        if self.later.len() > 0 {
            Some(self.later[0].clone())
        } else {
            None
        }
    }

    /// Removes the head of the review-later queue; draining always consumes
    /// from the head, so the queue stays in first-in-first-out order.
    pub fn pop_later(&mut self) -> (r: Option<Word>)
        ensures
            final(self)@.removed == old(self)@.removed,
            final(self)@.process == old(self)@.process,
            match r {
                Some(w) => old(self)@.later.len() > 0 && w@ == old(self)@.later[0]
                    && final(self)@.later == old(self)@.later.skip(1),
                None => old(self)@.later.len() == 0 && final(self)@.later == old(self)@.later,
            },
    {
        if self.later.len() > 0 {
            let w = self.later.remove(0);
            proof {
                assert(final(self)@.later =~= old(self)@.later.skip(1));
            }
            Some(w)
        } else {
            None
        }
    }

    /// Marks a word's identifier as permanently removed. The removed set
    /// only grows: the old identifiers stay in place.
    pub fn mark_removed(&mut self, w: &Word)
        ensures
            final(self)@.removed == old(self)@.removed.push(w.word@),
            final(self)@.later == old(self)@.later,
            final(self)@.process == old(self)@.process,
    {
        self.removed.push(w.word.clone());
        proof {
            assert(final(self)@.removed =~= old(self)@.removed.push(
                final(self).removed@[final(self).removed@.len() - 1]@,
            ));
        }
    }

    /// Whether an identifier is in the removed set.
    pub fn is_removed(&self, word: &String) -> (r: bool)
        ensures
            r == self@.removed.contains(word@),
    {
        let mut k: usize = 0;
        while k < self.removed.len()
            invariant
                k <= self.removed.len(),
                forall|t: int| 0 <= t < k ==> self@.removed[t] != word@,
            decreases self.removed.len() - k,
        {
            if self.removed[k].eq(word) {
                proof {
                    assert(self@.removed[k as int] == word@);
                }
                return true;
            }
            k = k + 1;
        }
        false
    }
}

} // verus!
