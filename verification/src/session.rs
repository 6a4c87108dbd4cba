//! The session state machine: which word the main loop presents next, what
//! each menu choice does to the progress, and when the review-later queue is
//! drained.
//!
//! The interactive shell around this library renders the prompts and hands
//! the chosen options back; every decision and every mutation of the
//! progress is made here.

use vstd::prelude::*;

use crate::progress::ProcessData;
use crate::words::Word;
use crate::words::word_views;

verus! {

/// The options of the main per-word menu.
pub enum MainChoice {
    /// Show the translation: the sub-menu follows.
    Show,
    /// Advance to the next word.
    Next,
    /// Permanently remove this word, then advance.
    Remove,
}

/// The options of the sub-menu reached after `Show`.
pub enum SubChoice {
    /// Advance to the next word.
    Next,
    /// Queue this word for re-review, then advance.
    Later,
}

/// What the shell must do after a main-menu choice.
pub enum AfterMain {
    /// Present the translation and ask the sub-menu.
    ShowTranslation,
    /// The word is dealt with.
    Done,
}

/// The first index at or after `c0` (wrapping around) whose word is not
/// removed, probing `k`th positions onward; `None` when every word is
/// removed.
pub open spec fn first_unremoved(
    ids: Seq<(Seq<char>, Seq<char>)>,
    removed: Seq<Seq<char>>,
    c0: int,
    k: int,
) -> Option<int>
    decreases ids.len() - k when 0 <= k <= ids.len() && 0 <= c0 < ids.len()
{
    if k >= ids.len() {
        None
    } else if !removed.contains(ids[(c0 + k) % (ids.len() as int)].0) {
        Some((c0 + k) % (ids.len() as int))
    } else {
        first_unremoved(ids, removed, c0, k + 1)
    }
}

/// What each outcome of the scan means: a found index always carries an
/// unremoved word, and an empty scan means every remaining probe hit a
/// removed one.
proof fn lemma_first_unremoved_cases(
    ids: Seq<(Seq<char>, Seq<char>)>,
    removed: Seq<Seq<char>>,
    c0: int,
    k: int,
)
    requires
        0 <= c0 < ids.len(),
        0 <= k <= ids.len(),
    ensures
        match first_unremoved(ids, removed, c0, k) {
            Some(i) => 0 <= i < ids.len() && !removed.contains(ids[i].0),
            None => forall|t: int|
                k <= t < ids.len() ==> removed.contains(
                    #[trigger] ids[(c0 + t) % (ids.len() as int)].0,
                ),
        },
    decreases ids.len() - k,
{
    if k < ids.len() && removed.contains(ids[(c0 + k) % (ids.len() as int)].0) {
        lemma_first_unremoved_cases(ids, removed, c0, k + 1);
    }
}

/// A word is presented exactly when not every word is removed, whatever the
/// cursor.
pub proof fn lemma_presentation_owed(
    ids: Seq<(Seq<char>, Seq<char>)>,
    removed: Seq<Seq<char>>,
    c0: int,
)
    requires
        0 <= c0 < ids.len(),
    ensures
        first_unremoved(ids, removed, c0, 0) is Some <==> exists|t: int|
            0 <= t < ids.len() && !removed.contains(#[trigger] ids[t].0),
{
    let len = ids.len() as int;
    lemma_first_unremoved_cases(ids, removed, c0, 0);
    match first_unremoved(ids, removed, c0, 0) {
        Some(i) => {
            assert(0 <= i < len && !removed.contains(ids[i].0));
        },
        None => {
            assert forall|t0: int| 0 <= t0 < len implies removed.contains(
                #[trigger] ids[t0].0,
            ) by {
                let k = if t0 >= c0 {
                    t0 - c0
                } else {
                    t0 + len - c0
                };
                lemma_wrap_index(c0, k, len, t0);
                assert(removed.contains(ids[(c0 + k) % len].0));
            }
        },
    }
}

impl ProcessData {
    /// Seeks the next word to present: the first one at or after the
    /// normalized cursor whose identifier is not removed, wrapping around.
    /// The cursor is left on the found index, so a removed word is skipped
    /// for good; a removed word is never returned.
    pub fn next_word_index(&mut self, words: &Vec<Word>) -> (r: Option<usize>)
        requires
            words@.len() > 0,
        ensures
            final(self)@.later == old(self)@.later,
            final(self)@.removed == old(self)@.removed,
            r == match first_unremoved(
                word_views(words@),
                old(self)@.removed,
                (old(self)@.process % words@.len() as nat) as int,
                0,
            ) {
                Some(i) => Some(i as usize),
                None => None::<usize>,
            },
            match r {
                Some(i) => i < words@.len() && final(self)@.process == i as nat && !old(
                    self,
                )@.removed.contains(words@[i as int]@.0),
                None => final(self)@.process == old(self)@.process % words@.len() as nat && forall|
                    t: int,
                |
                    0 <= t < words@.len() ==> old(self)@.removed.contains(
                        #[trigger] words@[t]@.0,
                    ),
            },
    {
        let len = words.len();
        let c0 = self.process % len;
        let ghost ids = word_views(words@);
        let mut k: usize = 0;
        while k < len
            invariant
                0 <= k <= len,
                len == words@.len(),
                len > 0,
                self@ == old(self)@,
                c0 == old(self)@.process % len as nat,
                c0 < len,
                ids == word_views(words@),
                first_unremoved(ids, self@.removed, c0 as int, 0) == first_unremoved(
                    ids,
                    self@.removed,
                    c0 as int,
                    k as int,
                ),
            decreases len - k,
        {
            let i = if k < len - c0 {
                c0 + k
            } else {
                k - (len - c0)
            };
            proof {
                lemma_wrap_index(c0 as int, k as int, len as int, i as int);
                assert(ids[i as int] == words@[i as int]@);
            }
            if !self.is_removed(&words[i].word) {
                self.process = i;
                proof {
                    assert(first_unremoved(ids, self@.removed, c0 as int, k as int) == Some(
                        i as int,
                    ));
                }
                return Some(i);
            }
            k = k + 1;
        }
        self.process = c0;
        proof {
            lemma_presentation_owed(ids, self@.removed, c0 as int);
            assert forall|t: int| 0 <= t < words@.len() implies self@.removed.contains(
                #[trigger] words@[t]@.0,
            ) by {
                assert(ids[t] == words@[t]@);
            }
        }
        None
    }

    /// Applies a main-menu choice to the progress. Only `Remove` changes the
    /// state, adding the word's identifier to the removed set; `Show` asks
    /// the shell for the sub-menu, the cursor is moved by the caller.
    pub fn choose_main(&mut self, word: &Word, choice: &MainChoice) -> (r: AfterMain)
        ensures
            final(self)@.later == old(self)@.later,
            final(self)@.process == old(self)@.process,
            (r is ShowTranslation) == (choice is Show),
            match choice {
                MainChoice::Remove => final(self)@.removed == old(self)@.removed.push(word.word@),
                _ => final(self)@.removed == old(self)@.removed,
            },
    {
        match choice {
            MainChoice::Show => AfterMain::ShowTranslation,
            MainChoice::Next => AfterMain::Done,
            MainChoice::Remove => {
                self.mark_removed(word);
                AfterMain::Done
            },
        }
    }

    /// Applies a sub-menu choice to the progress. `Later` appends the word
    /// to the tail of the review-later queue; `Next` changes nothing.
    pub fn choose_sub(&mut self, word: &Word, choice: &SubChoice)
        ensures
            final(self)@.removed == old(self)@.removed,
            final(self)@.process == old(self)@.process,
            match choice {
                SubChoice::Later => final(self)@.later == old(self)@.later.push(word@),
                SubChoice::Next => final(self)@.later == old(self)@.later,
            },
    {
        match choice {
            SubChoice::Next => {},
            SubChoice::Later => self.push_later(word.clone()),
        }
    }

    /// Whether a draw decides for a drain of the review-later queue: the
    /// drain happens exactly when the draw (a tenth, in `[0, 10)`) falls
    /// below the queue length, so the probability grows with the queue and
    /// is certain from ten entries on.
    pub fn should_drain(&self, draw: usize) -> (r: bool)
        requires
            draw < 10,
        ensures
            r == (draw < self@.later.len()),
    {
        draw < self.later.len()
    }

    /// Draws at random whether to drain the review-later queue now. Whatever
    /// the draw, a drain is only decided when the queue is non-empty, and it
    /// is always decided once the queue holds at least ten entries.
    pub fn drain_triggered(&self) -> (r: bool)
        ensures
            r ==> self@.later.len() > 0,
            self@.later.len() >= 10 ==> r,
    {
        let draw = random_tenth();
        self.should_drain(draw)
    }
}

/// An index advanced by `k` positions and wrapped once equals the advance
/// modulo the length.
proof fn lemma_wrap_index(c0: int, k: int, len: int, i: int)
    requires
        0 <= c0 < len,
        0 <= k < len,
        i == if k < len - c0 {
            c0 + k
        } else {
            k - (len - c0)
        },
    ensures
        i == (c0 + k) % len,
        0 <= i < len,
{
    if k < len - c0 {
        vstd::arithmetic::div_mod::lemma_small_mod((c0 + k) as nat, len as nat);
    } else {
        vstd::arithmetic::div_mod::lemma_mod_sub_multiples_vanish(c0 + k, len);
        vstd::arithmetic::div_mod::lemma_small_mod((c0 + k - len) as nat, len as nat);
    }
}

/// Relies on `rand::random_range`: a uniformly random value in the given
/// range, here `0..10`, drawn from the thread-local generator.
#[verifier::external_body]
fn random_tenth() -> (r: usize)
    ensures
        r < 10,
{
    rand::random_range(0usize..10)
}

} // verus!
