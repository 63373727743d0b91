//! The query buffer: the user-edited search text together with a
//! cursor, counted in Unicode scalar values from the start of the text.
//! Every operation is total; out-of-range requests clamp instead of
//! failing, and the cursor always stays within the text.

use vstd::prelude::*;

verus! {

/// The position where a backward scan from `i` leaves a run of spaces.
pub open spec fn skip_spaces_back(t: Seq<char>, i: int) -> int
    decreases i,
{
    if 0 < i <= t.len() && t[i - 1] == ' ' {
        skip_spaces_back(t, i - 1)
    } else {
        i
    }
}

/// The position where a backward scan from `i` leaves a run of
/// non-space characters.
pub open spec fn skip_word_back(t: Seq<char>, i: int) -> int
    decreases i,
{
    if 0 < i <= t.len() && t[i - 1] != ' ' {
        skip_word_back(t, i - 1)
    } else {
        i
    }
}

/// Where a backward word deletion from cursor `i` ends: first skip
/// spaces, then the word before them.
pub open spec fn word_start(t: Seq<char>, i: int) -> int {
    skip_word_back(t, skip_spaces_back(t, i))
}

pub proof fn lemma_skip_spaces_back_bounds(t: Seq<char>, i: int)
    requires
        0 <= i <= t.len(),
    ensures
        0 <= skip_spaces_back(t, i) <= i,
    decreases i,
{
    if 0 < i && t[i - 1] == ' ' {
        lemma_skip_spaces_back_bounds(t, i - 1);
    }
}

pub proof fn lemma_skip_word_back_bounds(t: Seq<char>, i: int)
    requires
        0 <= i <= t.len(),
    ensures
        0 <= skip_word_back(t, i) <= i,
    decreases i,
{
    if 0 < i && t[i - 1] != ' ' {
        lemma_skip_word_back_bounds(t, i - 1);
    }
}

/// The word-deletion target never moves the cursor forward or out of
/// the text.
pub proof fn lemma_word_start_bounds(t: Seq<char>, i: int)
    requires
        0 <= i <= t.len(),
    ensures
        0 <= word_start(t, i) <= i,
{
    lemma_skip_spaces_back_bounds(t, i);
    lemma_skip_word_back_bounds(t, skip_spaces_back(t, i));
}

/// The user-edited search text plus an editable cursor offset.
pub struct QueryBuffer {
    text: Vec<char>,
    cursor: usize,
}

impl QueryBuffer {
    /// The query text as a sequence of Unicode scalar values.
    pub closed spec fn text_view(&self) -> Seq<char> {
        self.text@
    }

    /// The cursor offset, counted in scalar values from the start.
    pub closed spec fn cursor_view(&self) -> int {
        self.cursor as int
    }

    /// The buffer invariant: the cursor lies within the text.
    pub open spec fn wf(&self) -> bool {
        0 <= self.cursor_view() <= self.text_view().len()
    }

    /// An empty query with the cursor at the start.
    pub fn new() -> (r: Self)
        ensures
            r.wf(),
            r.text_view() == Seq::<char>::empty(),
            r.cursor_view() == 0,
    {
        let r = QueryBuffer { text: Vec::new(), cursor: 0 };
        proof {
            assert(r.text_view() =~= Seq::<char>::empty());
        }
        r
    }

    /// Inserts a character at the cursor and advances the cursor past
    /// it.
    pub fn insert(&mut self, c: char)
        requires
            old(self).wf(),
        ensures
            final(self).wf(),
            final(self).text_view() == old(self).text_view().insert(old(self).cursor_view(), c),
            final(self).cursor_view() == old(self).cursor_view() + 1,
    {
        self.text.insert(self.cursor, c);
        let n = self.text.len();
        assert(self.cursor < n);
        self.cursor = self.cursor + 1;
    }

    /// Removes the character immediately before the cursor; a no-op
    /// when the cursor is at the start.
    pub fn backspace(&mut self)
        requires
            old(self).wf(),
        ensures
            final(self).wf(),
            old(self).cursor_view() == 0 ==> *final(self) == *old(self),
            old(self).cursor_view() > 0 ==> final(self).text_view() == old(self).text_view().remove(
                old(self).cursor_view() - 1,
            ) && final(self).cursor_view() == old(self).cursor_view() - 1,
    {
        if self.cursor > 0 {
            self.text.remove(self.cursor - 1);
            self.cursor = self.cursor - 1;
        }
    }

    /// Deletes backward from the cursor over a run of spaces and then a
    /// run of non-space characters, as a shell word-erase does.
    pub fn delete_word_back(&mut self)
        requires
            old(self).wf(),
        ensures
            final(self).wf(),
            final(self).cursor_view() == word_start(old(self).text_view(), old(self).cursor_view()),
            final(self).text_view() == old(self).text_view().subrange(
                0,
                word_start(old(self).text_view(), old(self).cursor_view()),
            ) + old(self).text_view().subrange(
                old(self).cursor_view(),
                old(self).text_view().len() as int,
            ),
    {
        let ghost t0 = self.text@;
        let ghost c0 = self.cursor as int;
        let mut p = self.cursor;
        while p > 0 && self.text[p - 1] == ' '
            invariant
                self.text@ == t0,
                0 <= p <= t0.len(),
                skip_spaces_back(t0, c0) == skip_spaces_back(t0, p as int),
            decreases p,
        {
            p = p - 1;
        }
        proof {
            assert(skip_spaces_back(t0, p as int) == p as int);
        }
        while p > 0 && self.text[p - 1] != ' '
            invariant
                self.text@ == t0,
                0 <= p <= t0.len(),
                skip_spaces_back(t0, c0) <= t0.len(),
                skip_word_back(t0, skip_spaces_back(t0, c0)) == skip_word_back(t0, p as int),
            decreases p,
        {
            p = p - 1;
        }
        proof {
            assert(skip_word_back(t0, p as int) == p as int);
            assert(word_start(t0, c0) == p as int);
            lemma_word_start_bounds(t0, c0);
        }
        let mut kept: Vec<char> = Vec::new();
        let mut i: usize = 0;
        while i < p
            invariant
                self.text@ == t0,
                p <= self.cursor <= t0.len(),
                i <= p,
                kept@ == t0.subrange(0, i as int),
            decreases p - i,
        {
            let c = self.text[i];
            kept.push(c);
            proof {
                assert(t0.subrange(0, i + 1) =~= t0.subrange(0, i as int).push(t0[i as int]));
            }
            i = i + 1;
        }
        let mut j = self.cursor;
        while j < self.text.len()
            invariant
                self.text@ == t0,
                p <= self.cursor <= j <= t0.len(),
                kept@ == t0.subrange(0, p as int) + t0.subrange(self.cursor as int, j as int),
            decreases t0.len() - j,
        {
            let c = self.text[j];
            kept.push(c);
            proof {
                assert(t0.subrange(self.cursor as int, j + 1) =~= t0.subrange(
                    self.cursor as int,
                    j as int,
                ).push(t0[j as int]));
                assert((t0.subrange(0, p as int) + t0.subrange(self.cursor as int, j as int)).push(
                    t0[j as int],
                ) =~= t0.subrange(0, p as int) + t0.subrange(self.cursor as int, j + 1));
            }
            j = j + 1;
        }
        self.text = kept;
        self.cursor = p;
    }

    /// Empties the text and resets the cursor to the start.
    pub fn clear(&mut self)
        ensures
            final(self).wf(),
            final(self).text_view() == Seq::<char>::empty(),
            final(self).cursor_view() == 0,
    {
        self.text.clear();
        self.cursor = 0;
        proof {
            assert(self.text_view() =~= Seq::<char>::empty());
        }
    }

    /// Moves the cursor one character left; a no-op at the start.
    pub fn move_left(&mut self)
        requires
            old(self).wf(),
        ensures
            final(self).wf(),
            final(self).text_view() == old(self).text_view(),
            final(self).cursor_view() == if old(self).cursor_view() > 0 {
                old(self).cursor_view() - 1
            } else {
                0int
            },
    {
        if self.cursor > 0 {
            self.cursor = self.cursor - 1;
        }
    }

    /// Moves the cursor one character right; a no-op at the end.
    pub fn move_right(&mut self)
        requires
            old(self).wf(),
        ensures
            final(self).wf(),
            final(self).text_view() == old(self).text_view(),
            final(self).cursor_view() == if old(self).cursor_view() < old(self).text_view().len() {
                old(self).cursor_view() + 1
            } else {
                old(self).cursor_view()
            },
    {
        if self.cursor < self.text.len() {
            self.cursor = self.cursor + 1;
        }
    }

    /// Moves the cursor to the start of the text.
    pub fn move_home(&mut self)
        requires
            old(self).wf(),
        ensures
            final(self).wf(),
            final(self).text_view() == old(self).text_view(),
            final(self).cursor_view() == 0,
    {
        self.cursor = 0;
    }

    /// Moves the cursor to the end of the text.
    pub fn move_end(&mut self)
        requires
            old(self).wf(),
        ensures
            final(self).wf(),
            final(self).text_view() == old(self).text_view(),
            final(self).cursor_view() == old(self).text_view().len(),
    {
        self.cursor = self.text.len();
    }

    /// The query text, as characters.
    pub fn text(&self) -> (r: &Vec<char>)
        ensures
            r@ == self.text_view(),
    {
        &self.text
    }

    /// The cursor offset.
    pub fn cursor(&self) -> (r: usize)
        ensures
            r as int == self.cursor_view(),
    {
        self.cursor
    }
}

} // verus!
