//! The word model: a placed word is an uppercase answer, a clue, a
//! direction, and the grid position of its first letter.  This module also
//! holds the specification-level geometry of placed words: which cells a
//! word covers, which character it puts on a cell, and when two placed
//! words may legally coexist.

use vstd::prelude::*;

use crate::geometry::Direction;
use crate::geometry::Vec2;

verus! {

/// Every coordinate of every cell of a well-formed word stays within this
/// limit, so that all grid arithmetic fits comfortably in `i64`.
pub const COORD_LIMIT: i64 = 0x4000_0000;

/// A word placed on the grid.  `position` is the anchor: the cell of the
/// first letter.  The answer of a well-formed word is non-empty and holds
/// only uppercase ASCII letters.
#[derive(Debug, Clone)]
pub struct Word {
    pub answer: Vec<char>,
    pub clue: String,
    pub direction: Direction,
    pub position: Vec2,
}

/// The mathematical value of a placed word.
pub struct WordModel {
    pub answer: Seq<char>,
    pub clue: Seq<char>,
    pub direction: Direction,
    pub pos: (int, int),
}

impl View for Word {
    type V = WordModel;

    open spec fn view(&self) -> WordModel {
        WordModel {
            answer: self.answer@,
            clue: self.clue@,
            direction: self.direction,
            pos: (self.position.x as int, self.position.y as int),
        }
    }
}

/// The mathematical value of a sequence of placed words.
pub open spec fn words_view(s: Seq<Word>) -> Seq<WordModel> {
    Seq::new(s.len(), |i: int| s[i]@)
}

/// Appending a word appends its model.
pub proof fn lemma_words_view_push(s: Seq<Word>, w: Word)
    ensures
        words_view(s.push(w)) == words_view(s).push(w@),
{
    assert forall|m: int| 0 <= m < s.push(w).len() implies words_view(s.push(w))[m]
        == words_view(s).push(w@)[m] by {
        if m < s.len() {
            assert(s.push(w)[m] == s[m]);
        } else {
            assert(s.push(w)[m] == w);
        }
    }
    assert(words_view(s.push(w)) =~= words_view(s).push(w@));
}

/// One letter of a placed word: its character and its absolute cell.
#[derive(Debug, Clone, Copy, PartialEq, Eq, Structural, Hash)]
pub struct Letter {
    pub character: char,
    pub position: Vec2,
}

/// An uppercase ASCII letter.
pub open spec fn is_upper_alpha(c: char) -> bool {
    65 <= c as u32 <= 90
}

/// The answer is non-empty and holds only uppercase ASCII letters.
pub open spec fn word_valid(w: WordModel) -> bool {
    &&& 1 <= w.answer.len()
    &&& forall|i: int| 0 <= i < w.answer.len() ==> is_upper_alpha(#[trigger] w.answer[i])
}

/// Every cell of the word lies within the coordinate limit.
pub open spec fn word_in_limit(w: WordModel) -> bool {
    &&& -(COORD_LIMIT as int) <= w.pos.0
    &&& -(COORD_LIMIT as int) <= w.pos.1
    &&& w.pos.0 + w.answer.len() <= COORD_LIMIT as int
    &&& w.pos.1 + w.answer.len() <= COORD_LIMIT as int
}

/// The cell of the word's last letter.
pub open spec fn word_end(w: WordModel) -> (int, int) {
    match w.direction {
        Direction::Across => (w.pos.0 + w.answer.len() - 1, w.pos.1),
        Direction::Down => (w.pos.0, w.pos.1 + w.answer.len() - 1),
    }
}

/// The cell of the word's letter at offset `i` from the anchor.
pub open spec fn word_cell(w: WordModel, i: int) -> (int, int) {
    match w.direction {
        Direction::Across => (w.pos.0 + i, w.pos.1),
        Direction::Down => (w.pos.0, w.pos.1 + i),
    }
}

/// The word's span contains the cell `p`.
pub open spec fn covers(w: WordModel, p: (int, int)) -> bool {
    &&& w.pos.0 <= p.0 <= word_end(w).0
    &&& w.pos.1 <= p.1 <= word_end(w).1
}

/// The offset from the anchor to the cell `p` along the word's direction.
pub open spec fn offset_in(w: WordModel, p: (int, int)) -> int {
    match w.direction {
        Direction::Across => p.0 - w.pos.0,
        Direction::Down => p.1 - w.pos.1,
    }
}

/// The character the word puts on the cell `p` (meaningful when the word
/// covers `p`).
pub open spec fn char_at(w: WordModel, p: (int, int)) -> char {
    w.answer[offset_in(w, p)]
}

/// The bounding boxes of the two words intersect.  A placed word occupies
/// exactly its box — a segment one cell wide — so intersecting boxes mean
/// a shared cell.
pub open spec fn boxes_overlap(a: WordModel, b: WordModel) -> bool {
    &&& a.pos.0 <= word_end(b).0
    &&& b.pos.0 <= word_end(a).0
    &&& a.pos.1 <= word_end(b).1
    &&& b.pos.1 <= word_end(a).1
}

/// The single cell two perpendicular words can share.
pub open spec fn cross_cell(a: WordModel, b: WordModel) -> (int, int) {
    match a.direction {
        Direction::Across => (b.pos.0, a.pos.1),
        Direction::Down => (a.pos.0, b.pos.1),
    }
}

/// Two placed words may legally coexist: words running in the same
/// direction must not share any cell, and perpendicular words that share
/// their crossing cell must put the same character on it.
pub open spec fn compatible(a: WordModel, b: WordModel) -> bool {
    if a.direction == b.direction {
        !boxes_overlap(a, b)
    } else {
        boxes_overlap(a, b) ==> char_at(a, cross_cell(a, b)) == char_at(
            b,
            cross_cell(a, b),
        )
    }
}

/// Two perpendicular words can share only their crossing cell.
pub proof fn lemma_perpendicular_shared_is_cross(a: WordModel, b: WordModel, p: (int, int))
    requires
        a.direction != b.direction,
        covers(a, p),
        covers(b, p),
    ensures
        p == cross_cell(a, b),
{
}

/// Compatibility does not depend on the order of the two words.
pub proof fn lemma_compatible_symmetric(a: WordModel, b: WordModel)
    ensures
        compatible(a, b) == compatible(b, a),
{
}

impl Word {
    /// The word's span contains the given position.
    pub fn contains(&self, position: Vec2) -> (r: bool)
        requires
            word_valid(self@),
            word_in_limit(self@),
        ensures
            r == covers(self@, (position.x as int, position.y as int)),
    {
        let len = self.answer.len();
        let end: Vec2 = match self.direction {
            Direction::Across => Vec2 {
                x: self.position.x + (len as i64 - 1),
                y: self.position.y,
            },
            Direction::Down => Vec2 {
                x: self.position.x,
                y: self.position.y + (len as i64 - 1),
            },
        };
        self.position.x <= position.x && position.x <= end.x && self.position.y <= position.y
            && position.y <= end.y
    }
}

} // verus!
