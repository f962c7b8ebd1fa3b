//! The crossword model: an ordered list of placed words, immutable once
//! built, with pure functions deriving its bounding box, its size, the set
//! of placed letters, and the words covering a given cell.

use vstd::prelude::*;

use crate::geometry::Direction;
use crate::geometry::Vec2;
use crate::word::COORD_LIMIT;
use crate::word::Letter;
use crate::word::Word;
use crate::word::WordModel;
use crate::word::char_at;
use crate::word::compatible;
use crate::word::covers;
use crate::word::cross_cell;
use crate::word::lemma_perpendicular_shared_is_cross;
use crate::word::offset_in;
use crate::word::word_cell;
use crate::word::word_end;
use crate::word::word_in_limit;
use crate::word::word_valid;
use crate::word::words_view;

verus! {

/// A generated crossword: the placed words, in placement order.
#[derive(Debug, Clone)]
pub struct Crossword {
    pub words: Vec<Word>,
}

impl View for Crossword {
    type V = Seq<WordModel>;

    open spec fn view(&self) -> Seq<WordModel> {
        words_view(self.words@)
    }
}

/// A well-formed crossword: at least one placed word, every word valid and
/// within the coordinate limit, and any two words legally placed against
/// each other.
pub open spec fn crossword_wf(ws: Seq<WordModel>) -> bool {
    &&& 1 <= ws.len()
    &&& forall|i: int|
        0 <= i < ws.len() ==> word_valid(#[trigger] ws[i]) && word_in_limit(ws[i])
    &&& forall|i: int, j: int|
        0 <= i < ws.len() && 0 <= j < ws.len() && i != j ==> compatible(
            #[trigger] ws[i],
            #[trigger] ws[j],
        )
}

/// Crossing consistency: in a well-formed crossword, any two words sharing
/// a cell put the same character on it.
pub proof fn lemma_crossing_consistency(ws: Seq<WordModel>, i: int, j: int, p: (int, int))
    requires
        crossword_wf(ws),
        0 <= i < ws.len(),
        0 <= j < ws.len(),
        covers(ws[i], p),
        covers(ws[j], p),
    ensures
        char_at(ws[i], p) == char_at(ws[j], p),
{
    if i != j {
        assert(compatible(ws[i], ws[j]));
        if ws[i].direction == ws[j].direction {
            assert(false);
        } else {
            lemma_perpendicular_shared_is_cross(ws[i], ws[j], p);
            assert(p == cross_cell(ws[i], ws[j]));
        }
    }
}

/// The bounding box of the first `n` words (`n >= 1`): the componentwise
/// minimum of all anchors and maximum of all word ends.
pub open spec fn bounds_of(ws: Seq<WordModel>) -> ((int, int), (int, int))
    decreases ws.len(),
{
    if ws.len() <= 1 {
        (ws[0].pos, word_end(ws[0]))
    } else {
        let rest = bounds_of(ws.drop_last());
        let w = ws.last();
        (
            (
                if w.pos.0 < rest.0.0 {
                    w.pos.0
                } else {
                    rest.0.0
                },
                if w.pos.1 < rest.0.1 {
                    w.pos.1
                } else {
                    rest.0.1
                },
            ),
            (
                if word_end(w).0 > rest.1.0 {
                    word_end(w).0
                } else {
                    rest.1.0
                },
                if word_end(w).1 > rest.1.1 {
                    word_end(w).1
                } else {
                    rest.1.1
                },
            ),
        )
    }
}

/// The bounding box contains every word, and stays within the coordinate
/// limit whenever every word does.
pub proof fn lemma_bounds_contain(ws: Seq<WordModel>)
    requires
        1 <= ws.len(),
        forall|i: int|
            0 <= i < ws.len() ==> word_valid(#[trigger] ws[i]) && word_in_limit(ws[i]),
    ensures
        forall|i: int|
            0 <= i < ws.len() ==> {
                &&& bounds_of(ws).0.0 <= (#[trigger] ws[i]).pos.0
                &&& bounds_of(ws).0.1 <= ws[i].pos.1
                &&& word_end(ws[i]).0 <= bounds_of(ws).1.0
                &&& word_end(ws[i]).1 <= bounds_of(ws).1.1
            },
        -(COORD_LIMIT as int) <= bounds_of(ws).0.0 <= bounds_of(ws).1.0 < COORD_LIMIT as int,
        -(COORD_LIMIT as int) <= bounds_of(ws).0.1 <= bounds_of(ws).1.1 < COORD_LIMIT as int,
    decreases ws.len(),
{
    if ws.len() > 1 {
        lemma_bounds_contain(ws.drop_last());
        assert(forall|i: int|
            0 <= i < ws.len() - 1 ==> ws.drop_last()[i] == #[trigger] ws[i]);
        assert(ws.last() == ws[ws.len() - 1]);
    }
}

/// The first `n` letters of a placed word, anchor first.
pub open spec fn word_letters(w: WordModel, n: int) -> Seq<(char, (int, int))>
    decreases n,
{
    if n <= 0 {
        Seq::empty()
    } else {
        word_letters(w, n - 1).push((w.answer[n - 1], word_cell(w, n - 1)))
    }
}

/// The letters of the first `k` words, in word order and anchor-first
/// within each word.
pub open spec fn letters_of(ws: Seq<WordModel>, k: int) -> Seq<(char, (int, int))>
    decreases k,
{
    if k <= 0 {
        Seq::empty()
    } else {
        letters_of(ws, k - 1) + word_letters(ws[k - 1], ws[k - 1].answer.len() as int)
    }
}

/// The mathematical value of a letter.
pub open spec fn letter_model(l: Letter) -> (char, (int, int)) {
    (l.character, (l.position.x as int, l.position.y as int))
}

/// The mathematical value of a sequence of letters.
pub open spec fn letters_view(s: Seq<Letter>) -> Seq<(char, (int, int))> {
    Seq::new(s.len(), |i: int| letter_model(s[i]))
}

/// Appending a letter appends its model.
pub proof fn lemma_letters_view_push(s: Seq<Letter>, l: Letter)
    ensures
        letters_view(s.push(l)) == letters_view(s).push(letter_model(l)),
{
    assert forall|m: int| 0 <= m < s.push(l).len() implies letters_view(s.push(l))[m]
        == letters_view(s).push(letter_model(l))[m] by {
        if m < s.len() {
            assert(s.push(l)[m] == s[m]);
        } else {
            assert(s.push(l)[m] == l);
        }
    }
    assert(letters_view(s.push(l)) =~= letters_view(s).push(letter_model(l)));
}

/// The letters of one word are exactly its characters on its cells.
pub proof fn lemma_word_letters_index(w: WordModel, n: int)
    requires
        0 <= n,
    ensures
        word_letters(w, n).len() == n,
        forall|j: int|
            0 <= j < n ==> #[trigger] word_letters(w, n)[j] == (w.answer[j], word_cell(w, j)),
    decreases n,
{
    if n > 0 {
        lemma_word_letters_index(w, n - 1);
    }
}

/// The letters of the first `n` words are exactly the (character,
/// position) pairs that some of those words puts on some cell.
#[verifier::rlimit(100)]
pub proof fn lemma_letters_of_complete(ws: Seq<WordModel>, n: int)
    requires
        0 <= n <= ws.len(),
        forall|i: int| 0 <= i < ws.len() ==> word_valid(#[trigger] ws[i]),
    ensures
        forall|c: char, p: (int, int)|
            #[trigger] letters_of(ws, n).contains((c, p)) <==> exists|i: int|
                0 <= i < n && covers(#[trigger] ws[i], p) && char_at(ws[i], p) == c,
    decreases n,
{
    if n > 0 {
        lemma_letters_of_complete(ws, n - 1);
        let w = ws[n - 1];
        let len = w.answer.len() as int;
        lemma_word_letters_index(w, len);
        let whole = letters_of(ws, n);
        let head = letters_of(ws, n - 1);
        let tail = word_letters(w, len);
        assert forall|c: char, p: (int, int)|
            #[trigger] whole.contains((c, p)) <==> exists|i: int|
                0 <= i < n && covers(#[trigger] ws[i], p) && char_at(ws[i], p) == c by {
            if whole.contains((c, p)) {
                let idx = choose|idx: int| 0 <= idx < whole.len() && whole[idx] == (c, p);
                if idx < head.len() {
                    assert(head[idx] == (c, p));
                    assert(head.contains((c, p)));
                } else {
                    assert(tail[idx - head.len()] == (c, p));
                    let j = idx - head.len();
                    assert(word_cell(w, j) == p && w.answer[j] == c);
                    assert(offset_in(w, p) == j);
                    assert(covers(w, p) && char_at(w, p) == c);
                }
            }
            if exists|i: int| 0 <= i < n && covers(#[trigger] ws[i], p) && char_at(ws[i], p)
                == c {
                let i = choose|i: int|
                    0 <= i < n && covers(#[trigger] ws[i], p) && char_at(ws[i], p) == c;
                if i < n - 1 {
                    assert(head.contains((c, p)));
                    let idx = choose|idx: int|
                        0 <= idx < head.len() && head[idx] == (c, p);
                    assert(whole[idx] == (c, p));
                } else {
                    let j = offset_in(w, p);
                    assert(word_cell(w, j) == p);
                    assert(tail[j] == (c, p));
                    assert(whole[head.len() + j] == (c, p));
                }
            }
        }
    }
}

/// The indices, in increasing order, of the words among the first `n`
/// whose span contains `p`.
pub open spec fn covering_indices(ws: Seq<WordModel>, p: (int, int), n: int) -> Seq<usize>
    decreases n,
{
    if n <= 0 {
        Seq::empty()
    } else if covers(ws[n - 1], p) {
        covering_indices(ws, p, n - 1).push((n - 1) as usize)
    } else {
        covering_indices(ws, p, n - 1)
    }
}

/// Every entry of `covering_indices` is an index of a covering word, and
/// every covering word's index is an entry.
pub proof fn lemma_covering_indices(ws: Seq<WordModel>, p: (int, int), n: int)
    requires
        0 <= n <= ws.len(),
        n <= usize::MAX,
    ensures
        forall|k: int|
            0 <= k < covering_indices(ws, p, n).len() ==> {
                &&& #[trigger] covering_indices(ws, p, n)[k] < n
                &&& covers(ws[covering_indices(ws, p, n)[k] as int], p)
            },
        forall|i: int|
            0 <= i < n && covers(#[trigger] ws[i], p) ==> covering_indices(
                ws,
                p,
                n,
            ).contains(i as usize),
    decreases n,
{
    if n > 0 {
        lemma_covering_indices(ws, p, n - 1);
        assert forall|i: int|
            0 <= i < n && covers(#[trigger] ws[i], p) implies covering_indices(
            ws,
            p,
            n,
        ).contains(i as usize) by {
            if i < n - 1 {
                let k = choose|k: int|
                    0 <= k < covering_indices(ws, p, n - 1).len() && #[trigger] covering_indices(
                        ws,
                        p,
                        n - 1,
                    )[k] == i as usize;
                assert(covering_indices(ws, p, n)[k] == i as usize);
            } else {
                assert(covers(ws[n - 1], p));
                let s = covering_indices(ws, p, n);
                assert(s[s.len() - 1] == i as usize);
            }
        }
    }
}

impl Crossword {
    /// The crossword is well formed.
    pub open spec fn wf(&self) -> bool {
        crossword_wf(self@)
    }

    /// The corners of the bounding box spanning every placed letter.
    pub fn bounds(&self) -> (r: (Vec2, Vec2))
        requires
            self.wf(),
        ensures
            (r.0.x as int, r.0.y as int) == bounds_of(self@).0,
            (r.1.x as int, r.1.y as int) == bounds_of(self@).1,
    {
        proof {
            lemma_bounds_contain(self@);
        }
        let w0 = &self.words[0];
        let len0 = w0.answer.len();
        let mut lo = w0.position;
        let mut hi = match w0.direction {
            Direction::Across => Vec2 { x: w0.position.x + (len0 as i64 - 1), y: w0.position.y },
            Direction::Down => Vec2 { x: w0.position.x, y: w0.position.y + (len0 as i64 - 1) },
        };
        assert(self@.take(1).len() == 1);
        assert(self@.take(1)[0] == self@[0]);
        let n = self.words.len();
        let mut i: usize = 1;
        while i < n
            invariant
                self.wf(),
                n == self.words.len(),
                1 <= i <= n,
                (lo.x as int, lo.y as int) == bounds_of(self@.take(i as int)).0,
                (hi.x as int, hi.y as int) == bounds_of(self@.take(i as int)).1,
                -(COORD_LIMIT as int) <= lo.x as int,
                -(COORD_LIMIT as int) <= lo.y as int,
                hi.x < COORD_LIMIT,
                hi.y < COORD_LIMIT,
            decreases n - i,
        {
            proof {
                lemma_bounds_contain(self@.take(i as int));
                assert(self@[i as int] == self.words@[i as int]@);
                assert(word_valid(self@[i as int]) && word_in_limit(self@[i as int]));
            }
            let w = &self.words[i];
            let len = w.answer.len();
            let end: Vec2 = match w.direction {
                Direction::Across => Vec2 { x: w.position.x + (len as i64 - 1), y: w.position.y },
                Direction::Down => Vec2 { x: w.position.x, y: w.position.y + (len as i64 - 1) },
            };
            if w.position.x < lo.x {
                lo.x = w.position.x;
            }
            if w.position.y < lo.y {
                lo.y = w.position.y;
            }
            if end.x > hi.x {
                hi.x = end.x;
            }
            if end.y > hi.y {
                hi.y = end.y;
            }
            proof {
                assert(self@.take(i + 1).drop_last() =~= self@.take(i as int));
                assert(self@.take(i + 1).last() == self@[i as int]);
            }
            i = i + 1;
        }
        proof {
            assert(self@.take(n as int) =~= self@);
        }
        (lo, hi)
    }

    /// The extent of the bounding box: always `bounds().1 - bounds().0`
    /// plus one in each component.
    pub fn size(&self) -> (r: Vec2)
        requires
            self.wf(),
        ensures
            r.x as int == bounds_of(self@).1.0 - bounds_of(self@).0.0 + 1,
            r.y as int == bounds_of(self@).1.1 - bounds_of(self@).0.1 + 1,
            1 <= r.x,
            1 <= r.y,
    {
        proof {
            lemma_bounds_contain(self@);
        }
        let (lo, hi) = self.bounds();
        Vec2 { x: hi.x - lo.x + 1, y: hi.y - lo.y + 1 }
    }

    /// Every letter of every placed word, in word order, in absolute
    /// coordinates; a crossing appears once per word crossing it, with
    /// the same character each time.  Together the letters are exactly
    /// the (character, position) pairs the placed words put on the grid.
    pub fn to_letters(&self) -> (r: Vec<Letter>)
        requires
            self.wf(),
        ensures
            letters_view(r@) == letters_of(self@, self@.len() as int),
            forall|c: char, p: (int, int)|
                #[trigger] letters_view(r@).contains((c, p)) <==> exists|i: int|
                    0 <= i < self@.len() && covers(#[trigger] self@[i], p) && char_at(
                        self@[i],
                        p,
                    ) == c,
    {
        proof {
            lemma_letters_of_complete(self@, self@.len() as int);
        }
        let mut out: Vec<Letter> = Vec::new();
        let n = self.words.len();
        assert(letters_view(out@) =~= letters_of(self@, 0));
        let mut k: usize = 0;
        while k < n
            invariant
                self.wf(),
                n == self.words.len(),
                0 <= k <= n,
                letters_view(out@) == letters_of(self@, k as int),
            decreases n - k,
        {
            let w = &self.words[k];
            proof {
                assert(self@[k as int] == self.words@[k as int]@);
            }
            let len = w.answer.len();
            let mut j: usize = 0;
            while j < len
                invariant
                    self.wf(),
                    n == self.words.len(),
                    0 <= k < n,
                    w == &self.words[k as int],
                    w@ == self@[k as int],
                    len == w.answer.len(),
                    0 <= j <= len,
                    letters_view(out@) == letters_of(self@, k as int) + word_letters(
                        self@[k as int],
                        j as int,
                    ),
                decreases len - j,
            {
                proof {
                    assert(word_valid(self@[k as int]) && word_in_limit(self@[k as int]));
                }
                let cell: Vec2 = match w.direction {
                    Direction::Across => Vec2 {
                        x: w.position.x + j as i64,
                        y: w.position.y,
                    },
                    Direction::Down => Vec2 { x: w.position.x, y: w.position.y + j as i64 },
                };
                let l = Letter { character: w.answer[j], position: cell };
                let ghost out0 = out@;
                out.push(l);
                proof {
                    assert(letter_model(l) == (self@[k as int].answer[j as int], word_cell(
                        self@[k as int],
                        j as int,
                    )));
                    assert(word_letters(self@[k as int], j + 1) == word_letters(
                        self@[k as int],
                        j as int,
                    ).push((self@[k as int].answer[j as int], word_cell(
                        self@[k as int],
                        j as int,
                    ))));
                    lemma_letters_view_push(out0, l);
                    assert(letters_view(out@) =~= letters_of(self@, k as int) + word_letters(
                        self@[k as int],
                        j + 1,
                    ));
                }
                j = j + 1;
            }
            proof {
                assert(letters_view(out@) =~= letters_of(self@, k + 1));
            }
            k = k + 1;
        }
        out
    }

    /// The indices of all words whose span contains `position`, in
    /// increasing order.
    pub fn words_at(&self, position: Vec2) -> (r: Vec<usize>)
        requires
            self.wf(),
        ensures
            r@ == covering_indices(
                self@,
                (position.x as int, position.y as int),
                self@.len() as int,
            ),
    {
        let ghost p = (position.x as int, position.y as int);
        let mut out: Vec<usize> = Vec::new();
        let n = self.words.len();
        let mut i: usize = 0;
        assert(out@ =~= covering_indices(self@, p, 0));
        while i < n
            invariant
                self.wf(),
                n == self.words.len(),
                0 <= i <= n,
                p == (position.x as int, position.y as int),
                out@ == covering_indices(self@, p, i as int),
            decreases n - i,
        {
            proof {
                assert(self@[i as int] == self.words@[i as int]@);
                assert(word_valid(self@[i as int]) && word_in_limit(self@[i as int]));
            }
            if self.words[i].contains(position) {
                out.push(i);
            }
            i = i + 1;
        }
        out
    }
}

} // verus!
