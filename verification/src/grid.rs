//! The grid projector: renders an immutable crossword into a dense,
//! 0-indexed, row-major rectangular grid.  Every position is translated by
//! the bounding box's minimum corner, each cell is a block unless a placed
//! letter occupies it, and a cell starting one or more words carries the
//! word's 1-based clue ordinal, counted over the distinct anchors in
//! (y, x) order.

use vstd::prelude::*;

use crate::crossword::Crossword;
use crate::crossword::bounds_of;
use crate::crossword::crossword_wf;
use crate::crossword::lemma_bounds_contain;
use crate::geometry::Direction;
use crate::geometry::Vec2;
use crate::word::COORD_LIMIT;
use crate::word::Word;
use crate::word::WordModel;
use crate::word::char_at;
use crate::word::covers;
use crate::word::word_in_limit;
use crate::word::word_valid;
use crate::word::words_view;

verus! {

/// A dense rectangular rendering of a crossword.  `origin` is the
/// absolute position of cell 0; `cells` is row-major, one entry per cell:
/// `None` for a block, otherwise the letter and, on a cell that starts a
/// word, the 1-based clue ordinal.
pub struct Grid {
    pub width: usize,
    pub height: usize,
    pub origin: Vec2,
    pub cells: Vec<Option<(char, Option<usize>)>>,
}

/// Strict (y, then x) order on cells.
pub open spec fn yx_less(q: (int, int), p: (int, int)) -> bool {
    q.1 < p.1 || (q.1 == p.1 && q.0 < p.0)
}

/// The index of the first of the first `n` words covering `p`, if any.
pub open spec fn first_cover(ws: Seq<WordModel>, p: (int, int), n: int) -> Option<int>
    decreases n,
{
    if n <= 0 {
        None
    } else {
        match first_cover(ws, p, n - 1) {
            Some(i) => Some(i),
            None => if covers(ws[n - 1], p) {
                Some(n - 1)
            } else {
                None
            },
        }
    }
}

/// Some word anchors at `p`.
pub open spec fn is_anchor(ws: Seq<WordModel>, p: (int, int)) -> bool {
    exists|i: int| 0 <= i < ws.len() && (#[trigger] ws[i]).pos == p
}

/// Word `i` is the first word anchored at its position.
pub open spec fn first_anchor(ws: Seq<WordModel>, i: int) -> bool {
    forall|j: int| 0 <= j < i ==> (#[trigger] ws[j]).pos != ws[i].pos
}

/// How many distinct anchors among the first `n` words lie strictly
/// before `p` in (y, x) order.
pub open spec fn count_anchors_lt(ws: Seq<WordModel>, p: (int, int), n: int) -> int
    decreases n,
{
    if n <= 0 {
        0
    } else if first_anchor(ws, n - 1) && yx_less(ws[n - 1].pos, p) {
        count_anchors_lt(ws, p, n - 1) + 1
    } else {
        count_anchors_lt(ws, p, n - 1)
    }
}

/// The 1-based rank of the anchor `p` among the distinct anchors in
/// (y, x) order.
pub open spec fn ordinal_at(ws: Seq<WordModel>, p: (int, int)) -> int {
    1 + count_anchors_lt(ws, p, ws.len() as int)
}

/// What the grid holds at the absolute position `p`: nothing for a block,
/// else the covering word's letter and, on an anchor, its ordinal.
pub open spec fn grid_cell(ws: Seq<WordModel>, p: (int, int)) -> Option<
    (char, Option<usize>),
> {
    match first_cover(ws, p, ws.len() as int) {
        None => None,
        Some(i) => Some(
            (
                char_at(ws[i], p),
                if is_anchor(ws, p) {
                    Some(ordinal_at(ws, p) as usize)
                } else {
                    None
                },
            ),
        ),
    }
}

/// A found cover stays found when the scan continues.
pub proof fn lemma_first_cover_stable(ws: Seq<WordModel>, p: (int, int), m: int, m2: int)
    requires
        0 <= m <= m2,
        first_cover(ws, p, m) is Some,
    ensures
        first_cover(ws, p, m2) == first_cover(ws, p, m),
    decreases m2 - m,
{
    if m < m2 {
        lemma_first_cover_stable(ws, p, m, m2 - 1);
    }
}

/// What a finished scan means: the index found covers `p` and is the
/// first to do so; no index found means no word covers `p`.
pub proof fn lemma_first_cover_props(ws: Seq<WordModel>, p: (int, int), n: int)
    requires
        0 <= n <= ws.len(),
    ensures
        match first_cover(ws, p, n) {
            Some(i) => 0 <= i < n && covers(ws[i], p) && forall|j: int|
                0 <= j < i ==> !covers(#[trigger] ws[j], p),
            None => forall|j: int| 0 <= j < n ==> !covers(#[trigger] ws[j], p),
        },
    decreases n,
{
    if n > 0 {
        lemma_first_cover_props(ws, p, n - 1);
    }
}

/// The index of the first word whose span contains `position`.
fn find_cover(words: &Vec<Word>, position: Vec2) -> (r: Option<usize>)
    requires
        forall|k: int|
            0 <= k < words@.len() ==> word_valid(#[trigger] words_view(words@)[k])
                && word_in_limit(words_view(words@)[k]),
    ensures
        match r {
            Some(i) => first_cover(
                words_view(words@),
                (position.x as int, position.y as int),
                words@.len() as int,
            ) == Some(i as int) && i < words@.len(),
            None => first_cover(
                words_view(words@),
                (position.x as int, position.y as int),
                words@.len() as int,
            ) is None,
        },
{
    let ghost wsv = words_view(words@);
    let ghost p = (position.x as int, position.y as int);
    let n = words.len();
    let mut i: usize = 0;
    while i < n
        invariant
            wsv == words_view(words@),
            forall|k: int|
                0 <= k < words@.len() ==> word_valid(#[trigger] wsv[k]) && word_in_limit(
                    wsv[k],
                ),
            p == (position.x as int, position.y as int),
            n == words@.len(),
            0 <= i <= n,
            first_cover(wsv, p, i as int) is None,
        decreases n - i,
    {
        proof {
            assert(wsv[i as int] == words@[i as int]@);
        }
        if words[i].contains(position) {
            proof {
                assert(first_cover(wsv, p, i + 1) == Some(i as int));
                lemma_first_cover_stable(wsv, p, i + 1, n as int);
            }
            return Some(i);
        }
        i = i + 1;
    }
    None
}

/// Whether some word anchors at `position`.
fn is_anchor_exec(words: &Vec<Word>, position: Vec2) -> (r: bool)
    ensures
        r == is_anchor(words_view(words@), (position.x as int, position.y as int)),
{
    let ghost wsv = words_view(words@);
    let ghost p = (position.x as int, position.y as int);
    let n = words.len();
    let mut i: usize = 0;
    while i < n
        invariant
            wsv == words_view(words@),
            p == (position.x as int, position.y as int),
            n == words@.len(),
            0 <= i <= n,
            forall|k: int| 0 <= k < i ==> (#[trigger] wsv[k]).pos != p,
        decreases n - i,
    {
        proof {
            assert(wsv[i as int] == words@[i as int]@);
        }
        if words[i].position.x == position.x && words[i].position.y == position.y {
            proof {
                assert(wsv[i as int].pos == p);
            }
            return true;
        }
        i = i + 1;
    }
    false
}

/// The 1-based rank of the anchor `position` among the distinct anchors
/// in (y, x) order.
fn anchor_rank(words: &Vec<Word>, position: Vec2) -> (r: usize)
    requires
        words@.len() < usize::MAX,
    ensures
        r as int == ordinal_at(words_view(words@), (position.x as int, position.y as int)),
{
    let ghost wsv = words_view(words@);
    let ghost p = (position.x as int, position.y as int);
    let n = words.len();
    let mut count: usize = 0;
    let mut i: usize = 0;
    while i < n
        invariant
            wsv == words_view(words@),
            p == (position.x as int, position.y as int),
            n == words@.len(),
            n < usize::MAX,
            0 <= i <= n,
            count as int == count_anchors_lt(wsv, p, i as int),
            count <= i,
        decreases n - i,
    {
        proof {
            assert(wsv[i as int] == words@[i as int]@);
        }
        let wp = words[i].position;
        let before = wp.y < position.y || (wp.y == position.y && wp.x < position.x);
        let mut first: bool = true;
        let mut j: usize = 0;
        while j < i
            invariant
                wsv == words_view(words@),
                n == words@.len(),
                0 <= j <= i < n,
                wp == words@[i as int].position,
                first == (forall|m: int| 0 <= m < j ==> (#[trigger] wsv[m]).pos != wsv[
                    i as int
                ].pos),
            decreases i - j,
        {
            proof {
                assert(wsv[j as int] == words@[j as int]@);
            }
            if words[j].position.x == wp.x && words[j].position.y == wp.y {
                first = false;
            }
            j = j + 1;
        }
        proof {
            assert(first == first_anchor(wsv, i as int));
            assert(before == yx_less(wsv[i as int].pos, p));
        }
        if first && before {
            count = count + 1;
        }
        i = i + 1;
    }
    count + 1
}

impl Grid {
    /// The grid faithfully renders the crossword `ws`: it spans the
    /// bounding box, and every cell holds exactly what `grid_cell` says
    /// for its translated position.
    pub open spec fn matches(&self, ws: Seq<WordModel>) -> bool {
        &&& self.width as int == bounds_of(ws).1.0 - bounds_of(ws).0.0 + 1
        &&& self.height as int == bounds_of(ws).1.1 - bounds_of(ws).0.1 + 1
        &&& (self.origin.x as int, self.origin.y as int) == bounds_of(ws).0
        &&& self.cells@.len() == self.width * self.height
        &&& forall|k: int|
            0 <= k < self.cells@.len() ==> self.cells@[k] == grid_cell(
                ws,
                (
                    self.origin.x + (k % (self.width as int)),
                    self.origin.y + (k / (self.width as int)),
                ),
            )
    }
}

/// Render the crossword into a dense grid.
pub fn project(cw: &Crossword) -> (g: Grid)
    requires
        cw.wf(),
        cw@.len() < usize::MAX,
        (bounds_of(cw@).1.0 - bounds_of(cw@).0.0 + 1) * (bounds_of(cw@).1.1 - bounds_of(
            cw@,
        ).0.1 + 1) <= usize::MAX as int,
    ensures
        g.matches(cw@),
{
    proof {
        lemma_bounds_contain(cw@);
    }
    let (lo, hi) = cw.bounds();
    let width = (hi.x - lo.x + 1) as usize;
    let height = (hi.y - lo.y + 1) as usize;
    let ghost wsv = cw@;
    let mut cells: Vec<Option<(char, Option<usize>)>> = Vec::new();
    let mut y: usize = 0;
    while y < height
        invariant
            wsv == cw@,
            cw.wf(),
            cw@.len() < usize::MAX,
            width as int == bounds_of(wsv).1.0 - bounds_of(wsv).0.0 + 1,
            height as int == bounds_of(wsv).1.1 - bounds_of(wsv).0.1 + 1,
            (lo.x as int, lo.y as int) == bounds_of(wsv).0,
            width >= 1,
            width * height <= usize::MAX,
            -(COORD_LIMIT as int) <= lo.x as int,
            -(COORD_LIMIT as int) <= lo.y as int,
            lo.x + width <= COORD_LIMIT as int + 1,
            lo.y + height <= COORD_LIMIT as int + 1,
            0 <= y <= height,
            cells@.len() == y * width,
            forall|k: int|
                0 <= k < cells@.len() ==> cells@[k] == grid_cell(
                    wsv,
                    (lo.x + (k % (width as int)), lo.y + (k / (width as int))),
                ),
        decreases height - y,
    {
        let mut x: usize = 0;
        while x < width
            invariant
                wsv == cw@,
                cw.wf(),
                cw@.len() < usize::MAX,
                width as int == bounds_of(wsv).1.0 - bounds_of(wsv).0.0 + 1,
                height as int == bounds_of(wsv).1.1 - bounds_of(wsv).0.1 + 1,
                (lo.x as int, lo.y as int) == bounds_of(wsv).0,
                width >= 1,
                width * height <= usize::MAX,
                -(COORD_LIMIT as int) <= lo.x as int,
                -(COORD_LIMIT as int) <= lo.y as int,
                lo.x + width <= COORD_LIMIT as int + 1,
                lo.y + height <= COORD_LIMIT as int + 1,
                0 <= y < height,
                0 <= x <= width,
                cells@.len() == y * width + x,
                forall|k: int|
                    0 <= k < cells@.len() ==> cells@[k] == grid_cell(
                        wsv,
                        (lo.x + (k % (width as int)), lo.y + (k / (width as int))),
                    ),
            decreases width - x,
        {
            proof {
                assert(y * width + x < width * height) by (nonlinear_arith)
                    requires
                        0 <= x < width,
                        0 <= y < height,
                ;
            }
            let position = Vec2 { x: lo.x + x as i64, y: lo.y + y as i64 };
            let cell: Option<(char, Option<usize>)> = match find_cover(&cw.words, position) {
                None => None,
                Some(i) => {
                    let w = &cw.words[i];
                    proof {
                        lemma_first_cover_props(
                            wsv,
                            (position.x as int, position.y as int),
                            wsv.len() as int,
                        );
                        assert(wsv[i as int] == cw.words@[i as int]@);
                        assert(covers(wsv[i as int], (position.x as int, position.y as int)));
                    }
                    let off: usize = match w.direction {
                        Direction::Across => (position.x - w.position.x) as usize,
                        Direction::Down => (position.y - w.position.y) as usize,
                    };
                    let ch = w.answer[off];
                    let ord: Option<usize> = if is_anchor_exec(&cw.words, position) {
                        Some(anchor_rank(&cw.words, position))
                    } else {
                        None
                    };
                    Some((ch, ord))
                },
            };
            let ghost k0 = cells@.len() as int;
            cells.push(cell);
            proof {
                vstd::arithmetic::div_mod::lemma_fundamental_div_mod_converse(
                    k0,
                    width as int,
                    y as int,
                    x as int,
                );
                assert(cell == grid_cell(wsv, (position.x as int, position.y as int)));
                assert(cells@[k0] == grid_cell(
                    wsv,
                    (lo.x + (k0 % (width as int)), lo.y + (k0 / (width as int))),
                ));
                assert(forall|k: int|
                    0 <= k < k0 ==> cells@[k] == #[trigger] grid_cell(
                        wsv,
                        (lo.x + (k % (width as int)), lo.y + (k / (width as int))),
                    ));
            }
            x = x + 1;
        }
        y = y + 1;
        proof {
            assert(cells@.len() == y * width) by (nonlinear_arith)
                requires
                    cells@.len() == (y - 1) * width + width,
            ;
        }
    }
    proof {
        assert(cells@.len() == height * width);
        assert(height * width == width * height) by (nonlinear_arith);
    }
    Grid { width, height, origin: lo, cells }
}

} // verus!
