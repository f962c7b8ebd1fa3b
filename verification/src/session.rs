//! The interactive solving session: a state machine over a finished
//! crossword and its projected grid, holding the selection cursor, the
//! per-cell entered characters, and the last movement direction, with the
//! movement and editing rules of the puzzle view.
//!
//! Every rejected action — selecting a block, moving off an edge or row,
//! moving onto a block, editing with nothing selected — leaves the state
//! unchanged.

use vstd::prelude::*;

use itertools::Itertools;

use crate::crossword::Crossword;
use crate::crossword::covering_indices;
use crate::crossword::crossword_wf;
use crate::crossword::bounds_of;
use crate::crossword::lemma_bounds_contain;
use crate::geometry::Direction;
use crate::geometry::Vec2;
use crate::grid::Grid;
use crate::grid::grid_cell;
use crate::word::COORD_LIMIT;
use crate::word::Word;
use crate::word::WordModel;
use crate::word::words_view;
use crate::builder::upper_char;
use crate::builder::upper_char_exec;
use crate::crossword::lemma_covering_indices;
use crate::grid::project;

verus! {

/// A cursor movement request.
#[derive(Debug, Clone, Copy, PartialEq, Eq, Structural)]
pub enum Move {
    Left,
    Right,
    Up,
    Down,
}

/// The mathematical value of a solving session.
pub struct SessionModel {
    pub words: Seq<WordModel>,
    pub width: int,
    pub height: int,
    pub origin: (int, int),
    pub cells: Seq<Option<(char, Option<usize>)>>,
    pub entries: Seq<Option<char>>,
    pub selection: Option<int>,
    pub last_direction: Direction,
}

/// An interactive solving session over one crossword.
pub struct Session {
    crossword: Crossword,
    grid: Grid,
    entries: Vec<Option<char>>,
    selection: Option<usize>,
    last_direction: Direction,
}

impl View for Session {
    type V = SessionModel;

    closed spec fn view(&self) -> SessionModel {
        SessionModel {
            words: self.crossword@,
            width: self.grid.width as int,
            height: self.grid.height as int,
            origin: (self.grid.origin.x as int, self.grid.origin.y as int),
            cells: self.grid.cells@,
            entries: self.entries@,
            selection: match self.selection {
                None => None,
                Some(s) => Some(s as int),
            },
            last_direction: self.last_direction,
        }
    }
}

/// The absolute grid position of the cell at index `k`.
pub open spec fn cell_pos(m: SessionModel, k: int) -> (int, int) {
    (m.origin.0 + k % m.width, m.origin.1 + k / m.width)
}

/// A well-formed session: the grid faithfully renders the crossword, the
/// entry map covers exactly the grid, blocks hold no entry, and the
/// selection, if any, rests on an open cell.
pub open spec fn session_wf(m: SessionModel) -> bool {
    &&& crossword_wf(m.words)
    &&& 1 <= m.width
    &&& 1 <= m.height
    &&& m.width * m.height <= usize::MAX
    &&& m.cells.len() == m.width * m.height
    &&& -(COORD_LIMIT as int) <= m.origin.0
    &&& -(COORD_LIMIT as int) <= m.origin.1
    &&& m.origin.0 + m.width <= COORD_LIMIT as int + 1
    &&& m.origin.1 + m.height <= COORD_LIMIT as int + 1
    &&& forall|k: int|
        0 <= k < m.cells.len() ==> m.cells[k] == grid_cell(m.words, cell_pos(m, k))
    &&& m.entries.len() == m.cells.len()
    &&& forall|k: int|
        0 <= k < m.cells.len() && m.cells[k] is None ==> m.entries[k] is None
    &&& match m.selection {
        None => true,
        Some(s) => 0 <= s < m.cells.len() && m.cells[s] is Some,
    }
    &&& m.words.len() < usize::MAX
}

/// Selecting a cell: a no-op on a block, a deselection on the already
/// selected cell, a selection move otherwise.
pub open spec fn select_spec(m: SessionModel, cell: int) -> SessionModel {
    if !(0 <= cell < m.cells.len()) || m.cells[cell] is None {
        m
    } else if m.selection == Some(cell) {
        SessionModel { selection: None, ..m }
    } else {
        SessionModel { selection: Some(cell), ..m }
    }
}

/// Clearing the selection.
pub open spec fn escape_spec(m: SessionModel) -> SessionModel {
    SessionModel { selection: None, ..m }
}

/// The cell one step from `s` in the requested direction, or nothing when
/// the step would cross a row boundary or leave the grid.
pub open spec fn move_target(m: SessionModel, mv: Move, s: int) -> Option<int> {
    match mv {
        Move::Left => if s % m.width == 0 {
            None
        } else {
            Some(s - 1)
        },
        Move::Right => if s % m.width == m.width - 1 {
            None
        } else {
            Some(s + 1)
        },
        Move::Up => if s < m.width {
            None
        } else {
            Some(s - m.width)
        },
        Move::Down => if s >= m.width * (m.height - 1) {
            None
        } else {
            Some(s + m.width)
        },
    }
}

/// The axis a movement runs along.
pub open spec fn move_axis(mv: Move) -> Direction {
    match mv {
        Move::Left | Move::Right => Direction::Across,
        Move::Up | Move::Down => Direction::Down,
    }
}

/// A directional move: rejected — with no state change at all — when
/// nothing is selected, at a row or grid boundary, or onto a block;
/// otherwise the selection moves one step and the last direction becomes
/// the movement's axis.
pub open spec fn move_spec(m: SessionModel, mv: Move) -> SessionModel {
    match m.selection {
        None => m,
        Some(s) => match move_target(m, mv, s) {
            None => m,
            Some(t) => if 0 <= t < m.cells.len() && m.cells[t] is Some {
                SessionModel { selection: Some(t), last_direction: move_axis(mv), ..m }
            } else {
                m
            },
        },
    }
}

/// A move target computed from a valid selection stays inside the grid.
pub proof fn lemma_move_target_in_range(m: SessionModel, mv: Move, s: int)
    requires
        session_wf(m),
        0 <= s < m.cells.len(),
    ensures
        match move_target(m, mv, s) {
            None => true,
            Some(t) => 0 <= t < m.cells.len(),
        },
{
    let w = m.width;
    let h = m.height;
    vstd::arithmetic::div_mod::lemma_fundamental_div_mod(s, w);
    assert(0 <= s % w < w) by {
        vstd::arithmetic::div_mod::lemma_mod_bound(s, w);
    }
    let q = s / w;
    assert(0 <= q < h) by (nonlinear_arith)
        requires
            s == q * w + s % w,
            0 <= s % w < w,
            0 <= s < w * h,
            1 <= w,
            1 <= h,
    ;
    match mv {
        Move::Left => {},
        Move::Right => {
            if s % w != w - 1 {
                assert(s + 1 < m.cells.len()) by (nonlinear_arith)
                    requires
                        s == q * w + s % w,
                        0 <= s % w < w - 1,
                        0 <= q < h,
                        m.cells.len() == w * h,
                        1 <= w,
                ;
            }
        },
        Move::Up => {},
        Move::Down => {
            if s < w * (h - 1) {
                assert(s + w < m.cells.len()) by (nonlinear_arith)
                    requires
                        s < w * (h - 1),
                        m.cells.len() == w * h,
                        1 <= w,
                ;
            }
        },
    }
}

/// The first index in `idxs` (scanning its first `n` entries) naming a
/// word that runs in direction `d`.
pub open spec fn first_matching(
    ws: Seq<WordModel>,
    idxs: Seq<usize>,
    d: Direction,
    n: int,
) -> Option<usize>
    decreases n,
{
    if n <= 0 {
        None
    } else {
        match first_matching(ws, idxs, d, n - 1) {
            Some(i) => Some(i),
            None => if ws[idxs[n - 1] as int].direction == d {
                Some(idxs[n - 1])
            } else {
                None
            },
        }
    }
}

/// The first index naming a word in direction `d`, or the first index
/// when none matches, or nothing when the list is empty: exactly what a
/// find-or-first scan returns.
pub open spec fn preferred_of(ws: Seq<WordModel>, idxs: Seq<usize>, d: Direction) -> Option<
    usize,
> {
    match first_matching(ws, idxs, d, idxs.len() as int) {
        Some(i) => Some(i),
        None => if idxs.len() > 0 {
            Some(idxs[0])
        } else {
            None
        },
    }
}

/// The word highlighted for the cell at index `s`: among the words
/// covering it, prefer the one running along the last used direction,
/// else the first.
pub open spec fn preferred_at(m: SessionModel, s: int) -> Option<usize> {
    preferred_of(
        m.words,
        covering_indices(m.words, cell_pos(m, s), m.words.len() as int),
        m.last_direction,
    )
}

/// An ASCII letter, of either case.
pub open spec fn is_ascii_letter(c: char) -> bool {
    65 <= c as u32 <= 90 || 97 <= c as u32 <= 122
}

/// The forward movement along a word's direction.
pub open spec fn axis_forward(d: Direction) -> Move {
    match d {
        Direction::Across => Move::Right,
        Direction::Down => Move::Down,
    }
}

/// The backward movement along a word's direction.
pub open spec fn axis_backward(d: Direction) -> Move {
    match d {
        Direction::Across => Move::Left,
        Direction::Down => Move::Up,
    }
}

/// Typing a letter: a no-op without a selection or on a key that is not
/// an ASCII letter; otherwise the uppercased character is written at the
/// selection, and the cursor attempts one forward step along the matched
/// word's direction, staying put when the step is rejected.
pub open spec fn type_spec(m: SessionModel, c: char) -> SessionModel {
    if m.selection is None || !is_ascii_letter(c) {
        m
    } else {
        let s = m.selection.unwrap();
        let m1 = SessionModel { entries: m.entries.update(s, Some(upper_char(c))), ..m };
        match preferred_at(m, s) {
            None => m1,
            Some(wi) => move_spec(m1, axis_forward(m.words[wi as int].direction)),
        }
    }
}

/// Backspace: a no-op without a selection; otherwise the entry at the
/// selection is cleared, and the cursor attempts one backward step along
/// the matched word's direction, staying put when the step is rejected.
pub open spec fn backspace_spec(m: SessionModel) -> SessionModel {
    if m.selection is None {
        m
    } else {
        let s = m.selection.unwrap();
        let m1 = SessionModel { entries: m.entries.update(s, None), ..m };
        match preferred_at(m, s) {
            None => m1,
            Some(wi) => move_spec(m1, axis_backward(m.words[wi as int].direction)),
        }
    }
}

/// The solution is correct: there is at least one open cell, and every
/// open cell's entry equals the grid's letter there.
pub open spec fn correct_spec(m: SessionModel) -> bool {
    &&& exists|k: int| 0 <= k < m.cells.len() && (#[trigger] m.cells[k]) is Some
    &&& forall|k: int|
        0 <= k < m.cells.len() && (#[trigger] m.cells[k]) is Some ==> m.entries[k] == Some(
            m.cells[k].unwrap().0,
        )
}

/// The correctness check may be requested: there is at least one open
/// cell and no open cell is still unentered.
pub open spec fn check_enabled_spec(m: SessionModel) -> bool {
    &&& exists|k: int| 0 <= k < m.cells.len() && (#[trigger] m.cells[k]) is Some
    &&& forall|k: int|
        0 <= k < m.cells.len() && (#[trigger] m.cells[k]) is Some ==> m.entries[k] is Some
}

/// A matched index names one of the scanned indices.
pub proof fn lemma_first_matching_in(
    ws: Seq<WordModel>,
    idxs: Seq<usize>,
    d: Direction,
    n: int,
)
    requires
        n <= idxs.len(),
        first_matching(ws, idxs, d, n) is Some,
    ensures
        exists|k: int|
            0 <= k < n && #[trigger] idxs[k] == first_matching(ws, idxs, d, n).unwrap(),
    decreases n,
{
    if n > 0 {
        if first_matching(ws, idxs, d, n - 1) is Some {
            lemma_first_matching_in(ws, idxs, d, n - 1);
        } else {
            assert(idxs[n - 1] == first_matching(ws, idxs, d, n).unwrap());
        }
    }
}

/// A preferred index names one of the given indices.
pub proof fn lemma_preferred_in(ws: Seq<WordModel>, idxs: Seq<usize>, d: Direction)
    requires
        preferred_of(ws, idxs, d) is Some,
    ensures
        exists|k: int|
            0 <= k < idxs.len() && #[trigger] idxs[k] == preferred_of(ws, idxs, d).unwrap(),
{
    if first_matching(ws, idxs, d, idxs.len() as int) is Some {
        lemma_first_matching_in(ws, idxs, d, idxs.len() as int);
    } else {
        assert(idxs[0] == preferred_of(ws, idxs, d).unwrap());
    }
}

/// Whether the word at `i` runs in direction `d`.
fn matches_direction(words: &Vec<Word>, i: usize, d: Direction) -> (r: bool)
    requires
        i < words@.len(),
    ensures
        r == (words_view(words@)[i as int].direction == d),
{
    proof {
        assert(words_view(words@)[i as int] == words@[i as int]@);
    }
    words[i].direction == d
}

/// Relies on itertools' `find_or_first`: the value of the first element
/// satisfying the predicate — here, naming a word that runs in direction
/// `d` — or the first element when none does, or nothing when the list
/// is empty.
#[verifier::external_body]
fn find_or_first_by_direction(indices: &Vec<usize>, words: &Vec<Word>, d: Direction) -> (r:
    Option<usize>)
    requires
        forall|k: int| 0 <= k < indices@.len() ==> (#[trigger] indices@[k]) < words@.len(),
    ensures
        r == preferred_of(words_view(words@), indices@, d),
{
    indices.iter().copied().find_or_first(|i: &usize| matches_direction(words, *i, d))
}

impl Session {
    /// Open a solving session on a crossword: grid projected, no cell
    /// selected, every open cell not yet entered, direction tracking
    /// starting across.
    pub fn new(crossword: Crossword) -> (r: Session)
        requires
            crossword.wf(),
            crossword@.len() < usize::MAX,
            (bounds_of(crossword@).1.0 - bounds_of(crossword@).0.0 + 1) * (bounds_of(
                crossword@,
            ).1.1 - bounds_of(crossword@).0.1 + 1) <= usize::MAX as int,
        ensures
            session_wf(r@),
            r@.words == crossword@,
            r@.selection is None,
            r@.last_direction == Direction::Across,
            forall|k: int| 0 <= k < r@.entries.len() ==> (#[trigger] r@.entries[k]) is None,
    {
        proof {
            lemma_bounds_contain(crossword@);
        }
        let grid = project(&crossword);
        let n = grid.cells.len();
        let entries: Vec<Option<char>> = vec![None; n];
        let r = Session {
            crossword,
            grid,
            entries,
            selection: None,
            last_direction: Direction::Across,
        };
        proof {
            assert(session_wf(r@));
        }
        r
    }

    /// Open a solving session after checking that the projected grid
    /// fits in memory; a crossword whose bounding box has more cells
    /// than `usize` can count is declined.
    pub fn try_new(crossword: Crossword) -> (r: Option<Session>)
        requires
            crossword.wf(),
            crossword@.len() < usize::MAX,
        ensures
            match r {
                Some(s) => {
                    &&& session_wf(s@)
                    &&& s@.words == crossword@
                    &&& s@.selection is None
                    &&& s@.last_direction == Direction::Across
                    &&& forall|k: int|
                        0 <= k < s@.entries.len() ==> (#[trigger] s@.entries[k]) is None
                },
                None => (bounds_of(crossword@).1.0 - bounds_of(crossword@).0.0 + 1) * (
                bounds_of(crossword@).1.1 - bounds_of(crossword@).0.1 + 1) > usize::MAX
                    as int,
            },
    {
        proof {
            lemma_bounds_contain(crossword@);
        }
        let size = crossword.size();
        proof {
            let b = bounds_of(crossword@);
            assert(size.x as int == b.1.0 - b.0.0 + 1);
            assert(-(COORD_LIMIT as int) <= b.0.0 <= b.1.0 < COORD_LIMIT as int);
            assert(1 <= size.x as int <= 2 * (COORD_LIMIT as int));
            assert(1 <= size.y as int <= 2 * (COORD_LIMIT as int));
            assert((size.x as int) * (size.y as int) <= 0x1_0000_0000_0000_0000)
                by (nonlinear_arith)
                requires
                    1 <= size.x as int <= 0x1_0000_0000,
                    1 <= size.y as int <= 0x1_0000_0000,
            ;
        }
        let cell_count: i128 = size.x as i128 * size.y as i128;
        if cell_count <= usize::MAX as i128 {
            Some(Session::new(crossword))
        } else {
            None
        }
    }

    /// The placed words.
    pub fn crossword(&self) -> (r: &Crossword)
        ensures
            r@ == self@.words,
    {
        &self.crossword
    }

    /// The projected grid.
    pub fn grid(&self) -> (r: &Grid)
        ensures
            r.cells@ == self@.cells,
            r.width as int == self@.width,
            r.height as int == self@.height,
            (r.origin.x as int, r.origin.y as int) == self@.origin,
    {
        &self.grid
    }

    /// The solution map: one entry per cell, `None` where nothing has
    /// been entered.
    pub fn entries(&self) -> (r: &Vec<Option<char>>)
        ensures
            r@ == self@.entries,
    {
        &self.entries
    }

    /// The selected cell, if any.
    pub fn selection(&self) -> (r: Option<usize>)
        ensures
            self@.selection == match r {
                None => None::<int>,
                Some(s) => Some(s as int),
            },
    {
        self.selection
    }

    /// The direction of the last accepted movement.
    pub fn last_direction(&self) -> (r: Direction)
        ensures
            r == self@.last_direction,
    {
        self.last_direction
    }

    /// Select a cell, deselect it if it was already selected, or do
    /// nothing on a block or outside the grid.
    pub fn select(&mut self, cell: usize)
        requires
            session_wf(old(self)@),
        ensures
            session_wf(final(self)@),
            final(self)@ == select_spec(old(self)@, cell as int),
    {
        if cell >= self.grid.cells.len() {
            return ;
        }
        if self.grid.cells[cell].is_none() {
            return ;
        }
        match self.selection {
            Some(s) if s == cell => {
                self.selection = None;
            },
            _ => {
                self.selection = Some(cell);
            },
        }
    }

    /// Flip the tracked direction, as a pointer press on a cell does
    /// before the selection updates.
    pub fn toggle_direction(&mut self)
        requires
            session_wf(old(self)@),
        ensures
            session_wf(final(self)@),
            final(self)@ == (SessionModel {
                last_direction: old(self)@.last_direction.spec_other(),
                ..old(self)@
            }),
    {
        self.last_direction = self.last_direction.other();
    }

    /// Clear the selection.
    pub fn escape(&mut self)
        requires
            session_wf(old(self)@),
        ensures
            session_wf(final(self)@),
            final(self)@ == escape_spec(old(self)@),
    {
        self.selection = None;
    }

    /// Move the selection one cell, rejecting — with no state change —
    /// a move off the grid, across a row boundary, or onto a block.
    pub fn move_selection(&mut self, mv: Move)
        requires
            session_wf(old(self)@),
        ensures
            session_wf(final(self)@),
            final(self)@ == move_spec(old(self)@, mv),
    {
        let s = match self.selection {
            None => {
                return ;
            },
            Some(s) => s,
        };
        let w = self.grid.width;
        let h = self.grid.height;
        proof {
            lemma_move_target_in_range(self@, mv, s as int);
            assert(w * (h - 1) <= w * h) by (nonlinear_arith)
                requires
                    1 <= h,
                    0 <= w,
            ;
        }
        let target: Option<usize> = match mv {
            Move::Left => if s % w == 0 {
                None
            } else {
                Some(s - 1)
            },
            Move::Right => if s % w == w - 1 {
                None
            } else {
                Some(s + 1)
            },
            Move::Up => if s < w {
                None
            } else {
                Some(s - w)
            },
            Move::Down => if s >= w * (h - 1) {
                None
            } else {
                Some(s + w)
            },
        };
        let t = match target {
            None => {
                return ;
            },
            Some(t) => t,
        };
        if self.grid.cells[t].is_none() {
            return ;
        }
        self.last_direction = match mv {
            Move::Left | Move::Right => Direction::Across,
            Move::Up | Move::Down => Direction::Down,
        };
        self.selection = Some(t);
    }

    /// The word highlighted for the cell at index `s`.
    fn preferred_index(&self, s: usize) -> (r: Option<usize>)
        requires
            session_wf(self@),
            s < self@.cells.len(),
        ensures
            r == preferred_at(self@, s as int),
    {
        let x = s % self.grid.width;
        let y = s / self.grid.width;
        proof {
            assert(s as int / (self.grid.width as int) < self.grid.height as int)
                by (nonlinear_arith)
                requires
                    (s as int) < (self.grid.width as int) * (self.grid.height as int),
                    1 <= self.grid.width as int,
                    0 <= s as int,
            ;
            assert(y as int == s as int / (self.grid.width as int));
            assert(x as int == s as int % (self.grid.width as int));
            assert(x < self.grid.width);
        }
        let position = Vec2 {
            x: self.grid.origin.x + x as i64,
            y: self.grid.origin.y + y as i64,
        };
        proof {
            assert((position.x as int, position.y as int) == cell_pos(self@, s as int));
        }
        let covering = self.crossword.words_at(position);
        proof {
            lemma_covering_indices(
                self@.words,
                cell_pos(self@, s as int),
                self@.words.len() as int,
            );
        }
        find_or_first_by_direction(&covering, &self.crossword.words, self.last_direction)
    }

    /// The currently highlighted word, as an index into the placed
    /// words: among the words covering the selected cell, prefer the one
    /// running along the last used direction, else take the first.
    pub fn highlighted_word(&self) -> (r: Option<usize>)
        requires
            session_wf(self@),
        ensures
            r == match self@.selection {
                None => None::<usize>,
                Some(s) => preferred_at(self@, s),
            },
    {
        match self.selection {
            None => None,
            Some(s) => self.preferred_index(s),
        }
    }

    /// Type a letter: write its uppercase form at the selection, then
    /// step the cursor one cell forward along the matched word, staying
    /// put when that step is rejected.  A no-op without a selection or
    /// for a key that is not an ASCII letter.
    pub fn type_letter(&mut self, c: char)
        requires
            session_wf(old(self)@),
        ensures
            session_wf(final(self)@),
            final(self)@ == type_spec(old(self)@, c),
    {
        let s = match self.selection {
            None => {
                return ;
            },
            Some(s) => s,
        };
        let u = c as u32;
        if !((65 <= u && u <= 90) || (97 <= u && u <= 122)) {
            return ;
        }
        let up = upper_char_exec(c);
        self.entries[s] = Some(up);
        proof {
            assert(session_wf(self@));
            assert(preferred_at(self@, s as int) == preferred_at(old(self)@, s as int));
        }
        let wi = match self.preferred_index(s) {
            None => {
                return ;
            },
            Some(wi) => wi,
        };
        proof {
            let idxs = covering_indices(
                self@.words,
                cell_pos(self@, s as int),
                self@.words.len() as int,
            );
            lemma_preferred_in(self@.words, idxs, self@.last_direction);
            lemma_covering_indices(
                self@.words,
                cell_pos(self@, s as int),
                self@.words.len() as int,
            );
            let k = choose|k: int| 0 <= k < idxs.len() && #[trigger] idxs[k] == wi;
            assert(idxs[k] < self@.words.len());
            assert(wi < self@.words.len());
        }
        let d = self.crossword.words[wi].direction;
        proof {
            assert(self@.words[wi as int] == self.crossword.words@[wi as int]@);
        }
        let mv = match d {
            Direction::Across => Move::Right,
            Direction::Down => Move::Down,
        };
        self.move_selection(mv);
    }

    /// Backspace: clear the entry at the selection, then step the cursor
    /// one cell backward along the matched word, staying put when that
    /// step is rejected.  A no-op without a selection.
    pub fn backspace(&mut self)
        requires
            session_wf(old(self)@),
        ensures
            session_wf(final(self)@),
            final(self)@ == backspace_spec(old(self)@),
    {
        let s = match self.selection {
            None => {
                return ;
            },
            Some(s) => s,
        };
        self.entries[s] = None;
        proof {
            assert(session_wf(self@));
            assert(preferred_at(self@, s as int) == preferred_at(old(self)@, s as int));
        }
        let wi = match self.preferred_index(s) {
            None => {
                return ;
            },
            Some(wi) => wi,
        };
        proof {
            let idxs = covering_indices(
                self@.words,
                cell_pos(self@, s as int),
                self@.words.len() as int,
            );
            lemma_preferred_in(self@.words, idxs, self@.last_direction);
            lemma_covering_indices(
                self@.words,
                cell_pos(self@, s as int),
                self@.words.len() as int,
            );
            let k = choose|k: int| 0 <= k < idxs.len() && #[trigger] idxs[k] == wi;
            assert(idxs[k] < self@.words.len());
            assert(wi < self@.words.len());
        }
        let d = self.crossword.words[wi].direction;
        proof {
            assert(self@.words[wi as int] == self.crossword.words@[wi as int]@);
        }
        let mv = match d {
            Direction::Across => Move::Left,
            Direction::Down => Move::Up,
        };
        self.move_selection(mv);
    }

    /// Whether the puzzle is solved: at least one open cell exists and
    /// every open cell's entry equals the grid's letter there.
    pub fn is_correct(&self) -> (r: bool)
        requires
            session_wf(self@),
        ensures
            r == correct_spec(self@),
    {
        let n = self.grid.cells.len();
        let mut any_open = false;
        let mut all_match = true;
        let mut i: usize = 0;
        while i < n
            invariant
                session_wf(self@),
                n == self@.cells.len(),
                0 <= i <= n,
                any_open == exists|k: int| 0 <= k < i && (#[trigger] self@.cells[k]) is Some,
                all_match == forall|k: int|
                    0 <= k < i && (#[trigger] self@.cells[k]) is Some
                        ==> self@.entries[k] == Some(self@.cells[k].unwrap().0),
            decreases n - i,
        {
            if let Some(pair) = self.grid.cells[i] {
                any_open = true;
                let good = match self.entries[i] {
                    Some(ch) => ch == pair.0,
                    None => false,
                };
                if !good {
                    all_match = false;
                }
            }
            i = i + 1;
        }
        any_open && all_match
    }

    /// Whether the correctness check may be requested: at least one open
    /// cell exists and no open cell is still unentered.
    pub fn check_enabled(&self) -> (r: bool)
        requires
            session_wf(self@),
        ensures
            r == check_enabled_spec(self@),
    {
        let n = self.grid.cells.len();
        let mut any_open = false;
        let mut all_entered = true;
        let mut i: usize = 0;
        while i < n
            invariant
                session_wf(self@),
                n == self@.cells.len(),
                0 <= i <= n,
                any_open == exists|k: int| 0 <= k < i && (#[trigger] self@.cells[k]) is Some,
                all_entered == forall|k: int|
                    0 <= k < i && (#[trigger] self@.cells[k]) is Some ==> self@.entries[k]
                        is Some,
            decreases n - i,
        {
            if self.grid.cells[i].is_some() {
                any_open = true;
                if self.entries[i].is_none() {
                    all_entered = false;
                }
            }
            i = i + 1;
        }
        any_open && all_entered
    }
}

} // verus!
