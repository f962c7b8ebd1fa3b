//! The library's global guarantees, stated and proved over the models
//! that the public contracts use: what the builder promises about every
//! generated crossword, and what the solving session promises about
//! every sequence of inputs.

use vstd::prelude::*;

use crate::builder::build_model;
use crate::builder::first_word_model;
use crate::builder::next_state;
use crate::builder::shuffle_rec;
use crate::builder::swap_seq;
use crate::builder::lemma_place_upto_shape;
use crate::builder::lemma_sort_desc_props;
use crate::builder::norm_entries;
use crate::builder::norm_seq;
use crate::builder::seed_of;
use crate::builder::sort_desc;
use crate::builder::upper_char;
use crate::crossword::bounds_of;
use crate::crossword::crossword_wf;
use crate::crossword::lemma_bounds_contain;
use crate::geometry::Direction;
use crate::geometry::Vec2;
use crate::session::Move;
use crate::session::SessionModel;
use crate::session::backspace_spec;
use crate::session::check_enabled_spec;
use crate::session::correct_spec;
use crate::session::is_ascii_letter;
use crate::session::move_spec;
use crate::session::select_spec;
use crate::session::session_wf;
use crate::session::type_spec;
use crate::word::WordModel;

verus! {

/// Rebuilding from identical input yields an identical placement: the
/// whole pipeline is the function `build_model`, and `build` returns
/// exactly `build_model` of its input, so two builds from equal inputs
/// agree on every placed word.
pub proof fn lemma_build_deterministic(
    raw1: Seq<(Seq<char>, Seq<char>)>,
    raw2: Seq<(Seq<char>, Seq<char>)>,
)
    requires
        raw1 == raw2,
    ensures
        build_model(raw1) == build_model(raw2),
{
}

/// The builder never places more words than it was given, and its first
/// placed word is a longest answer, placed across the origin.
pub proof fn lemma_builder_first_word(raw: Seq<(Seq<char>, Seq<char>)>)
    requires
        1 <= raw.len(),
    ensures
        1 <= build_model(raw).len() <= raw.len(),
        build_model(raw)[0] == first_word_model(sort_desc(norm_entries(raw))[0]),
        build_model(raw)[0].pos == (0int, 0int),
        build_model(raw)[0].direction == Direction::Across,
        forall|k: int|
            0 <= k < raw.len() ==> build_model(raw)[0].answer.len() >= norm_seq(
                (#[trigger] raw[k]).0,
            ).len(),
{
    let ne = norm_entries(raw);
    let sorted = sort_desc(ne);
    lemma_sort_desc_props(ne);
    lemma_place_upto_shape(sorted, seed_of(raw, raw.len() as int), raw.len() as int);
    assert forall|k: int| 0 <= k < raw.len() implies build_model(raw)[0].answer.len()
        >= norm_seq((#[trigger] raw[k]).0).len() by {
        assert(ne[k].answer == norm_seq(raw[k].0));
        assert(ne.contains(ne[k]));
        assert(sorted.contains(ne[k]));
        let m = choose|m: int| 0 <= m < sorted.len() && sorted[m] == ne[k];
        assert(sorted[0].answer.len() >= sorted[m].answer.len());
    }
}

/// A crossword whose first word anchors at the origin — as every built
/// crossword does — spans a bounding box whose minimum corner lies at or
/// before the origin in both coordinates.
pub proof fn lemma_origin_within_bounds(ws: Seq<WordModel>)
    requires
        crossword_wf(ws),
        ws[0].pos == (0int, 0int),
    ensures
        bounds_of(ws).0.0 <= 0 <= bounds_of(ws).1.0,
        bounds_of(ws).0.1 <= 0 <= bounds_of(ws).1.1,
{
    lemma_bounds_contain(ws);
    assert(bounds_of(ws).0.0 <= ws[0].pos.0);
    assert(bounds_of(ws).0.1 <= ws[0].pos.1);
}

/// The deterministic shuffle of the candidate list is a permutation: it
/// keeps the length and the multiset of candidates, whatever the
/// generator state.
pub proof fn lemma_shuffle_is_permutation(s: Seq<(Direction, Vec2)>, st: u64, i: int)
    requires
        s.len() <= u64::MAX,
    ensures
        shuffle_rec(s, st, i).0.len() == s.len(),
        shuffle_rec(s, st, i).0.to_multiset() == s.to_multiset(),
    decreases i,
{
    broadcast use vstd::seq_lib::to_multiset_update;
    broadcast use vstd::seq_lib::group_to_multiset_ensures;
    broadcast use vstd::multiset::group_multiset_axioms;

    if 0 < i < s.len() {
        let st1 = next_state(st);
        let j = ((st1 >> 33) % ((i + 1) as u64)) as int;
        assert(0 <= j <= i);
        let s1 = s.update(i, s[j]);
        let s2 = swap_seq(s, i, j);
        assert(s1.to_multiset() == s.to_multiset().insert(s[j]).remove(s[i]));
        assert(s2.to_multiset() == s1.to_multiset().insert(s[i]).remove(s1[j]));
        assert(s.contains(s[i]) && s.contains(s[j]));
        assert(s.to_multiset().count(s[i]) > 0 && s.to_multiset().count(s[j]) > 0);
        assert(s2.to_multiset() =~= s.to_multiset());
        lemma_shuffle_is_permutation(s2, st1, i - 1);
        assert(shuffle_rec(s, st, i) == shuffle_rec(s2, st1, i - 1));
    }
}

/// Selecting a block cell, or a cell outside the grid, changes nothing.
pub proof fn lemma_select_block_is_noop(m: SessionModel, cell: int)
    requires
        !(0 <= cell < m.cells.len()) || m.cells[cell] is None,
    ensures
        select_spec(m, cell) == m,
{
}

/// Movement is rejected, not wrapped, at every edge: a move that would
/// cross a row boundary or leave the grid leaves the whole session state
/// unchanged.
pub proof fn lemma_moves_rejected_at_edges(m: SessionModel, s: int)
    requires
        session_wf(m),
        m.selection == Some(s),
    ensures
        s % m.width == 0 ==> move_spec(m, Move::Left) == m,
        s % m.width == m.width - 1 ==> move_spec(m, Move::Right) == m,
        s < m.width ==> move_spec(m, Move::Up) == m,
        s >= m.width * (m.height - 1) ==> move_spec(m, Move::Down) == m,
{
}

/// Typing a letter and then pressing backspace on the same cell restores
/// the solution map: this holds when the cell held no entry beforehand
/// and the implicit forward step after typing was rejected, so that the
/// backspace clears the very cell that was typed into.
pub proof fn lemma_type_then_backspace_restores(m: SessionModel, c: char)
    requires
        session_wf(m),
        m.selection is Some,
        m.entries[m.selection.unwrap()] is None,
        is_ascii_letter(c),
        type_spec(m, c).selection == m.selection,
    ensures
        backspace_spec(type_spec(m, c)).entries == m.entries,
{
    let s = m.selection.unwrap();
    let m1 = SessionModel { entries: m.entries.update(s, Some(upper_char(c))), ..m };
    let t = type_spec(m, c);
    assert(t.entries == m1.entries && t.selection == Some(s)) by {
        match crate::session::preferred_at(m, s) {
            None => {},
            Some(wi) => {
                let mv = crate::session::axis_forward(m.words[wi as int].direction);
                match m1.selection {
                    None => {},
                    Some(s1) => {
                        match crate::session::move_target(m1, mv, s1) {
                            None => {},
                            Some(tg) => {
                                if 0 <= tg < m1.cells.len() && m1.cells[tg] is Some {
                                    assert(t.selection == Some(tg));
                                    assert(tg != s);
                                    assert(false);
                                }
                            },
                        }
                    },
                }
            },
        }
    }
    let b = backspace_spec(t);
    assert(b.entries == t.entries.update(s, None)) by {
        match crate::session::preferred_at(t, s) {
            None => {},
            Some(_) => {},
        }
    }
    assert(b.entries =~= m.entries);
}

/// The correctness check can never report success while some open cell
/// is still unentered, and the check is not even offered then.
pub proof fn lemma_unentered_cell_is_never_correct(m: SessionModel, k: int)
    requires
        session_wf(m),
        0 <= k < m.cells.len(),
        m.cells[k] is Some,
        m.entries[k] is None,
    ensures
        !correct_spec(m),
        !check_enabled_spec(m),
{
    assert(m.entries[k] != Some(m.cells[k].unwrap().0));
}

} // verus!
