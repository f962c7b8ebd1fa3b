//! The crossword builder: a deterministic placement search that turns an
//! ordered list of (answer, clue) pairs into a well-formed crossword.
//! Answers are normalized to uppercase, sorted by descending length
//! (stable), and placed one at a time: the longest word goes across the
//! origin, and each later word is tried at every candidate crossing with
//! every already-placed word, in an order shuffled by a permutation seeded
//! from the input text, so that the same input always yields the same
//! layout.  A word with no legal placement is silently dropped.

use vstd::prelude::*;

use crate::crossword::Crossword;
use crate::crossword::crossword_wf;
use crate::geometry::Direction;
use crate::geometry::Vec2;
use crate::word::COORD_LIMIT;
use crate::word::lemma_compatible_symmetric;
use crate::word::lemma_words_view_push;
use crate::word::Word;
use crate::word::WordModel;
use crate::word::compatible;
use crate::word::is_upper_alpha;
use crate::word::word_in_limit;
use crate::word::word_valid;
use crate::word::words_view;

verus! {

/// Why an input list was rejected.
#[derive(Debug, Clone, Copy, PartialEq, Eq, Structural)]
pub enum BuildError {
    /// The input list was empty: there is nothing to anchor the layout on.
    EmptyInput,
    /// Some answer was empty or held a character that is not an ASCII
    /// letter.
    InvalidAnswer,
}

/// One input pair after normalization: the uppercased answer and its clue.
pub struct Entry {
    pub answer: Vec<char>,
    pub clue: String,
}

/// The mathematical value of a normalized input pair.
pub struct EntryModel {
    pub answer: Seq<char>,
    pub clue: Seq<char>,
}

impl View for Entry {
    type V = EntryModel;

    open spec fn view(&self) -> EntryModel {
        EntryModel { answer: self.answer@, clue: self.clue@ }
    }
}

/// The mathematical value of a sequence of normalized input pairs.
pub open spec fn entries_view(s: Seq<Entry>) -> Seq<EntryModel> {
    Seq::new(s.len(), |i: int| s[i]@)
}

/// Appending an entry appends its model.
pub proof fn lemma_entries_view_push(s: Seq<Entry>, e: Entry)
    ensures
        entries_view(s.push(e)) == entries_view(s).push(e@),
{
    assert forall|m: int| 0 <= m < s.push(e).len() implies entries_view(s.push(e))[m]
        == entries_view(s).push(e@)[m] by {
        if m < s.len() {
            assert(s.push(e)[m] == s[m]);
        } else {
            assert(s.push(e)[m] == e);
        }
    }
    assert(entries_view(s.push(e)) =~= entries_view(s).push(e@));
}

/// Lowercase ASCII letters map to their uppercase form; every other
/// character is unchanged.
pub open spec fn upper_char(c: char) -> char {
    if 97 <= c as u32 <= 122 {
        ((c as u32 - 32) as char)
    } else {
        c
    }
}

/// The uppercased form of a whole answer.
pub open spec fn norm_seq(s: Seq<char>) -> Seq<char> {
    Seq::new(s.len(), |i: int| upper_char(s[i]))
}

/// A normalized answer is acceptable: non-empty and all uppercase ASCII
/// letters.
pub open spec fn answer_ok(a: Seq<char>) -> bool {
    &&& 1 <= a.len()
    &&& forall|i: int| 0 <= i < a.len() ==> is_upper_alpha(#[trigger] a[i])
}

/// The raw input as a whole is acceptable: non-empty, every answer
/// acceptable once normalized.
pub open spec fn input_ok(raw: Seq<(Seq<char>, Seq<char>)>) -> bool {
    &&& 1 <= raw.len()
    &&& forall|k: int| 0 <= k < raw.len() ==> answer_ok(norm_seq((#[trigger] raw[k]).0))
}

/// The mathematical value of the raw input pairs.
pub open spec fn pairs_view(s: Seq<(String, String)>) -> Seq<(Seq<char>, Seq<char>)> {
    Seq::new(s.len(), |i: int| (s[i].0@, s[i].1@))
}

/// The total length of all raw answers.
pub open spec fn sum_raw(raw: Seq<(Seq<char>, Seq<char>)>) -> int
    decreases raw.len(),
{
    if raw.len() == 0 {
        0
    } else {
        raw[0].0.len() + sum_raw(raw.drop_first())
    }
}

/// The total length of all normalized answers.
pub open spec fn sum_em(s: Seq<EntryModel>) -> int
    decreases s.len(),
{
    if s.len() == 0 {
        0
    } else {
        s[0].answer.len() + sum_em(s.drop_first())
    }
}

/// The normalized form of the whole raw input.
pub open spec fn norm_entries(raw: Seq<(Seq<char>, Seq<char>)>) -> Seq<EntryModel> {
    Seq::new(raw.len(), |k: int| EntryModel { answer: norm_seq(raw[k].0), clue: raw[k].1 })
}

/// One multiply-and-fold step of the seed hash.
pub open spec fn fnv_step(h: u64, v: u64) -> u64 {
    vstd::wrapping::u64_specs::wrapping_mul(h ^ v, 0x100_0000_01b3u64)
}

/// The seed hash folded over the first `n` characters of `s`.
pub open spec fn hash_chars(h: u64, s: Seq<char>, n: int) -> u64
    decreases n,
{
    if n <= 0 {
        h
    } else {
        fnv_step(hash_chars(h, s, n - 1), s[n - 1] as u64)
    }
}

/// The seed hash folded over one (answer, clue) pair's characters, with a
/// separator after each field.
pub open spec fn hash_pair(h: u64, e: (Seq<char>, Seq<char>)) -> u64 {
    fnv_step(
        hash_chars(fnv_step(hash_chars(h, e.0, e.0.len() as int), 10), e.1, e.1.len() as int),
        10,
    )
}

/// The shuffle seed: a hash of the full text of the first `k` input
/// pairs, so that the same input always seeds the same permutation.
pub open spec fn seed_of(raw: Seq<(Seq<char>, Seq<char>)>, k: int) -> u64
    decreases k,
{
    if k <= 0 {
        0xcbf2_9ce4_8422_2325u64
    } else {
        hash_pair(seed_of(raw, k - 1), raw[k - 1])
    }
}

/// One step of the layout generator: a linear congruential step.
#[verifier::opaque]
pub open spec fn next_state(s: u64) -> u64 {
    vstd::wrapping::u64_specs::wrapping_add(
        vstd::wrapping::u64_specs::wrapping_mul(s, 0x5851_f42d_4c95_7f2d),
        0x1405_7b7e_f767_814f,
    )
}

/// The sequence with the values at `i` and `j` exchanged.
pub open spec fn swap_seq(s: Seq<(Direction, Vec2)>, i: int, j: int) -> Seq<(Direction, Vec2)> {
    s.update(i, s[j]).update(j, s[i])
}

/// The deterministic permutation of the candidate list: a Fisher-Yates
/// walk from position `i` down to position 1, drawing each partner index
/// from the generator.  Returns the permuted list and the generator state
/// after the walk.
pub open spec fn shuffle_rec(s: Seq<(Direction, Vec2)>, st: u64, i: int) -> (
    Seq<(Direction, Vec2)>,
    u64,
)
    decreases i,
{
    if i <= 0 || i >= s.len() {
        (s, st)
    } else {
        let st1 = next_state(st);
        let j = ((st1 >> 33) % ((i + 1) as u64)) as int;
        shuffle_rec(swap_seq(s, i, j), st1, i - 1)
    }
}

/// The deterministic permutation of the whole candidate list.
pub open spec fn shuffle_full(s: Seq<(Direction, Vec2)>, st: u64) -> (
    Seq<(Direction, Vec2)>,
    u64,
) {
    shuffle_rec(s, st, s.len() - 1)
}

/// One multiply-and-fold step of the seed hash.
fn fnv_step_exec(h: u64, v: u64) -> (r: u64)
    ensures
        r == fnv_step(h, v),
{
    (h ^ v).wrapping_mul(0x100_0000_01b3u64)
}

/// Fold the seed hash over a string.
fn hash_str(h: u64, s: &String) -> (r: u64)
    ensures
        r == hash_chars(h, s@, s@.len() as int),
{
    let n = s.as_str().unicode_len();
    let mut acc = h;
    let mut i: usize = 0;
    while i < n
        invariant
            n == s@.len(),
            0 <= i <= n,
            acc == hash_chars(h, s@, i as int),
        decreases n - i,
    {
        let c = s.as_str().get_char(i);
        acc = fnv_step_exec(acc, c as u64);
        i = i + 1;
    }
    acc
}

/// The shuffle seed of the whole input.
fn seed_of_exec(entries: &Vec<(String, String)>) -> (r: u64)
    ensures
        r == seed_of(pairs_view(entries@), entries@.len() as int),
{
    let n = entries.len();
    let mut acc: u64 = 0xcbf2_9ce4_8422_2325u64;
    let mut k: usize = 0;
    while k < n
        invariant
            n == entries@.len(),
            0 <= k <= n,
            acc == seed_of(pairs_view(entries@), k as int),
        decreases n - k,
    {
        proof {
            assert(pairs_view(entries@)[k as int] == (entries@[k as int].0@, entries@[
                k as int
            ].1@));
        }
        acc = hash_str(acc, &entries[k].0);
        acc = fnv_step_exec(acc, 10);
        acc = hash_str(acc, &entries[k].1);
        acc = fnv_step_exec(acc, 10);
        k = k + 1;
    }
    acc
}

/// One step of the layout generator.
fn next_state_exec(s: u64) -> (r: u64)
    ensures
        r == next_state(s),
{
    proof {
        reveal(next_state);
    }
    s.wrapping_mul(0x5851_f42d_4c95_7f2d).wrapping_add(0x1405_7b7e_f767_814f)
}

/// Unfolding the permutation one step.
proof fn lemma_shuffle_step(s: Seq<(Direction, Vec2)>, st: u64, i: int)
    requires
        1 <= i < s.len(),
    ensures
        shuffle_rec(s, st, i) == shuffle_rec(
            swap_seq(s, i, ((next_state(st) >> 33) % ((i + 1) as u64)) as int),
            next_state(st),
            i - 1,
        ),
{
}

/// Permute the candidate list deterministically from the given generator
/// state.
#[verifier::rlimit(100)]
fn shuffle_cands(v: Vec<(Direction, Vec2)>, st: u64) -> (r: (Vec<(Direction, Vec2)>, u64))
    ensures
        (r.0@, r.1) == shuffle_full(v@, st),
{
    let mut v = v;
    let mut st = st;
    let ghost orig = v@;
    let ghost st0 = st;
    if v.len() == 0 {
        return (v, st);
    }
    let mut i: usize = v.len() - 1;
    while i > 0
        invariant
            v@.len() == orig.len(),
            v@.len() <= usize::MAX,
            0 <= i < v@.len(),
            shuffle_rec(v@, st, i as int) == shuffle_rec(orig, st0, orig.len() - 1),
        decreases i,
    {
        let ghost v_old = v@;
        let ghost st_old = st;
        st = next_state_exec(st);
        let m: u64 = i as u64 + 1;
        proof {
            assert(m == (i + 1) as u64);
        }
        let j = ((st >> 33) % m) as usize;
        let a = v[i];
        let b = v[j];
        v[i] = b;
        v[j] = a;
        proof {
            assert(j as int == ((next_state(st_old) >> 33) % ((i + 1) as u64)) as int);
            assert(v@ == swap_seq(v_old, i as int, j as int));
            lemma_shuffle_step(v_old, st_old, i as int);
            assert(shuffle_rec(v_old, st_old, i as int) == shuffle_rec(v@, st, i - 1));
        }
        i = i - 1;
    }
    (v, st)
}

/// The candidate placement that aligns letter `j` of the new answer with
/// letter `i` of the placed word `e`, running perpendicular to `e`.
pub open spec fn cand_at(e: WordModel, i: int, j: int) -> (Direction, Vec2) {
    match e.direction {
        Direction::Across => (
            Direction::Down,
            Vec2 { x: (e.pos.0 + i) as i64, y: (e.pos.1 - j) as i64 },
        ),
        Direction::Down => (
            Direction::Across,
            Vec2 { x: (e.pos.0 - j) as i64, y: (e.pos.1 + i) as i64 },
        ),
    }
}

/// The candidates aligning one of the first `j` letters of the new answer
/// `a` with letter `i` of the placed word `e`.
pub open spec fn cands_j(e: WordModel, a: Seq<char>, i: int, j: int) -> Seq<(Direction, Vec2)>
    decreases j,
{
    if j <= 0 {
        Seq::empty()
    } else if e.answer[i] == a[j - 1] {
        cands_j(e, a, i, j - 1).push(cand_at(e, i, j - 1))
    } else {
        cands_j(e, a, i, j - 1)
    }
}

/// The candidates pairing any letter of `a` with one of the first `i`
/// letters of the placed word `e`.
pub open spec fn cands_i(e: WordModel, a: Seq<char>, i: int) -> Seq<(Direction, Vec2)>
    decreases i,
{
    if i <= 0 {
        Seq::empty()
    } else {
        cands_i(e, a, i - 1) + cands_j(e, a, i - 1, a.len() as int)
    }
}

/// All candidate placements of the new answer `a` against the first `k`
/// placed words, in enumeration order.
pub open spec fn cands_all(ws: Seq<WordModel>, a: Seq<char>, k: int) -> Seq<(Direction, Vec2)>
    decreases k,
{
    if k <= 0 {
        Seq::empty()
    } else {
        cands_all(ws, a, k - 1) + cands_i(ws[k - 1], a, ws[k - 1].answer.len() as int)
    }
}

/// The model of a word placed at a candidate position; the clue plays no
/// part in placement legality, so it is left empty here.
pub open spec fn cand_model(ans: Seq<char>, c: (Direction, Vec2)) -> WordModel {
    WordModel {
        answer: ans,
        clue: Seq::empty(),
        direction: c.0,
        pos: (c.1.x as int, c.1.y as int),
    }
}

/// The candidate word may legally stand beside every placed word.
pub open spec fn all_compat(ws: Seq<WordModel>, w: WordModel) -> bool {
    forall|k: int| 0 <= k < ws.len() ==> compatible(w, #[trigger] ws[k])
}

/// Whether two word models that differ only in their clue are compatible
/// with the same words.
pub proof fn lemma_compatible_ignores_clue(m1: WordModel, m2: WordModel, b: WordModel)
    requires
        m1.answer == m2.answer,
        m1.direction == m2.direction,
        m1.pos == m2.pos,
    ensures
        compatible(m1, b) == compatible(m2, b),
        compatible(b, m1) == compatible(b, m2),
{
}

/// The first legal candidate among the first `m`, scanned left to right.
pub open spec fn scan_legal(
    cands: Seq<(Direction, Vec2)>,
    ws: Seq<WordModel>,
    ans: Seq<char>,
    m: int,
) -> Option<(Direction, Vec2)>
    decreases m,
{
    if m <= 0 {
        None
    } else {
        match scan_legal(cands, ws, ans, m - 1) {
            Some(c) => Some(c),
            None => if all_compat(ws, cand_model(ans, cands[m - 1])) {
                Some(cands[m - 1])
            } else {
                None
            },
        }
    }
}

/// Once the scan has found a candidate, scanning further does not change
/// the choice.
pub proof fn lemma_scan_stable(
    cands: Seq<(Direction, Vec2)>,
    ws: Seq<WordModel>,
    ans: Seq<char>,
    m: int,
    m2: int,
)
    requires
        0 <= m <= m2,
        scan_legal(cands, ws, ans, m) is Some,
    ensures
        scan_legal(cands, ws, ans, m2) == scan_legal(cands, ws, ans, m),
    decreases m2 - m,
{
    if m < m2 {
        lemma_scan_stable(cands, ws, ans, m, m2 - 1);
    }
}

/// Every cell of a word of length `alen` anchored at `p` stays within
/// `[-b, b]` in both coordinates.
pub open spec fn anchor_bounded(p: Vec2, alen: int, b: int) -> bool {
    &&& -b <= p.x as int
    &&& -b <= p.y as int
    &&& p.x + alen <= b
    &&& p.y + alen <= b
}

/// Every cell of the word stays within `[-b, b]` in both coordinates.
pub open spec fn word_within(w: WordModel, b: int) -> bool {
    &&& -b <= w.pos.0
    &&& -b <= w.pos.1
    &&& w.pos.0 + w.answer.len() <= b
    &&& w.pos.1 + w.answer.len() <= b
}

/// Every placed word stays within `[-b, b]`.
pub open spec fn placed_within(ws: Seq<WordModel>, b: int) -> bool {
    forall|k: int| 0 <= k < ws.len() ==> word_within(#[trigger] ws[k], b)
}

/// Candidates crossing a word within `[-b, b]` anchor a word of length
/// `alen` within `[-(b + alen), b + alen]`.
pub proof fn lemma_cands_j_bounded(e: WordModel, a: Seq<char>, i: int, j: int, b: int)
    requires
        0 <= b,
        b + a.len() <= COORD_LIMIT as int,
        word_within(e, b),
        0 <= i < e.answer.len(),
        j <= a.len(),
    ensures
        forall|k: int|
            0 <= k < cands_j(e, a, i, j).len() ==> anchor_bounded(
                (#[trigger] cands_j(e, a, i, j)[k]).1,
                a.len() as int,
                b + a.len(),
            ),
    decreases j,
{
    if j > 0 {
        lemma_cands_j_bounded(e, a, i, j - 1, b);
        if e.answer[i] == a[j - 1] {
            assert(anchor_bounded(cand_at(e, i, j - 1).1, a.len() as int, b + a.len()));
            assert forall|k: int| 0 <= k < cands_j(e, a, i, j).len() implies anchor_bounded(
                (#[trigger] cands_j(e, a, i, j)[k]).1,
                a.len() as int,
                b + a.len(),
            ) by {
                if k < cands_j(e, a, i, j - 1).len() {
                    assert(cands_j(e, a, i, j)[k] == cands_j(e, a, i, j - 1)[k]);
                } else {
                    assert(cands_j(e, a, i, j)[k] == cand_at(e, i, j - 1));
                }
            }
        }
    }
}

/// As `lemma_cands_j_bounded`, over every letter of the placed word.
pub proof fn lemma_cands_i_bounded(e: WordModel, a: Seq<char>, i: int, b: int)
    requires
        0 <= b,
        b + a.len() <= COORD_LIMIT as int,
        word_within(e, b),
        i <= e.answer.len(),
    ensures
        forall|k: int|
            0 <= k < cands_i(e, a, i).len() ==> anchor_bounded(
                (#[trigger] cands_i(e, a, i)[k]).1,
                a.len() as int,
                b + a.len(),
            ),
    decreases i,
{
    if i > 0 {
        lemma_cands_i_bounded(e, a, i - 1, b);
        lemma_cands_j_bounded(e, a, i - 1, a.len() as int, b);
        assert forall|k: int| 0 <= k < cands_i(e, a, i).len() implies anchor_bounded(
            (#[trigger] cands_i(e, a, i)[k]).1,
            a.len() as int,
            b + a.len(),
        ) by {
            if k < cands_i(e, a, i - 1).len() {
                assert(cands_i(e, a, i)[k] == cands_i(e, a, i - 1)[k]);
            } else {
                assert(cands_i(e, a, i)[k] == cands_j(e, a, i - 1, a.len() as int)[k
                    - cands_i(e, a, i - 1).len()]);
            }
        }
    }
}

/// As `lemma_cands_j_bounded`, over every placed word.
pub proof fn lemma_cands_all_bounded(ws: Seq<WordModel>, a: Seq<char>, k: int, b: int)
    requires
        0 <= b,
        b + a.len() <= COORD_LIMIT as int,
        placed_within(ws, b),
        k <= ws.len(),
    ensures
        forall|n: int|
            0 <= n < cands_all(ws, a, k).len() ==> anchor_bounded(
                (#[trigger] cands_all(ws, a, k)[n]).1,
                a.len() as int,
                b + a.len(),
            ),
    decreases k,
{
    if k > 0 {
        lemma_cands_all_bounded(ws, a, k - 1, b);
        lemma_cands_i_bounded(ws[k - 1], a, ws[k - 1].answer.len() as int, b);
        assert forall|n: int| 0 <= n < cands_all(ws, a, k).len() implies anchor_bounded(
            (#[trigger] cands_all(ws, a, k)[n]).1,
            a.len() as int,
            b + a.len(),
        ) by {
            if n < cands_all(ws, a, k - 1).len() {
                assert(cands_all(ws, a, k)[n] == cands_all(ws, a, k - 1)[n]);
            } else {
                assert(cands_all(ws, a, k)[n] == cands_i(
                    ws[k - 1],
                    a,
                    ws[k - 1].answer.len() as int,
                )[n - cands_all(ws, a, k - 1).len()]);
            }
        }
    }
}

/// The permutation reorders the candidates, so a bound on every anchor
/// survives it.
pub proof fn lemma_shuffle_keeps_bound(
    s: Seq<(Direction, Vec2)>,
    st: u64,
    i: int,
    alen: int,
    b: int,
)
    requires
        s.len() <= u64::MAX,
        forall|k: int|
            0 <= k < s.len() ==> anchor_bounded((#[trigger] s[k]).1, alen, b),
    ensures
        forall|k: int|
            0 <= k < shuffle_rec(s, st, i).0.len() ==> anchor_bounded(
                (#[trigger] shuffle_rec(s, st, i).0[k]).1,
                alen,
                b,
            ),
    decreases i,
{
    if 0 < i < s.len() {
        let st1 = next_state(st);
        let j = ((st1 >> 33) % ((i + 1) as u64)) as int;
        assert(0 <= j <= i);
        let s2 = swap_seq(s, i, j);
        assert forall|k: int| 0 <= k < s2.len() implies anchor_bounded(
            (#[trigger] s2[k]).1,
            alen,
            b,
        ) by {
            if k == j {
                assert(s2[k] == s[i]);
            } else if k == i {
                assert(s2[k] == s[j]);
            } else {
                assert(s2[k] == s[k]);
            }
        }
        lemma_shuffle_keeps_bound(s2, st1, i - 1, alen, b);
        assert(shuffle_rec(s, st, i) == shuffle_rec(s2, st1, i - 1));
        assert forall|k: int| 0 <= k < shuffle_rec(s, st, i).0.len() implies anchor_bounded(
            (#[trigger] shuffle_rec(s, st, i).0[k]).1,
            alen,
            b,
        ) by {
            assert(shuffle_rec(s, st, i).0[k] == shuffle_rec(s2, st1, i - 1).0[k]);
        }
    }
}

/// Insertion of one entry into a list sorted by descending answer length,
/// after every entry at least as long: the tie-keeping insertion step of
/// the stable sort.
pub open spec fn insert_desc(s: Seq<EntryModel>, e: EntryModel) -> Seq<EntryModel>
    decreases s.len(),
{
    if s.len() == 0 {
        seq![e]
    } else if s[0].answer.len() >= e.answer.len() {
        seq![s[0]] + insert_desc(s.drop_first(), e)
    } else {
        seq![e] + s
    }
}

/// Stable sort by descending answer length: ties keep their input order.
pub open spec fn sort_desc(s: Seq<EntryModel>) -> Seq<EntryModel>
    decreases s.len(),
{
    if s.len() == 0 {
        Seq::empty()
    } else {
        insert_desc(sort_desc(s.drop_last()), s.last())
    }
}

/// Enumerate every candidate placement of the answer `a` against the
/// already-placed words, in deterministic order.
fn gen_candidates(placed: &Vec<Word>, a: &Vec<char>) -> (r: Vec<(Direction, Vec2)>)
    requires
        forall|k: int|
            0 <= k < placed@.len() ==> word_valid(#[trigger] words_view(placed@)[k])
                && word_in_limit(words_view(placed@)[k]),
        a@.len() <= COORD_LIMIT as int,
    ensures
        r@ == cands_all(words_view(placed@), a@, placed@.len() as int),
{
    let ghost wsv = words_view(placed@);
    let mut out: Vec<(Direction, Vec2)> = Vec::new();
    let nw = placed.len();
    let alen = a.len();
    assert(out@ =~= cands_all(wsv, a@, 0));
    let mut w_idx: usize = 0;
    while w_idx < nw
        invariant
            wsv == words_view(placed@),
            forall|k: int|
                0 <= k < placed@.len() ==> word_valid(#[trigger] wsv[k]) && word_in_limit(
                    wsv[k],
                ),
            nw == placed@.len(),
            alen == a@.len(),
            alen <= COORD_LIMIT as int,
            0 <= w_idx <= nw,
            out@ == cands_all(wsv, a@, w_idx as int),
        decreases nw - w_idx,
    {
        let e = &placed[w_idx];
        proof {
            assert(e@ == wsv[w_idx as int]);
        }
        let elen = e.answer.len();
        let mut i: usize = 0;
        assert(out@ =~= cands_all(wsv, a@, w_idx as int) + cands_i(e@, a@, 0));
        while i < elen
            invariant
                wsv == words_view(placed@),
                nw == placed@.len(),
                0 <= w_idx < nw,
                e == &placed@[w_idx as int],
                e@ == wsv[w_idx as int],
                word_valid(e@),
                word_in_limit(e@),
                elen == e.answer@.len(),
                alen == a@.len(),
                alen <= COORD_LIMIT as int,
                0 <= i <= elen,
                out@ == cands_all(wsv, a@, w_idx as int) + cands_i(e@, a@, i as int),
            decreases elen - i,
        {
            let ec = e.answer[i];
            let mut j: usize = 0;
            assert(cands_j(e@, a@, i as int, 0) =~= Seq::<(Direction, Vec2)>::empty());
            assert(out@ =~= cands_all(wsv, a@, w_idx as int) + cands_i(e@, a@, i as int)
                + cands_j(e@, a@, i as int, 0));
            while j < alen
                invariant
                    wsv == words_view(placed@),
                    nw == placed@.len(),
                    0 <= w_idx < nw,
                    e == &placed@[w_idx as int],
                    e@ == wsv[w_idx as int],
                    word_valid(e@),
                    word_in_limit(e@),
                    elen == e.answer@.len(),
                    0 <= i < elen,
                    ec == e.answer@[i as int],
                    alen == a@.len(),
                    alen <= COORD_LIMIT as int,
                    0 <= j <= alen,
                    out@ == cands_all(wsv, a@, w_idx as int) + cands_i(e@, a@, i as int)
                        + cands_j(e@, a@, i as int, j as int),
                decreases alen - j,
            {
                if ec == a[j] {
                    let c: (Direction, Vec2) = match e.direction {
                        Direction::Across => (
                            Direction::Down,
                            Vec2 { x: e.position.x + i as i64, y: e.position.y - j as i64 },
                        ),
                        Direction::Down => (
                            Direction::Across,
                            Vec2 { x: e.position.x - j as i64, y: e.position.y + i as i64 },
                        ),
                    };
                    proof {
                        assert(c == cand_at(e@, i as int, j as int));
                    }
                    out.push(c);
                }
                proof {
                    assert(out@ =~= cands_all(wsv, a@, w_idx as int) + cands_i(
                        e@,
                        a@,
                        i as int,
                    ) + cands_j(e@, a@, i as int, j + 1));
                }
                j = j + 1;
            }
            proof {
                assert(out@ =~= cands_all(wsv, a@, w_idx as int) + cands_i(e@, a@, i + 1));
            }
            i = i + 1;
        }
        proof {
            assert(out@ =~= cands_all(wsv, a@, w_idx + 1));
        }
        w_idx = w_idx + 1;
    }
    out
}

/// Whether a word with the given answer, direction and anchor may legally
/// stand beside the placed word `b`.
fn compatible_exec(aw: &Vec<char>, adir: Direction, apos: Vec2, b: &Word) -> (r: bool)
    requires
        1 <= aw@.len(),
        anchor_bounded(apos, aw@.len() as int, COORD_LIMIT as int),
        word_valid(b@),
        word_in_limit(b@),
    ensures
        r == compatible(cand_model(aw@, (adir, apos)), b@),
{
    let alen = aw.len();
    let a_end: Vec2 = match adir {
        Direction::Across => Vec2 { x: apos.x + (alen as i64 - 1), y: apos.y },
        Direction::Down => Vec2 { x: apos.x, y: apos.y + (alen as i64 - 1) },
    };
    let blen = b.answer.len();
    let b_end: Vec2 = match b.direction {
        Direction::Across => Vec2 { x: b.position.x + (blen as i64 - 1), y: b.position.y },
        Direction::Down => Vec2 { x: b.position.x, y: b.position.y + (blen as i64 - 1) },
    };
    let overlap = apos.x <= b_end.x && b.position.x <= a_end.x && apos.y <= b_end.y
        && b.position.y <= a_end.y;
    if adir == b.direction {
        !overlap
    } else if !overlap {
        true
    } else {
        let cx: i64;
        let cy: i64;
        match adir {
            Direction::Across => {
                cx = b.position.x;
                cy = apos.y;
            },
            Direction::Down => {
                cx = apos.x;
                cy = b.position.y;
            },
        }
        let ai: usize = match adir {
            Direction::Across => (cx - apos.x) as usize,
            Direction::Down => (cy - apos.y) as usize,
        };
        let bi: usize = match b.direction {
            Direction::Across => (cx - b.position.x) as usize,
            Direction::Down => (cy - b.position.y) as usize,
        };
        aw[ai] == b.answer[bi]
    }
}

/// Whether the candidate word may legally stand beside every placed word.
fn placement_legal(placed: &Vec<Word>, aw: &Vec<char>, adir: Direction, apos: Vec2) -> (r: bool)
    requires
        forall|k: int|
            0 <= k < placed@.len() ==> word_valid(#[trigger] words_view(placed@)[k])
                && word_in_limit(words_view(placed@)[k]),
        1 <= aw@.len(),
        anchor_bounded(apos, aw@.len() as int, COORD_LIMIT as int),
    ensures
        r == all_compat(words_view(placed@), cand_model(aw@, (adir, apos))),
{
    let ghost wsv = words_view(placed@);
    let n = placed.len();
    let mut k: usize = 0;
    while k < n
        invariant
            wsv == words_view(placed@),
            forall|m: int|
                0 <= m < placed@.len() ==> word_valid(#[trigger] wsv[m]) && word_in_limit(
                    wsv[m],
                ),
            n == placed@.len(),
            1 <= aw@.len(),
            anchor_bounded(apos, aw@.len() as int, COORD_LIMIT as int),
            0 <= k <= n,
            forall|m: int|
                0 <= m < k ==> compatible(cand_model(aw@, (adir, apos)), #[trigger] wsv[m]),
        decreases n - k,
    {
        proof {
            assert(placed@[k as int]@ == wsv[k as int]);
        }
        if !compatible_exec(aw, adir, apos, &placed[k]) {
            return false;
        }
        k = k + 1;
    }
    true
}

/// The first placed word: the longest answer, across, anchored at the
/// origin.
pub open spec fn first_word_model(e: EntryModel) -> WordModel {
    WordModel { answer: e.answer, clue: e.clue, direction: Direction::Across, pos: (0, 0) }
}

/// One placement step: enumerate the candidates against the placed words,
/// shuffle them deterministically, and place the new word at the first
/// legal candidate; when none is legal the word is dropped.
pub open spec fn step_place(placed: Seq<WordModel>, st: u64, e: EntryModel) -> (
    Seq<WordModel>,
    u64,
) {
    let cands = cands_all(placed, e.answer, placed.len() as int);
    let shuf = shuffle_full(cands, st);
    match scan_legal(shuf.0, placed, e.answer, shuf.0.len() as int) {
        Some(c) => (
            placed.push(
                WordModel {
                    answer: e.answer,
                    clue: e.clue,
                    direction: c.0,
                    pos: (c.1.x as int, c.1.y as int),
                },
            ),
            shuf.1,
        ),
        None => (placed, shuf.1),
    }
}

/// The placement of the first `k` sorted entries (`k >= 1`), along with
/// the generator state after them.
pub open spec fn place_upto(sorted: Seq<EntryModel>, st0: u64, k: int) -> (Seq<WordModel>, u64)
    decreases k,
{
    if k <= 1 {
        (seq![first_word_model(sorted[0])], st0)
    } else {
        let prev = place_upto(sorted, st0, k - 1);
        step_place(prev.0, prev.1, sorted[k - 1])
    }
}

/// The whole deterministic pipeline, from raw input to placed words.
pub open spec fn build_model(raw: Seq<(Seq<char>, Seq<char>)>) -> Seq<WordModel> {
    place_upto(
        sort_desc(norm_entries(raw)),
        seed_of(raw, raw.len() as int),
        raw.len() as int,
    ).0
}

/// The placement always keeps the first sorted entry as its first word,
/// placed across the origin, and never places more words than it was
/// given.
pub proof fn lemma_place_upto_shape(sorted: Seq<EntryModel>, st0: u64, k: int)
    requires
        1 <= k,
    ensures
        1 <= place_upto(sorted, st0, k).0.len() <= k,
        place_upto(sorted, st0, k).0[0] == first_word_model(sorted[0]),
    decreases k,
{
    if k > 1 {
        lemma_place_upto_shape(sorted, st0, k - 1);
        let prev = place_upto(sorted, st0, k - 1);
        let cands = cands_all(prev.0, sorted[k - 1].answer, prev.0.len() as int);
        let shuf = shuffle_full(cands, prev.1);
        match scan_legal(shuf.0, prev.0, sorted[k - 1].answer, shuf.0.len() as int) {
            Some(c) => {
                assert(place_upto(sorted, st0, k).0 == prev.0.push(
                    WordModel {
                        answer: sorted[k - 1].answer,
                        clue: sorted[k - 1].clue,
                        direction: c.0,
                        pos: (c.1.x as int, c.1.y as int),
                    },
                ));
            },
            None => {},
        }
    }
}

/// A successful scan returns one of the candidates, and that candidate is
/// legal against every placed word.
pub proof fn lemma_scan_some_legal(
    cands: Seq<(Direction, Vec2)>,
    ws: Seq<WordModel>,
    ans: Seq<char>,
    m: int,
)
    requires
        m <= cands.len(),
        scan_legal(cands, ws, ans, m) is Some,
    ensures
        exists|idx: int|
            0 <= idx < m && idx < cands.len() && cands[idx] == scan_legal(
                cands,
                ws,
                ans,
                m,
            ).unwrap(),
        all_compat(ws, cand_model(ans, scan_legal(cands, ws, ans, m).unwrap())),
    decreases m,
{
    if m > 0 {
        if scan_legal(cands, ws, ans, m - 1) is Some {
            lemma_scan_some_legal(cands, ws, ans, m - 1);
        } else {
            assert(cands[m - 1] == scan_legal(cands, ws, ans, m).unwrap());
        }
    }
}

/// The list is sorted by descending answer length.
pub open spec fn sorted_desc(s: Seq<EntryModel>) -> bool {
    forall|i: int, j: int|
        0 <= i <= j < s.len() ==> (#[trigger] s[i]).answer.len() >= (#[trigger] s[j]).answer.len()
}

/// Raw answer-length totals are non-negative.
pub proof fn lemma_sum_raw_nonneg(raw: Seq<(Seq<char>, Seq<char>)>)
    ensures
        0 <= sum_raw(raw),
    decreases raw.len(),
{
    if raw.len() > 0 {
        lemma_sum_raw_nonneg(raw.drop_first());
    }
}

/// Answer-length totals are non-negative.
pub proof fn lemma_sum_em_nonneg(s: Seq<EntryModel>)
    ensures
        0 <= sum_em(s),
    decreases s.len(),
{
    if s.len() > 0 {
        lemma_sum_em_nonneg(s.drop_first());
    }
}

/// The total over a list with one entry put in front.
pub proof fn lemma_sum_em_cons(x: EntryModel, t: Seq<EntryModel>)
    ensures
        sum_em(seq![x] + t) == x.answer.len() + sum_em(t),
{
    assert((seq![x] + t).drop_first() =~= t);
    assert((seq![x] + t)[0] == x);
    assert((seq![x] + t).len() == 1 + t.len());
    assert(sum_em(seq![x] + t) == (seq![x] + t)[0].answer.len() + sum_em(
        (seq![x] + t).drop_first(),
    ));
}

/// The total over a list with one entry put at the back.
pub proof fn lemma_sum_em_snoc(t: Seq<EntryModel>, x: EntryModel)
    ensures
        sum_em(t.push(x)) == sum_em(t) + x.answer.len(),
    decreases t.len(),
{
    if t.len() == 0 {
        assert(t.push(x).drop_first() =~= Seq::<EntryModel>::empty());
        assert(t.push(x)[0] == x);
        assert(sum_em(t.push(x)) == t.push(x)[0].answer.len() + sum_em(t.push(x).drop_first()));
    } else {
        assert(t.push(x).drop_first() =~= t.drop_first().push(x));
        assert(t.push(x)[0] == t[0]);
        assert(sum_em(t.push(x)) == t.push(x)[0].answer.len() + sum_em(t.push(x).drop_first()));
        lemma_sum_em_snoc(t.drop_first(), x);
    }
}

/// Inserting keeps the list sorted, adds the new entry, keeps everything
/// else, grows the length by one, and adds the entry's length to the
/// total.
pub proof fn lemma_insert_desc_props(s: Seq<EntryModel>, e: EntryModel)
    requires
        sorted_desc(s),
    ensures
        sorted_desc(insert_desc(s, e)),
        insert_desc(s, e).len() == s.len() + 1,
        insert_desc(s, e).contains(e),
        forall|x: EntryModel|
            insert_desc(s, e).contains(x) <==> (s.contains(x) || x == e),
        sum_em(insert_desc(s, e)) == sum_em(s) + e.answer.len(),
    decreases s.len(),
{
    if s.len() == 0 {
        assert(insert_desc(s, e) =~= seq![e]);
        assert(insert_desc(s, e)[0] == e);
        lemma_sum_em_cons(e, Seq::empty());
        assert(seq![e] + Seq::<EntryModel>::empty() =~= seq![e]);
        assert forall|x: EntryModel|
            insert_desc(s, e).contains(x) <==> (s.contains(x) || x == e) by {
            if insert_desc(s, e).contains(x) {
                assert(insert_desc(s, e)[choose|i: int|
                    0 <= i < insert_desc(s, e).len() && insert_desc(s, e)[i] == x] == x);
            }
            if x == e {
                assert(insert_desc(s, e)[0] == x);
            }
        }
    } else if s[0].answer.len() >= e.answer.len() {
        let rest = s.drop_first();
        assert(sorted_desc(rest));
        lemma_insert_desc_props(rest, e);
        let inner = insert_desc(rest, e);
        let whole = seq![s[0]] + inner;
        assert(insert_desc(s, e) == whole);
        lemma_sum_em_cons(s[0], inner);
        assert(sum_em(s) == s[0].answer.len() + sum_em(rest));
        // sortedness of the whole: the head is at least as long as every
        // element of the inserted tail.
        assert forall|i: int, j: int|
            0 <= i <= j < whole.len() implies (#[trigger] whole[i]).answer.len()
            >= (#[trigger] whole[j]).answer.len() by {
            if i == 0 {
                if j > 0 {
                    assert(whole[j] == inner[j - 1]);
                    assert(inner.contains(inner[j - 1]));
                    let x = inner[j - 1];
                    if x == e {
                        assert(whole[i].answer.len() >= x.answer.len());
                    } else {
                        assert(rest.contains(x));
                        let m = choose|m: int| 0 <= m < rest.len() && rest[m] == x;
                        assert(rest[m] == s[m + 1]);
                        assert(s[0].answer.len() >= s[m + 1].answer.len());
                    }
                }
            } else {
                assert(whole[i] == inner[i - 1]);
                assert(whole[j] == inner[j - 1]);
            }
        }
        assert forall|x: EntryModel|
            insert_desc(s, e).contains(x) <==> (s.contains(x) || x == e) by {
            if whole.contains(x) {
                let i = choose|i: int| 0 <= i < whole.len() && whole[i] == x;
                if i == 0 {
                    assert(s[0] == x);
                } else {
                    assert(inner[i - 1] == x);
                    assert(inner.contains(x));
                    if rest.contains(x) {
                        let m = choose|m: int| 0 <= m < rest.len() && rest[m] == x;
                        assert(s[m + 1] == x);
                    }
                }
            }
            if s.contains(x) {
                let i = choose|i: int| 0 <= i < s.len() && s[i] == x;
                if i == 0 {
                    assert(whole[0] == x);
                } else {
                    assert(rest[i - 1] == x);
                    assert(rest.contains(x));
                    assert(inner.contains(x));
                    let m = choose|m: int| 0 <= m < inner.len() && inner[m] == x;
                    assert(whole[m + 1] == x);
                }
            }
            if x == e {
                assert(inner.contains(e));
                let m = choose|m: int| 0 <= m < inner.len() && inner[m] == e;
                assert(whole.len() == 1 + inner.len());
                assert(whole[m + 1] == inner[m]);
                assert(whole[m + 1] == x);
            }
        }
        assert(inner.contains(e));
        let m0 = choose|m: int| 0 <= m < inner.len() && inner[m] == e;
        assert(whole[m0 + 1] == inner[m0]);
        assert(insert_desc(s, e).contains(e));
    } else {
        let whole = seq![e] + s;
        assert(insert_desc(s, e) == whole);
        lemma_sum_em_cons(e, s);
        assert forall|i: int, j: int|
            0 <= i <= j < whole.len() implies (#[trigger] whole[i]).answer.len()
            >= (#[trigger] whole[j]).answer.len() by {
            if i == 0 {
                if j > 0 {
                    assert(whole[j] == s[j - 1]);
                    assert(s[0].answer.len() >= s[j - 1].answer.len());
                }
            } else {
                assert(whole[i] == s[i - 1]);
                assert(whole[j] == s[j - 1]);
            }
        }
        assert forall|x: EntryModel|
            insert_desc(s, e).contains(x) <==> (s.contains(x) || x == e) by {
            if whole.contains(x) {
                let i = choose|i: int| 0 <= i < whole.len() && whole[i] == x;
                if i == 0 {
                } else {
                    assert(s[i - 1] == x);
                }
            }
            if s.contains(x) {
                let i = choose|i: int| 0 <= i < s.len() && s[i] == x;
                assert(whole[i + 1] == x);
            }
            if x == e {
                assert(whole[0] == x);
            }
        }
        assert(insert_desc(s, e)[0] == e);
    }
}

/// Sorting keeps the length, the members and the total answer length,
/// and yields a list sorted by descending answer length.
pub proof fn lemma_sort_desc_props(s: Seq<EntryModel>)
    ensures
        sorted_desc(sort_desc(s)),
        sort_desc(s).len() == s.len(),
        forall|x: EntryModel| sort_desc(s).contains(x) <==> s.contains(x),
        sum_em(sort_desc(s)) == sum_em(s),
    decreases s.len(),
{
    if s.len() > 0 {
        let butlast = s.drop_last();
        lemma_sort_desc_props(butlast);
        lemma_insert_desc_props(sort_desc(butlast), s.last());
        lemma_sum_em_snoc(butlast, s.last());
        assert(butlast.push(s.last()) =~= s);
        assert forall|x: EntryModel| sort_desc(s).contains(x) <==> s.contains(x) by {
            if s.contains(x) {
                let i = choose|i: int| 0 <= i < s.len() && s[i] == x;
                if i < s.len() - 1 {
                    assert(butlast[i] == x);
                    assert(butlast.contains(x));
                } else {
                    assert(x == s.last());
                }
            }
            if sort_desc(s).contains(x) {
                if butlast.contains(x) {
                    let i = choose|i: int| 0 <= i < butlast.len() && butlast[i] == x;
                    assert(s[i] == x);
                }
            }
        }
    }
}

/// Uppercase one character.
pub(crate) fn upper_char_exec(c: char) -> (r: char)
    ensures
        r == upper_char(c),
{
    let u = c as u32;
    if 97 <= u && u <= 122 {
        ((u - 32) as u8) as char
    } else {
        c
    }
}

/// Uppercase a whole answer.
fn normalize_answer(s: &String) -> (r: Vec<char>)
    ensures
        r@ == norm_seq(s@),
{
    let n = s.as_str().unicode_len();
    let mut out: Vec<char> = Vec::new();
    let mut i: usize = 0;
    assert(out@ =~= norm_seq(s@).take(0));
    while i < n
        invariant
            n == s@.len(),
            0 <= i <= n,
            out@ == norm_seq(s@).take(i as int),
        decreases n - i,
    {
        let c = s.as_str().get_char(i);
        let u = upper_char_exec(c);
        out.push(u);
        proof {
            assert(out@ =~= norm_seq(s@).take(i + 1));
        }
        i = i + 1;
    }
    proof {
        assert(norm_seq(s@).take(n as int) =~= norm_seq(s@));
    }
    out
}

/// Check that a normalized answer is non-empty and all uppercase letters.
fn answer_ok_exec(a: &Vec<char>) -> (r: bool)
    ensures
        r == answer_ok(a@),
{
    if a.len() == 0 {
        return false;
    }
    let n = a.len();
    let mut i: usize = 0;
    while i < n
        invariant
            n == a@.len(),
            0 <= i <= n,
            forall|k: int| 0 <= k < i ==> is_upper_alpha(#[trigger] a@[k]),
        decreases n - i,
    {
        let u = a[i] as u32;
        if !(65 <= u && u <= 90) {
            return false;
        }
        i = i + 1;
    }
    true
}

/// Normalization keeps the total answer length.
pub proof fn lemma_sum_em_norm(raw: Seq<(Seq<char>, Seq<char>)>)
    ensures
        sum_em(norm_entries(raw)) == sum_raw(raw),
    decreases raw.len(),
{
    if raw.len() > 0 {
        assert(norm_entries(raw).drop_first() =~= norm_entries(raw.drop_first()));
        lemma_sum_em_norm(raw.drop_first());
        assert(norm_entries(raw)[0].answer.len() == raw[0].0.len());
        assert(sum_em(norm_entries(raw)) == norm_entries(raw)[0].answer.len() + sum_em(
            norm_entries(raw).drop_first(),
        ));
    }
}

/// Normalize and check every input pair, in order.
fn prepare_entries(entries: Vec<(String, String)>) -> (r: Result<Vec<Entry>, BuildError>)
    ensures
        r is Err <==> !input_ok(pairs_view(entries@)),
        r == Result::<Vec<Entry>, BuildError>::Err(BuildError::EmptyInput) <==> entries@.len()
            == 0,
        r matches Ok(v) ==> entries_view(v@) == norm_entries(pairs_view(entries@)),
{
    let ghost raw = pairs_view(entries@);
    if entries.len() == 0 {
        return Err(BuildError::EmptyInput);
    }
    let mut rest = entries;
    let mut list: Vec<Entry> = Vec::new();
    let ghost mut done: int = 0;
    let ghost n = raw.len();
    proof {
        assert(pairs_view(rest@) =~= raw.skip(0));
        assert(entries_view(list@) =~= norm_entries(raw).take(0));
    }
    while rest.len() > 0
        invariant
            raw == pairs_view(entries@),
            n == raw.len(),
            n == entries@.len(),
            1 <= n,
            0 <= done <= n,
            pairs_view(rest@) == raw.skip(done),
            rest@.len() + done == n,
            entries_view(list@) == norm_entries(raw).take(done),
            forall|k: int| 0 <= k < done ==> answer_ok(#[trigger] norm_entries(raw)[k].answer),
        decreases rest@.len(),
    {
        let ghost pre = rest@;
        let pair = rest.remove(0);
        proof {
            assert(pairs_view(rest@) =~= pairs_view(pre).drop_first());
            assert(pairs_view(rest@) =~= raw.skip(done + 1));
            assert(pair == pre[0]);
            assert(pairs_view(pre)[0] == (pair.0@, pair.1@));
            assert(pairs_view(pre)[0] == raw.skip(done)[0]);
            assert((pair.0@, pair.1@) == raw[done]);
        }
        let na = normalize_answer(&pair.0);
        if !answer_ok_exec(&na) {
            proof {
                assert(na@ == norm_seq(raw[done].0));
                assert(norm_entries(raw)[done].answer == norm_seq(raw[done].0));
                assert(!answer_ok(norm_entries(raw)[done].answer));
                assert(!input_ok(raw));
            }
            return Err(BuildError::InvalidAnswer);
        }
        let entry = Entry { answer: na, clue: pair.1 };
        proof {
            assert(entry@ == norm_entries(raw)[done]);
        }
        let ghost list0 = list@;
        list.push(entry);
        proof {
            lemma_entries_view_push(list0, entry);
            assert(norm_entries(raw).take(done + 1) =~= norm_entries(raw).take(done).push(
                norm_entries(raw)[done],
            ));
            assert(entries_view(list@) == norm_entries(raw).take(done + 1));
            done = done + 1;
        }
    }
    proof {
        assert(done == n);
        assert(norm_entries(raw).take(done) =~= norm_entries(raw));
        assert forall|k: int| 0 <= k < raw.len() implies answer_ok(
            norm_seq((#[trigger] raw[k]).0),
        ) by {
            assert(answer_ok(norm_entries(raw)[k].answer));
        }
        assert(input_ok(raw));
    }
    Ok(list)
}

/// Scan the shuffled candidates for the first that is legal against every
/// placed word.
fn choose_candidate(
    shuf: &Vec<(Direction, Vec2)>,
    placed: &Vec<Word>,
    aw: &Vec<char>,
) -> (r: Option<(Direction, Vec2)>)
    requires
        forall|k: int|
            0 <= k < placed@.len() ==> word_valid(#[trigger] words_view(placed@)[k])
                && word_in_limit(words_view(placed@)[k]),
        1 <= aw@.len(),
        forall|k: int|
            0 <= k < shuf@.len() ==> anchor_bounded(
                (#[trigger] shuf@[k]).1,
                aw@.len() as int,
                COORD_LIMIT as int,
            ),
    ensures
        r == scan_legal(shuf@, words_view(placed@), aw@, shuf@.len() as int),
{
    let ghost wsv = words_view(placed@);
    let n = shuf.len();
    let mut ci: usize = 0;
    let mut chosen: Option<(Direction, Vec2)> = None;
    while ci < n && chosen.is_none()
        invariant
            wsv == words_view(placed@),
            forall|k: int|
                0 <= k < placed@.len() ==> word_valid(#[trigger] wsv[k]) && word_in_limit(
                    wsv[k],
                ),
            1 <= aw@.len(),
            forall|k: int|
                0 <= k < shuf@.len() ==> anchor_bounded(
                    (#[trigger] shuf@[k]).1,
                    aw@.len() as int,
                    COORD_LIMIT as int,
                ),
            n == shuf@.len(),
            0 <= ci <= n,
            chosen == scan_legal(shuf@, wsv, aw@, ci as int),
        decreases n - ci,
    {
        let c = shuf[ci];
        proof {
            assert(anchor_bounded(c.1, aw@.len() as int, COORD_LIMIT as int));
        }
        if placement_legal(placed, aw, c.0, c.1) {
            chosen = Some(c);
        }
        proof {
            assert(chosen == scan_legal(shuf@, wsv, aw@, ci + 1));
        }
        ci = ci + 1;
    }
    proof {
        if chosen is Some {
            lemma_scan_stable(shuf@, wsv, aw@, ci as int, n as int);
        }
    }
    chosen
}

/// Insert one entry into a list sorted by descending answer length,
/// keeping ties in their existing order.
fn insert_entry(v: Vec<Entry>, e: Entry) -> (r: Vec<Entry>)
    ensures
        entries_view(r@) == insert_desc(entries_view(v@), e@),
    decreases v@.len(),
{
    let mut v = v;
    if v.len() == 0 {
        let mut out: Vec<Entry> = Vec::new();
        out.push(e);
        proof {
            assert(entries_view(out@) =~= insert_desc(entries_view(v@), e@));
        }
        out
    } else if v[0].answer.len() >= e.answer.len() {
        let ghost v0 = v@;
        let head = v.remove(0);
        proof {
            assert(v@ =~= v0.drop_first());
            assert(entries_view(v@) =~= entries_view(v0).drop_first());
        }
        let mut rest = insert_entry(v, e);
        let ghost r0 = rest@;
        rest.insert(0, head);
        proof {
            assert(entries_view(rest@) =~= seq![head@] + entries_view(r0));
            assert(entries_view(rest@) =~= insert_desc(entries_view(v0), e@));
        }
        rest
    } else {
        let ghost v0 = v@;
        v.insert(0, e);
        proof {
            assert(entries_view(v@) =~= seq![e@] + entries_view(v0));
        }
        v
    }
}

/// Stable sort by descending answer length.
fn sort_entries(input: Vec<Entry>) -> (r: Vec<Entry>)
    ensures
        entries_view(r@) == sort_desc(entries_view(input@)),
{
    let mut input = input;
    let ghost raw0 = entries_view(input@);
    let mut out: Vec<Entry> = Vec::new();
    let ghost mut done: int = 0;
    assert(entries_view(out@) =~= sort_desc(raw0.take(0)));
    while input.len() > 0
        invariant
            0 <= done <= raw0.len(),
            entries_view(input@) =~= raw0.skip(done),
            entries_view(out@) == sort_desc(raw0.take(done)),
        decreases input@.len(),
    {
        let ghost in0 = input@;
        let e = input.remove(0);
        proof {
            assert(entries_view(input@) =~= entries_view(in0).drop_first());
            assert(entries_view(input@) =~= raw0.skip(done + 1));
            assert(e@ == entries_view(in0)[0]);
            assert(entries_view(in0)[0] == raw0.skip(done)[0]);
            assert(e@ == raw0[done]);
        }
        out = insert_entry(out, e);
        proof {
            assert(raw0.take(done + 1).drop_last() =~= raw0.take(done));
            assert(raw0.take(done + 1).last() == raw0[done]);
            done = done + 1;
        }
    }
    proof {
        assert(raw0.take(done) =~= raw0);
    }
    out
}

/// Build a crossword from an ordered list of (answer, clue) pairs.
///
/// The input must be non-empty and every answer must normalize to a
/// non-empty run of ASCII letters; otherwise the matching error is
/// returned.  On success the result is exactly the deterministic
/// placement `build_model` of the input: the same pairs always produce
/// the same crossword.  Words that cannot be legally placed are dropped,
/// so the result holds at most as many words as the input, and its first
/// word is the longest answer, placed across the origin.
pub fn build(entries: Vec<(String, String)>) -> (r: Result<Crossword, BuildError>)
    requires
        sum_raw(pairs_view(entries@)) <= COORD_LIMIT as int,
    ensures
        r is Err <==> !input_ok(pairs_view(entries@)),
        r == Result::<Crossword, BuildError>::Err(BuildError::EmptyInput) <==> entries@.len()
            == 0,
        r matches Ok(cw) ==> {
            &&& cw@ == build_model(pairs_view(entries@))
            &&& crossword_wf(cw@)
            &&& cw@.len() <= entries@.len()
            &&& cw@[0] == first_word_model(sort_desc(norm_entries(pairs_view(entries@)))[0])
        },
{
    let ghost raw = pairs_view(entries@);
    let seed = seed_of_exec(&entries);
    let list = match prepare_entries(entries) {
        Ok(list) => list,
        Err(e) => {
            return Err(e);
        },
    };
    let mut sorted_vec = sort_entries(list);
    let ghost sortedv = sort_desc(norm_entries(raw));
    proof {
        lemma_sort_desc_props(norm_entries(raw));
        lemma_sum_em_norm(raw);
        assert(entries_view(sorted_vec@) == sortedv);
        assert(sortedv.len() == raw.len());
        assert forall|k: int| 0 <= k < sortedv.len() implies answer_ok(
            (#[trigger] sortedv[k]).answer,
        ) by {
            assert(sortedv.contains(sortedv[k]));
            assert(norm_entries(raw).contains(sortedv[k]));
            let m = choose|m: int|
                0 <= m < norm_entries(raw).len() && norm_entries(raw)[m] == sortedv[k];
            assert(norm_entries(raw)[m].answer == norm_seq(raw[m].0));
            assert(answer_ok(norm_seq(raw[m].0)));
        }
    }
    let ghost spre = entries_view(sorted_vec@);
    let e0 = sorted_vec.remove(0);
    proof {
        assert(entries_view(sorted_vec@) =~= spre.drop_first());
        assert(entries_view(sorted_vec@) =~= sortedv.skip(1));
        assert(e0@ == spre[0]);
        assert(e0@ == sortedv[0]);
    }
    let w0 = Word {
        answer: e0.answer,
        clue: e0.clue,
        direction: Direction::Across,
        position: Vec2 { x: 0, y: 0 },
    };
    let mut placed: Vec<Word> = Vec::new();
    placed.push(w0);
    let mut st = seed;
    let ghost mut pdone: int = 1;
    let ghost mut cum: int = sortedv[0].answer.len() as int;
    proof {
        assert(words_view(placed@) =~= seq![first_word_model(sortedv[0])]);
        assert((words_view(placed@), st) == place_upto(sortedv, seed, 1));
        assert(sum_em(sortedv) == sortedv[0].answer.len() + sum_em(sortedv.drop_first()));
        assert(sortedv.drop_first() =~= sortedv.skip(1));
        assert(cum + sum_em(sortedv.skip(1)) == sum_em(sortedv));
        assert(sum_em(sortedv) == sum_raw(raw));
        assert(word_valid(words_view(placed@)[0]));
        assert(word_within(words_view(placed@)[0], cum));
    }
    while sorted_vec.len() > 0
        invariant
            sortedv == sort_desc(norm_entries(raw)),
            1 <= sortedv.len(),
            1 <= pdone <= sortedv.len(),
            entries_view(sorted_vec@) == sortedv.skip(pdone),
            sorted_vec@.len() + pdone == sortedv.len(),
            forall|k: int|
                0 <= k < sortedv.len() ==> answer_ok((#[trigger] sortedv[k]).answer),
            (words_view(placed@), st) == place_upto(sortedv, seed, pdone),
            1 <= placed@.len(),
            0 <= cum,
            cum + sum_em(sortedv.skip(pdone)) <= COORD_LIMIT as int,
            placed_within(words_view(placed@), cum),
            forall|k: int|
                0 <= k < placed@.len() ==> word_valid(#[trigger] words_view(placed@)[k]),
            forall|i: int, j: int|
                0 <= i < placed@.len() && 0 <= j < placed@.len() && i != j ==> compatible(
                    #[trigger] words_view(placed@)[i],
                    #[trigger] words_view(placed@)[j],
                ),
        decreases sorted_vec@.len(),
    {
        let ghost pre = entries_view(sorted_vec@);
        let ghost wsv = words_view(placed@);
        let ghost st_in = st;
        let e = sorted_vec.remove(0);
        proof {
            assert(entries_view(sorted_vec@) =~= pre.drop_first());
            assert(entries_view(sorted_vec@) =~= sortedv.skip(pdone + 1));
            assert(e@ == pre[0]);
            assert(pre[0] == sortedv.skip(pdone)[0]);
            assert(e@ == sortedv[pdone]);
            assert(answer_ok(e@.answer));
            assert(sum_em(sortedv.skip(pdone)) == sortedv[pdone].answer.len() + sum_em(
                sortedv.skip(pdone).drop_first(),
            ));
            assert(sortedv.skip(pdone).drop_first() =~= sortedv.skip(pdone + 1));
            lemma_sum_em_nonneg(sortedv.skip(pdone + 1));
            assert(cum + e@.answer.len() <= COORD_LIMIT as int);
            assert forall|k: int| 0 <= k < placed@.len() implies word_valid(
                #[trigger] words_view(placed@)[k],
            ) && word_in_limit(words_view(placed@)[k]) by {
                assert(word_within(words_view(placed@)[k], cum));
            }
        }
        let ghost alen = e@.answer.len() as int;
        let cands = gen_candidates(&placed, &e.answer);
        let n_cands = cands.len();
        let ghost candsv = cands@;
        proof {
            lemma_cands_all_bounded(wsv, e@.answer, placed@.len() as int, cum);
            assert forall|k: int| 0 <= k < candsv.len() implies anchor_bounded(
                (#[trigger] candsv[k]).1,
                alen,
                cum + alen,
            ) by {
                assert(candsv[k] == cands_all(wsv, e@.answer, placed@.len() as int)[k]);
            }
            assert(candsv.len() == n_cands);
            lemma_shuffle_keeps_bound(candsv, st_in, candsv.len() - 1, alen, cum + alen);
        }
        let shufres = shuffle_cands(cands, st);
        let shuf = shufres.0;
        st = shufres.1;
        proof {
            assert((shuf@, st) == shuffle_full(candsv, st_in));
            assert(shuf@ == shuffle_rec(candsv, st_in, candsv.len() - 1).0);
            assert forall|k: int| 0 <= k < shuf@.len() implies anchor_bounded(
                (#[trigger] shuf@[k]).1,
                alen,
                cum + alen,
            ) by {
                assert(anchor_bounded(
                    shuffle_rec(candsv, st_in, candsv.len() - 1).0[k].1,
                    alen,
                    cum + alen,
                ));
            }
            assert forall|k: int| 0 <= k < shuf@.len() implies anchor_bounded(
                (#[trigger] shuf@[k]).1,
                alen,
                COORD_LIMIT as int,
            ) by {
                assert(anchor_bounded(shuf@[k].1, alen, cum + alen));
            }
        }
        let chosen = choose_candidate(&shuf, &placed, &e.answer);
        match chosen {
            None => {
                proof {
                    assert((words_view(placed@), st) == step_place(wsv, st_in, e@));
                    assert((words_view(placed@), st) == place_upto(sortedv, seed, pdone + 1));
                    pdone = pdone + 1;
                }
            },
            Some(c) => {
                let w = Word {
                    answer: e.answer,
                    clue: e.clue,
                    direction: c.0,
                    position: c.1,
                };
                let ghost placed0 = placed@;
                proof {
                    lemma_scan_some_legal(shuf@, wsv, e@.answer, shuf@.len() as int);
                    assert(all_compat(wsv, cand_model(e@.answer, c)));
                    assert(w@ == WordModel {
                        answer: e@.answer,
                        clue: e@.clue,
                        direction: c.0,
                        pos: (c.1.x as int, c.1.y as int),
                    });
                }
                placed.push(w);
                proof {
                    lemma_words_view_push(placed0, w);
                    assert((words_view(placed@), st) == step_place(wsv, st_in, e@));
                    assert((words_view(placed@), st) == place_upto(sortedv, seed, pdone + 1));
                    // the new word is valid and bounded
                    assert(word_valid(w@));
                    let idx = choose|idx: int|
                        0 <= idx < shuf@.len() && #[trigger] shuf@[idx] == c;
                    assert(anchor_bounded(shuf@[idx].1, alen, cum + alen));
                    assert(anchor_bounded(c.1, alen, cum + alen));
                    assert(word_within(w@, cum + alen));
                    // every pair of placed words remains compatible
                    assert forall|i: int, j: int|
                        0 <= i < placed@.len() && 0 <= j < placed@.len() && i != j implies compatible(
                        #[trigger] words_view(placed@)[i],
                        #[trigger] words_view(placed@)[j],
                    ) by {
                        let nv = words_view(placed@);
                        if i < placed0.len() && j < placed0.len() {
                            assert(nv[i] == wsv[i] && nv[j] == wsv[j]);
                        } else if j == placed0.len() {
                            assert(nv[j] == w@);
                            assert(nv[i] == wsv[i]);
                            assert(compatible(cand_model(e@.answer, c), wsv[i]));
                            lemma_compatible_ignores_clue(
                                cand_model(e@.answer, c),
                                w@,
                                wsv[i],
                            );
                            lemma_compatible_symmetric(w@, wsv[i]);
                        } else {
                            assert(nv[i] == w@);
                            assert(nv[j] == wsv[j]);
                            assert(compatible(cand_model(e@.answer, c), wsv[j]));
                            lemma_compatible_ignores_clue(
                                cand_model(e@.answer, c),
                                w@,
                                wsv[j],
                            );
                        }
                    }
                    assert forall|k: int| 0 <= k < placed@.len() implies word_within(
                        #[trigger] words_view(placed@)[k],
                        cum + alen,
                    ) by {
                        if k < placed0.len() {
                            assert(words_view(placed@)[k] == wsv[k]);
                            assert(word_within(wsv[k], cum));
                        } else {
                            assert(words_view(placed@)[k] == w@);
                        }
                    }
                    cum = cum + alen;
                    pdone = pdone + 1;
                }
            },
        }
    }
    proof {
        assert(pdone == sortedv.len());
        assert(sortedv.len() == raw.len());
        assert((words_view(placed@), st) == place_upto(sortedv, seed, raw.len() as int));
        assert(words_view(placed@) == build_model(raw));
        lemma_place_upto_shape(sortedv, seed, raw.len() as int);
        assert forall|k: int| 0 <= k < placed@.len() implies word_valid(
            #[trigger] words_view(placed@)[k],
        ) && word_in_limit(words_view(placed@)[k]) by {
            assert(word_within(words_view(placed@)[k], cum));
            lemma_sum_em_nonneg(sortedv.skip(pdone));
        }
        assert(crossword_wf(words_view(placed@)));
    }
    let cw = Crossword { words: placed };
    proof {
        assert(cw@ == words_view(cw.words@));
    }
    Ok(cw)
}

/// Build a crossword after checking at run time that the total answer
/// length stays within the coordinate limit; an oversized input is
/// declined with `None` instead of being a caller obligation.
pub fn try_build(entries: Vec<(String, String)>) -> (r: Option<Result<Crossword, BuildError>>)
    ensures
        r is None <==> sum_raw(pairs_view(entries@)) > COORD_LIMIT as int,
        r matches Some(res) ==> {
            &&& res is Err <==> !input_ok(pairs_view(entries@))
            &&& res == Result::<Crossword, BuildError>::Err(BuildError::EmptyInput)
                <==> entries@.len() == 0
            &&& res matches Ok(cw) ==> {
                &&& cw@ == build_model(pairs_view(entries@))
                &&& crossword_wf(cw@)
                &&& cw@.len() <= entries@.len()
                &&& cw@[0] == first_word_model(
                    sort_desc(norm_entries(pairs_view(entries@)))[0],
                )
            }
        },
{
    let ghost raw = pairs_view(entries@);
    let n = entries.len();
    let mut acc: u64 = 0;
    let mut k: usize = 0;
    proof {
        assert(raw.skip(0) =~= raw);
    }
    while k < n
        invariant
            raw == pairs_view(entries@),
            n == entries@.len(),
            0 <= k <= n,
            acc <= COORD_LIMIT as u64,
            acc as int + sum_raw(raw.skip(k as int)) == sum_raw(raw),
        decreases n - k,
    {
        proof {
            assert(raw.skip(k as int)[0] == raw[k as int]);
            assert(raw.skip(k as int).drop_first() =~= raw.skip(k + 1));
            assert(raw[k as int].0 == entries@[k as int].0@);
            lemma_sum_raw_nonneg(raw.skip(k + 1));
        }
        let len = entries[k].0.as_str().unicode_len();
        if len as u64 > COORD_LIMIT as u64 || acc + len as u64 > COORD_LIMIT as u64 {
            proof {
                assert(sum_raw(raw) > COORD_LIMIT as int);
            }
            return None;
        }
        acc = acc + len as u64;
        k = k + 1;
    }
    proof {
        assert(raw.skip(n as int) =~= Seq::<(Seq<char>, Seq<char>)>::empty());
        assert(sum_raw(raw) == acc as int);
    }
    Some(build(entries))
}

} // verus!
