//! The board model: a 4x4 grid of tile exponents.
//!
//! A cell holds an 8-bit code: 0 is the empty cell, and a code `k > 0`
//! stands for the tile with displayed value `2^k`.

use vstd::prelude::*;

verus! {

/// Side length of the square board.
pub const N: usize = 4;

/// The four directions a move can take, in canonical order.
#[derive(Clone, Copy, Debug, PartialEq, Eq, Structural)]
pub enum Action {
    Up,
    Down,
    Left,
    Right,
}

/// An `N` x `N` matrix of tile codes, stored row-major.
///
/// The mathematical view of a board is the flat row-major sequence of
/// its 16 cells.
#[derive(Clone, Copy, Debug)]
pub struct Board {
    pub cells: [[u8; N]; N],
}

impl View for Board {
    type V = Seq<u8>;

    open spec fn view(&self) -> Seq<u8> {
        Seq::new(16, |i: int| self.cells@[i / 4]@[i % 4])
    }
}

/// A flat board model is well-sized: exactly 16 cells.
pub open spec fn is_board(m: Seq<u8>) -> bool {
    m.len() == 16
}

/// Row-major flattening: the flat index `4r + c` decomposes back into
/// row `r` and column `c`.
proof fn lemma_row_col(r: int, c: int)
    requires
        0 <= r < 4,
        0 <= c < 4,
    ensures
        (4 * r + c) / 4 == r,
        (4 * r + c) % 4 == c,
{
}

impl Board {
    /// The all-empty board.
    pub fn empty() -> (b: Board)
        ensures
            b@ =~= Seq::new(16, |i: int| 0u8),
    {
        Board { cells: [[0u8; 4]; 4] }
    }

    /// Reads the cell in row `r`, column `c`.
    pub fn get(&self, r: usize, c: usize) -> (v: u8)
        requires
            r < 4,
            c < 4,
        ensures
            v == self@[4 * r + c],
    {
        proof {
            lemma_row_col(r as int, c as int);
        }
        self.cells[r][c]
    }

    /// Writes `v` into the cell in row `r`, column `c`.
    pub fn put(&mut self, r: usize, c: usize, v: u8)
        requires
            r < 4,
            c < 4,
        ensures
            final(self)@ == old(self)@.update(4 * r + c, v),
    {
        let mut row = self.cells[r];
        row[c] = v;
        self.cells[r] = row;
        proof {
            assert forall|i: int| 0 <= i < 16 implies self@[i] == old(self)@.update(
                4 * r + c,
                v,
            )[i] by {
                vstd::arithmetic::div_mod::lemma_fundamental_div_mod(i, 4);
                lemma_row_col(r as int, c as int);
            }
            assert(self@ =~= old(self)@.update(4 * r + c, v));
        }
    }
}

impl PartialEq for Board {
    /// Two boards are equal exactly when all 16 cells agree.
    fn eq(&self, other: &Board) -> (r: bool) {
        let mut r: usize = 0;
        while r < 4
            invariant
                r <= 4,
                forall|i: int| 0 <= i < 4 * r ==> self@[i] == other@[i],
            decreases 4 - r,
        {
            let mut c: usize = 0;
            while c < 4
                invariant
                    r < 4,
                    c <= 4,
                    forall|i: int| 0 <= i < 4 * (r as int) + c ==> self@[i] == other@[i],
                decreases 4 - c,
            {
                if self.get(r, c) != other.get(r, c) {
                    return false;
                }
                c += 1;
            }
            r += 1;
        }
        proof {
            assert(self@ =~= other@);
        }
        true
    }
}

impl vstd::std_specs::cmp::PartialEqSpecImpl for Board {
    open spec fn obeys_eq_spec() -> bool {
        true
    }

    open spec fn eq_spec(&self, other: &Board) -> bool {
        self@ == other@
    }
}

/// The non-empty cells of a row, in order, with the empty cells dropped.
pub open spec fn compact(s: Seq<u8>) -> Seq<u8>
    decreases s.len(),
{
    if s.len() == 0 {
        Seq::empty()
    } else if s[0] == 0u8 {
        compact(s.skip(1))
    } else {
        seq![s[0]] + compact(s.skip(1))
    }
}

/// The exponent of a merged pair: one more than the exponent of its two
/// sources. The 8-bit code wraps at its limit, which play never reaches.
pub open spec fn bump(x: u8) -> u8 {
    if x == 255 {
        0u8
    } else {
        (x + 1) as u8
    }
}

/// One left-to-right merge pass over a row without empty cells: the first
/// two adjacent equal exponents merge into one bumped cell, and a merged
/// cell takes no further part in the pass.
pub open spec fn merge_pairs(s: Seq<u8>) -> Seq<u8>
    decreases s.len(),
{
    if s.len() == 0 {
        Seq::empty()
    } else if s.len() >= 2 && s[1] == s[0] {
        seq![bump(s[0])] + merge_pairs(s.skip(2))
    } else {
        seq![s[0]] + merge_pairs(s.skip(1))
    }
}

/// The merge-left rule on one row: slide the non-empty cells to the left
/// preserving their order, merge adjacent equal pairs in a single pass,
/// and fill the rest of the row with empty cells.
pub open spec fn merge_left(s: Seq<u8>) -> Seq<u8> {
    let t = merge_pairs(compact(s));
    Seq::new(s.len(), |i: int| if 0 <= i < t.len() {
        t[i]
    } else {
        0u8
    })
}

proof fn lemma_compact_len(s: Seq<u8>)
    ensures
        compact(s).len() <= s.len(),
    decreases s.len(),
{
    if s.len() > 0 {
        lemma_compact_len(s.skip(1));
    }
}

/// Compacting commutes with appending one cell at the right end.
proof fn lemma_compact_push(s: Seq<u8>, x: u8)
    ensures
        compact(s.push(x)) == if x == 0u8 {
            compact(s)
        } else {
            compact(s).push(x)
        },
    decreases s.len(),
{
    let sp = s.push(x);
    if s.len() == 0 {
        assert(sp.len() == 1);
        assert(sp[0] == x);
        assert(sp.skip(1) =~= Seq::<u8>::empty());
        assert(compact(Seq::<u8>::empty()) =~= Seq::<u8>::empty());
        if x != 0u8 {
            assert(compact(sp) == seq![x] + compact(sp.skip(1)));
            assert(seq![x] + compact(Seq::<u8>::empty()) =~= compact(s).push(x));
        }
    } else {
        assert(sp[0] == s[0]);
        assert(sp.skip(1) =~= s.skip(1).push(x));
        lemma_compact_push(s.skip(1), x);
        if s[0] == 0u8 {
            assert(compact(sp) == compact(sp.skip(1)));
            assert(compact(s) == compact(s.skip(1)));
        } else {
            assert(compact(sp) == seq![s[0]] + compact(sp.skip(1)));
            assert(compact(s) == seq![s[0]] + compact(s.skip(1)));
            if x != 0u8 {
                assert(seq![s[0]] + compact(s.skip(1)).push(x) =~= (seq![s[0]] + compact(
                    s.skip(1),
                )).push(x));
            }
        }
    }
}

/// Row `r` of a flat board model.
pub open spec fn row_of(m: Seq<u8>, r: int) -> Seq<u8> {
    m.subrange(4 * r, 4 * r + 4)
}

/// The merge-left rule applied to every row of a board.
pub open spec fn spec_push_left(m: Seq<u8>) -> Seq<u8> {
    Seq::new(16, |i: int| merge_left(row_of(m, i / 4))[i % 4])
}

/// Rows and columns exchanged.
pub open spec fn spec_transpose(m: Seq<u8>) -> Seq<u8> {
    Seq::new(16, |i: int| m[(i % 4) * 4 + i / 4])
}

/// Every row reversed: the horizontal mirror image.
pub open spec fn spec_mirror(m: Seq<u8>) -> Seq<u8> {
    Seq::new(16, |i: int| m[(i / 4) * 4 + (3 - i % 4)])
}

/// The cell matrix a move produces, before the no-op test: each direction
/// is the merge-left rule conjugated by the symmetry that turns that
/// direction into "left".
pub open spec fn spec_moved(m: Seq<u8>, action: Action) -> Seq<u8> {
    match action {
        Action::Left => spec_push_left(m),
        Action::Up => spec_transpose(spec_push_left(spec_transpose(m))),
        Action::Down => spec_transpose(
            spec_mirror(spec_push_left(spec_mirror(spec_transpose(m)))),
        ),
        Action::Right => spec_mirror(spec_push_left(spec_mirror(m))),
    }
}

/// What applying an action returns: the moved board if the move changed
/// at least one cell, and nothing if the move is a no-op.
pub open spec fn spec_apply(m: Seq<u8>, action: Action) -> Option<Seq<u8>> {
    if spec_moved(m, action) == m {
        None
    } else {
        Some(spec_moved(m, action))
    }
}

/// Transposing twice restores every board exactly.
pub proof fn lemma_transpose_involutive(m: Seq<u8>)
    requires
        is_board(m),
    ensures
        spec_transpose(spec_transpose(m)) == m,
{
    assert forall|i: int| 0 <= i < 16 implies spec_transpose(spec_transpose(m))[i] == m[i] by {
        lemma_row_col(i % 4, i / 4);
        vstd::arithmetic::div_mod::lemma_fundamental_div_mod(i, 4);
    }
    assert(spec_transpose(spec_transpose(m)) =~= m);
}

/// Mirroring twice restores every board exactly.
pub proof fn lemma_mirror_involutive(m: Seq<u8>)
    requires
        is_board(m),
    ensures
        spec_mirror(spec_mirror(m)) == m,
{
    assert forall|i: int| 0 <= i < 16 implies spec_mirror(spec_mirror(m))[i] == m[i] by {
        lemma_row_col(i / 4, 3 - i % 4);
        vstd::arithmetic::div_mod::lemma_fundamental_div_mod(i, 4);
    }
    assert(spec_mirror(spec_mirror(m)) =~= m);
}

/// The number of empty cells of a flat board model.
pub open spec fn empty_count(s: Seq<u8>) -> nat
    decreases s.len(),
{
    if s.len() == 0 {
        0
    } else {
        (if s[0] == 0u8 {
            1nat
        } else {
            0nat
        }) + empty_count(s.skip(1))
    }
}

/// Counting empty cells commutes with appending one cell.
proof fn lemma_empty_count_push(s: Seq<u8>, x: u8)
    ensures
        empty_count(s.push(x)) == empty_count(s) + (if x == 0u8 {
            1nat
        } else {
            0nat
        }),
    decreases s.len(),
{
    let sp = s.push(x);
    if s.len() == 0 {
        assert(sp.len() == 1);
        assert(sp[0] == x);
        assert(sp.skip(1) =~= Seq::<u8>::empty());
        assert(empty_count(Seq::<u8>::empty()) == 0);
        assert(empty_count(s) == 0);
    } else {
        assert(sp[0] == s[0]);
        assert(sp.skip(1) =~= s.skip(1).push(x));
        lemma_empty_count_push(s.skip(1), x);
        assert(empty_count(sp) == (if sp[0] == 0u8 {
            1nat
        } else {
            0nat
        }) + empty_count(sp.skip(1)));
        assert(empty_count(s) == (if s[0] == 0u8 {
            1nat
        } else {
            0nat
        }) + empty_count(s.skip(1)));
    }
}

/// The spawn outcomes over the cells from index `i` on: for every empty
/// cell, a weight-9 outcome that writes exponent 1 and a weight-1 outcome
/// that writes exponent 2.
pub open spec fn spec_spawns(m: Seq<u8>, i: int) -> Seq<(u64, Seq<u8>)>
    decreases 16 - i,
{
    if i < 0 || i >= 16 {
        Seq::empty()
    } else if m[i] != 0u8 {
        spec_spawns(m, i + 1)
    } else {
        seq![(9u64, m.update(i, 1u8)), (1u64, m.update(i, 2u8))] + spec_spawns(m, i + 1)
    }
}

/// Every (weight, board) outcome a random spawn can produce, in cell order.
pub open spec fn spec_successors(m: Seq<u8>) -> Seq<(u64, Seq<u8>)> {
    spec_spawns(m, 0)
}

/// The sum of the probability weights of a list of outcomes.
pub open spec fn total_weight(items: Seq<(u64, Seq<u8>)>) -> int
    decreases items.len(),
{
    if items.len() == 0 {
        0
    } else {
        items[0].0 + total_weight(items.skip(1))
    }
}

/// The weighted outcomes of an executable successor list, as models.
pub open spec fn weighted_views(s: Seq<(u64, Board)>) -> Seq<(u64, Seq<u8>)> {
    s.map_values(|p: (u64, Board)| (p.0, p.1@))
}

/// The number of empty cells of `m` at index `i` or beyond.
pub open spec fn empty_from(m: Seq<u8>, i: int) -> int
    decreases 16 - i,
{
    if i < 0 || i >= 16 {
        0
    } else {
        (if m[i] == 0u8 {
            1int
        } else {
            0int
        }) + empty_from(m, i + 1)
    }
}

proof fn lemma_empty_from_is_empty_count(m: Seq<u8>, i: int)
    requires
        is_board(m),
        0 <= i <= 16,
    ensures
        empty_from(m, i) == empty_count(m.skip(i)),
    decreases 16 - i,
{
    if i == 16 {
        assert(m.skip(16) =~= Seq::<u8>::empty());
    } else {
        lemma_empty_from_is_empty_count(m, i + 1);
        assert(m.skip(i)[0] == m[i]);
        assert(m.skip(i).skip(1) =~= m.skip(i + 1));
    }
}

proof fn lemma_spawns_props(m: Seq<u8>, i: int)
    requires
        is_board(m),
        0 <= i <= 16,
    ensures
        spec_spawns(m, i).len() == 2 * empty_from(m, i),
        total_weight(spec_spawns(m, i)) == 10 * empty_from(m, i),
        forall|j: int|
            0 <= j < spec_spawns(m, i).len() ==> is_board(#[trigger] spec_spawns(m, i)[j].1) && (
            spec_spawns(m, i)[j].0 == 9 || spec_spawns(m, i)[j].0 == 1),
    decreases 16 - i,
{
    if i < 16 {
        lemma_spawns_props(m, i + 1);
        if m[i] == 0u8 {
            let rest = spec_spawns(m, i + 1);
            let items = spec_spawns(m, i);
            assert(items.skip(1).skip(1) =~= rest);
            assert(total_weight(items) == 9 + total_weight(items.skip(1)));
            assert(total_weight(items.skip(1)) == 1 + total_weight(rest));
        }
    }
}

/// The spawn distribution is complete: a board with `e` empty cells has
/// exactly `2 * e` spawn outcomes, and their weights add up to the whole
/// probability mass `10 * e`, so the outcome probabilities (weight over
/// `10 * e`) sum to exactly 1.
pub proof fn lemma_spawn_distribution(m: Seq<u8>)
    requires
        is_board(m),
    ensures
        spec_successors(m).len() == 2 * empty_count(m),
        total_weight(spec_successors(m)) == 10 * empty_count(m),
        forall|j: int|
            0 <= j < spec_successors(m).len() ==> is_board(#[trigger] spec_successors(m)[j].1) && (
            spec_successors(m)[j].0 == 9 || spec_successors(m)[j].0 == 1),
{
    lemma_spawns_props(m, 0);
    lemma_empty_from_is_empty_count(m, 0);
    assert(m.skip(0) =~= m);
}

/// Applies the merge-left rule to one row in place.
pub fn push_left(row: &mut [u8; 4])
    ensures
        final (row)@ == merge_left(old(row)@),
{
    let orig: [u8; 4] = *row;
    let mut comp: Vec<u8> = Vec::new();
    for i in 0..4
        invariant
            orig@ == old(row)@,
            comp@ == compact(orig@.take(i as int)),
    {
        proof {
            assert(orig@.take(i + 1) =~= orig@.take(i as int).push(orig@[i as int]));
            lemma_compact_push(orig@.take(i as int), orig@[i as int]);
        }
        if row[i] != 0 {
            comp.push(row[i]);
        }
    }
    proof {
        assert(orig@.take(4) =~= orig@);
        lemma_compact_len(orig@);
        assert(comp@.skip(0) =~= comp@);
        assert(Seq::<u8>::empty() + merge_pairs(comp@) =~= merge_pairs(comp@));
    }
    let mut merged: Vec<u8> = Vec::new();
    let mut i: usize = 0;
    while i < comp.len()
        invariant
            orig@ == old(row)@,
            comp@ == compact(orig@),
            i <= comp.len(),
            comp.len() <= 4,
            merged@.len() <= i,
            merge_pairs(comp@) == merged@ + merge_pairs(comp@.skip(i as int)),
        decreases comp.len() - i,
    {
        let ghost rest = comp@.skip(i as int);
        if i + 1 < comp.len() && comp[i + 1] == comp[i] {
            let v = comp[i];
            let b: u8 = if v == 255 {
                0
            } else {
                v + 1
            };
            merged.push(b);
            proof {
                assert(rest[0] == comp@[i as int]);
                assert(rest[1] == comp@[i + 1]);
                assert(rest.skip(2) =~= comp@.skip(i + 2));
                assert(merge_pairs(rest) == seq![bump(rest[0])] + merge_pairs(rest.skip(2)));
                assert(merged@ + merge_pairs(comp@.skip(i + 2)) =~= (merged@.drop_last()
                    + seq![bump(rest[0])]) + merge_pairs(comp@.skip(i + 2)));
                assert(merge_pairs(comp@) =~= merged@ + merge_pairs(comp@.skip(i + 2)));
            }
            i += 2;
        } else {
            merged.push(comp[i]);
            proof {
                assert(rest[0] == comp@[i as int]);
                assert(rest.skip(1) =~= comp@.skip(i + 1));
                assert(merge_pairs(rest) == seq![rest[0]] + merge_pairs(rest.skip(1)));
                assert(merge_pairs(comp@) =~= merged@ + merge_pairs(comp@.skip(i + 1)));
            }
            i += 1;
        }
    }
    proof {
        assert(comp@.skip(comp@.len() as int) =~= Seq::<u8>::empty());
        assert(merged@ =~= merge_pairs(compact(orig@)));
    }
    let mut out: [u8; 4] = [0u8; 4];
    for j in 0..4
        invariant
            orig@ == old(row)@,
            merged@ == merge_pairs(compact(orig@)),
            merged@.len() <= 4,
            forall|k: int| 0 <= k < j ==> out@[k] == merge_left(orig@)[k],
            forall|k: int| j <= k < 4 ==> out@[k] == 0u8,
    {
        if j < merged.len() {
            out[j] = merged[j];
        }
    }
    *row = out;
    proof {
        assert(out@ =~= merge_left(orig@));
    }
}

impl Board {
    /// Transposes the matrix in place, exchanging rows and columns.
    fn transpose(&mut self)
        ensures
            final (self)@ == spec_transpose(old(self)@),
    {
        let cur: Board = *self;
        for r in 0..4
            invariant
                cur@ == old(self)@,
                forall|i: int| 0 <= i < 4 * r ==> self@[i] == spec_transpose(cur@)[i],
                self@.len() == 16,
        {
            for c in 0..4
                invariant
                    r < 4,
                    cur@ == old(self)@,
                    forall|i: int| 0 <= i < 4 * (r as int) + c ==> self@[i] == spec_transpose(cur@)[i],
                    self@.len() == 16,
            {
                let v = cur.get(c, r);
                self.put(r, c, v);
                proof {
                    lemma_row_col(r as int, c as int);
                }
            }
        }
        proof {
            assert(self@ =~= spec_transpose(cur@));
        }
    }

    /// Reverses every row in place: the horizontal mirror image.
    fn swap_lr(&mut self)
        ensures
            final (self)@ == spec_mirror(old(self)@),
    {
        let cur: Board = *self;
        for r in 0..4
            invariant
                cur@ == old(self)@,
                forall|i: int| 0 <= i < 4 * r ==> self@[i] == spec_mirror(cur@)[i],
                self@.len() == 16,
        {
            for c in 0..4
                invariant
                    r < 4,
                    cur@ == old(self)@,
                    forall|i: int| 0 <= i < 4 * (r as int) + c ==> self@[i] == spec_mirror(cur@)[i],
                    self@.len() == 16,
            {
                let v = cur.get(r, 3 - c);
                self.put(r, c, v);
                proof {
                    lemma_row_col(r as int, c as int);
                }
            }
        }
        proof {
            assert(self@ =~= spec_mirror(cur@));
        }
    }

    /// Merges every row to the left in place.
    fn push_left(&mut self)
        ensures
            final (self)@ == spec_push_left(old(self)@),
    {
        let cur: Board = *self;
        for r in 0..4
            invariant
                cur@ == old(self)@,
                forall|i: int| 0 <= i < 4 * r ==> self@[i] == spec_push_left(cur@)[i],
                self@.len() == 16,
        {
            let mut row: [u8; 4] = [cur.get(r, 0), cur.get(r, 1), cur.get(r, 2), cur.get(r, 3)];
            proof {
                assert(row@ =~= row_of(cur@, r as int));
            }
            push_left(&mut row);
            self.put(r, 0, row[0]);
            self.put(r, 1, row[1]);
            self.put(r, 2, row[2]);
            self.put(r, 3, row[3]);
            proof {
                lemma_row_col(r as int, 0);
                lemma_row_col(r as int, 1);
                lemma_row_col(r as int, 2);
                lemma_row_col(r as int, 3);
                assert forall|i: int| 0 <= i < 4 * r + 4 implies self@[i] == spec_push_left(
                    cur@,
                )[i] by {
                    vstd::arithmetic::div_mod::lemma_fundamental_div_mod(i, 4);
                }
            }
        }
        proof {
            assert(self@ =~= spec_push_left(cur@));
        }
    }

    /// Builds the board with rows and columns exchanged.
    pub fn transposed(&self) -> (b: Board)
        ensures
            b@ == spec_transpose(self@),
    {
        let mut t = *self;
        t.transpose();
        t
    }

    /// Returns the board the action produces, or nothing when the action
    /// moves no tile. A successor always has an empty cell, so a spawn on
    /// it is always possible.
    pub fn apply(&self, action: Action) -> (r: Option<Board>)
        ensures
            match r {
                Some(b) => spec_apply(self@, action) == Some(b@) && b@ != self@ && empty_count(b@)
                    > 0,
                None => spec_apply(self@, action) is None,
            },
    {
        let mut next = *self;
        match action {
            Action::Left => {
                next.push_left();
            },
            Action::Up => {
                next.transpose();
                next.push_left();
                next.transpose();
            },
            Action::Down => {
                next.transpose();
                next.swap_lr();
                next.push_left();
                next.swap_lr();
                next.transpose();
            },
            Action::Right => {
                next.swap_lr();
                next.push_left();
                next.swap_lr();
            },
        }
        if *self == next {
            None
        } else {
            proof {
                lemma_changed_board_has_empty(self@, action);
            }
            Some(next)
        }
    }

    /// Places a random tile on one empty cell, chosen uniformly: the
    /// exponent is 1 with probability 9/10 and 2 with probability 1/10.
    pub fn add_random(&mut self)
        requires
            empty_count(old(self)@) > 0,
        ensures
            exists|i: int|
                0 <= i < 16 && old(self)@[i] == 0u8 && (final (self)@ == old(self)@.update(i, 1u8)
                    || final (self)@ == old(self)@.update(i, 2u8)),
    {
        let n = self.num_empty();
        let picked = crate::rng::random_below(n);
        let value: u8 = if crate::rng::random_below(10) < 9 {
            1
        } else {
            2
        };
        let mut seen: usize = 0;
        for i in 0..16
            invariant
                seen == empty_count(self@.take(i as int)),
                seen <= picked,
                picked < empty_count(self@),
                value == 1u8 || value == 2u8,
                self@ == old(self)@,
        {
            proof {
                assert(self@.take(i + 1) =~= self@.take(i as int).push(self@[i as int]));
                lemma_empty_count_push(self@.take(i as int), self@[i as int]);
            }
            if self.get(i / 4, i % 4) == 0 {
                if seen == picked {
                    proof {
                        vstd::arithmetic::div_mod::lemma_fundamental_div_mod(i as int, 4);
                    }
                    self.put(i / 4, i % 4, value);
                    return ;
                }
                seen += 1;
            }
        }
        proof {
            assert(self@.take(16) =~= self@);
        }
    }

    /// Lists every board a random spawn can produce, each with its
    /// probability weight; the weight of an outcome over the total weight
    /// `10 * empty_count` is its probability.
    pub fn random_successors(&self) -> (r: Vec<(u64, Board)>)
        ensures
            weighted_views(r@) == spec_successors(self@),
    {
        let cur: Board = *self;
        let mut out: Vec<(u64, Board)> = Vec::new();
        proof {
            assert(weighted_views(out@) =~= Seq::<(u64, Seq<u8>)>::empty());
            assert(Seq::<(u64, Seq<u8>)>::empty() + spec_spawns(cur@, 0) =~= spec_spawns(cur@, 0));
        }
        for i in 0..16
            invariant
                cur@ == self@,
                spec_spawns(cur@, 0) == weighted_views(out@) + spec_spawns(cur@, i as int),
        {
            proof {
                vstd::arithmetic::div_mod::lemma_fundamental_div_mod(i as int, 4);
            }
            if cur.get(i / 4, i % 4) == 0 {
                let mut b1 = cur;
                b1.put(i / 4, i % 4, 1);
                let mut b2 = cur;
                b2.put(i / 4, i % 4, 2);
                out.push((9, b1));
                out.push((1, b2));
                proof {
                    assert(weighted_views(out@) =~= weighted_views(out@.take(out@.len() - 2)).push(
                        (9u64, b1@),
                    ).push((1u64, b2@)));
                    assert(spec_spawns(cur@, 0) =~= weighted_views(out@) + spec_spawns(
                        cur@,
                        i + 1,
                    ));
                }
            } else {
                proof {
                    assert(spec_spawns(cur@, i as int) == spec_spawns(cur@, i + 1));
                }
            }
        }
        proof {
            assert(spec_spawns(cur@, 16) =~= Seq::<(u64, Seq<u8>)>::empty());
            assert(weighted_views(out@) =~= spec_spawns(cur@, 0));
        }
        out
    }

    /// Counts the empty cells of the board.
    pub fn num_empty(&self) -> (n: usize)
        ensures
            n == empty_count(self@),
            n <= 16,
    {
        let mut n: usize = 0;
        for i in 0..16
            invariant
                n == empty_count(self@.take(i as int)),
                n <= i,
        {
            proof {
                assert(self@.take(i + 1) =~= self@.take(i as int).push(self@[i as int]));
                lemma_empty_count_push(self@.take(i as int), self@[i as int]);
            }
            if self.get(i / 4, i % 4) == 0 {
                n += 1;
            }
        }
        proof {
            assert(self@.take(16) =~= self@);
        }
        n
    }
}

/// The value a tile code displays as: code `k > 0` stands for the tile
/// `2^k`, and code 0 is the empty cell (rendered as no tile at all).
pub fn tile_value(k: u8) -> (v: u64)
    requires
        k < 64,
    ensures
        v == vstd::arithmetic::power2::pow2(k as nat),
{
    let mut v: u64 = 1;
    let mut i: u8 = 0;
    proof {
        vstd::arithmetic::power2::lemma2_to64();
    }
    while i < k
        invariant
            i <= k < 64,
            v == vstd::arithmetic::power2::pow2(i as nat),
        decreases k - i,
    {
        proof {
            vstd::arithmetic::power2::lemma_pow2_strictly_increases(i as nat, 63);
            vstd::arithmetic::power2::lemma2_to64_rest();
            assert(vstd::arithmetic::power2::pow2((i + 1) as nat) == 2
                * vstd::arithmetic::power2::pow2(i as nat)) by {
                vstd::arithmetic::power2::lemma_pow2_unfold((i + 1) as nat);
            }
        }
        v = v * 2;
        i += 1;
    }
    proof {
        vstd::arithmetic::power2::lemma2_to64();
    }
    v
}

/// The canonical action order: Up, Down, Left, Right.
pub open spec fn spec_action(i: int) -> Action {
    if i == 0 {
        Action::Up
    } else if i == 1 {
        Action::Down
    } else if i == 2 {
        Action::Left
    } else {
        Action::Right
    }
}

/// The action at position `i` of the canonical order.
pub fn action_at(i: usize) -> (a: Action)
    requires
        i < 4,
    ensures
        a == spec_action(i as int),
{
    if i == 0 {
        Action::Up
    } else if i == 1 {
        Action::Down
    } else if i == 2 {
        Action::Left
    } else {
        Action::Right
    }
}

/// No direction moves any tile: the game is over.
pub open spec fn no_legal_action(m: Seq<u8>) -> bool {
    forall|i: int| 0 <= i < 4 ==> spec_apply(m, #[trigger] spec_action(i)) is None
}

/// The flat model of the all-empty board.
pub open spec fn empty_board() -> Seq<u8> {
    Seq::new(16, |i: int| 0u8)
}

/// A sequence of empty cells has as many empty cells as its length.
proof fn lemma_empty_count_all_zero(s: Seq<u8>)
    requires
        forall|i: int| 0 <= i < s.len() ==> s[i] == 0u8,
    ensures
        empty_count(s) == s.len(),
    decreases s.len(),
{
    if s.len() > 0 {
        lemma_empty_count_all_zero(s.skip(1));
    }
}

/// A board on which the agent must choose a direction (a decision-state).
///
/// It only offers the operations legal in that phase: applying an action,
/// which produces a chance-state, and inspection.
#[derive(Clone, Copy, Debug)]
pub struct PlayableBoard(Board);

impl View for PlayableBoard {
    type V = Seq<u8>;

    closed spec fn view(&self) -> Seq<u8> {
        self.0@
    }
}

impl PlayableBoard {
    /// Adopts a cell matrix as a decision-state, for callers that manage
    /// the turn phases themselves.
    pub fn from_board(b: Board) -> (p: PlayableBoard)
        ensures
            p@ == b@,
    {
        PlayableBoard(b)
    }

    /// The initial board: a single random tile spawned onto the empty grid.
    pub fn init() -> (p: PlayableBoard)
        ensures
            exists|i: int|
                0 <= i < 16 && (p@ == empty_board().update(i, 1u8) || p@ == empty_board().update(
                    i,
                    2u8,
                )),
    {
        let mut board = Board::empty();
        proof {
            lemma_empty_count_all_zero(board@);
            assert(board@ =~= empty_board());
        }
        board.add_random();
        PlayableBoard(board)
    }

    /// Applies an action: the resulting chance-state if the move changes
    /// the board, or nothing if the move is a no-op. A successor always
    /// has an empty cell, so the spawn that follows is always possible.
    pub fn apply(&self, action: Action) -> (r: Option<RandableBoard>)
        ensures
            match r {
                Some(b) => spec_apply(self@, action) == Some(b@) && b@ != self@ && empty_count(b@)
                    > 0,
                None => spec_apply(self@, action) is None,
            },
    {
        match self.0.apply(action) {
            Some(board) => Some(RandableBoard(board)),
            None => None,
        }
    }

    /// Whether the board holds at least one tile with exponent `i` or more.
    pub fn has_at_least_tile(&self, i: u8) -> (r: bool)
        ensures
            r == exists|k: int| 0 <= k < 16 && self@[k] >= i,
    {
        let mut k: usize = 0;
        while k < 16
            invariant
                k <= 16,
                forall|j: int| 0 <= j < k ==> self@[j] < i,
            decreases 16 - k,
        {
            proof {
                vstd::arithmetic::div_mod::lemma_fundamental_div_mod(k as int, 4);
            }
            if self.0.get(k / 4, k % 4) >= i {
                proof {
                    assert(self@[k as int] >= i);
                }
                return true;
            }
            k += 1;
        }
        false
    }

    /// Whether no direction moves any tile: the game is over.
    pub fn is_terminal(&self) -> (r: bool)
        ensures
            r == no_legal_action(self@),
    {
        let mut k: usize = 0;
        while k < 4
            invariant
                k <= 4,
                forall|j: int| 0 <= j < k ==> spec_apply(self@, #[trigger] spec_action(j)) is None,
            decreases 4 - k,
        {
            if self.0.apply(action_at(k)).is_some() {
                return false;
            }
            k += 1;
        }
        true
    }

    /// Reads the cell in row `r`, column `c`.
    pub fn get(&self, r: usize, c: usize) -> (v: u8)
        requires
            r < 4,
            c < 4,
        ensures
            v == self@[4 * r + c],
    {
        self.0.get(r, c)
    }
}

/// The weighted outcomes of an executable decision-state list, as models.
pub open spec fn weighted_views_p(s: Seq<(u64, PlayableBoard)>) -> Seq<(u64, Seq<u8>)> {
    s.map_values(|p: (u64, PlayableBoard)| (p.0, p.1@))
}

/// Every decision-state models a full 16-cell board.
pub broadcast proof fn lemma_playable_view_len(b: PlayableBoard)
    ensures
        is_board(#[trigger] b@),
{
}

/// A board on which a random tile is about to be placed (a chance-state).
///
/// It offers exactly the operations of that phase: one random draw, the
/// weighted enumeration of every spawn outcome, and the heuristic score.
#[derive(Clone, Copy, Debug)]
pub struct RandableBoard(Board);

impl View for RandableBoard {
    type V = Seq<u8>;

    closed spec fn view(&self) -> Seq<u8> {
        self.0@
    }
}

impl RandableBoard {
    /// Adopts a cell matrix as a chance-state, for callers that manage
    /// the turn phases themselves.
    pub fn from_board(b: Board) -> (r: RandableBoard)
        ensures
            r@ == b@,
    {
        RandableBoard(b)
    }

    /// Draws one random spawn: a fresh tile with exponent 1 (probability
    /// 9/10) or 2 (probability 1/10) lands on a uniformly chosen empty
    /// cell, producing the next decision-state.
    pub fn with_random_tile(&self) -> (p: PlayableBoard)
        requires
            empty_count(self@) > 0,
        ensures
            exists|i: int|
                0 <= i < 16 && self@[i] == 0u8 && (p@ == self@.update(i, 1u8) || p@ == self@.update(
                    i,
                    2u8,
                )),
    {
        let mut board = self.0;
        board.add_random();
        PlayableBoard(board)
    }

    /// Lists every decision-state a random spawn can produce, each with
    /// its probability weight out of `10 * empty_count`.
    pub fn successors(&self) -> (r: Vec<(u64, PlayableBoard)>)
        ensures
            weighted_views_p(r@) == spec_successors(self@),
    {
        let raw = self.0.random_successors();
        let mut out: Vec<(u64, PlayableBoard)> = Vec::new();
        let mut i: usize = 0;
        while i < raw.len()
            invariant
                weighted_views(raw@) == spec_successors(self@),
                i <= raw.len(),
                out@.len() == i,
                forall|j: int|
                    0 <= j < i ==> out@[j].0 == (#[trigger] raw@[j]).0 && (out@[j].1)@
                        == raw@[j].1@,
            decreases raw.len() - i,
        {
            let (w, b) = raw[i];
            let ghost prev = out@;
            out.push((w, PlayableBoard(b)));
            proof {
                assert forall|j: int| 0 <= j < i + 1 implies out@[j].0 == raw@[j].0 && (#[trigger] out@[j].1)@
                    == raw@[j].1@ by {
                    if j < i {
                        assert(out@[j] == prev[j]);
                        assert(prev[j].0 == raw@[j].0);
                        assert((prev[j].1)@ == raw@[j].1@);
                    } else {
                        assert(out@[j] == (w, PlayableBoard(b)));
                        assert(out@[j].0 == w);
                        assert(out@[j].1 == PlayableBoard(b));
                        assert((out@[j].1)@ == b@);
                        assert((out@[j].1)@ == raw@[j].1@);
                    }
                }
            }
            i += 1;
        }
        proof {
            assert(weighted_views_p(out@) =~= weighted_views(raw@));
        }
        out
    }

    /// The heuristic score of this chance-state.
    pub fn evaluate(&self) -> (s: u64)
        ensures
            s == crate::eval::spec_eval(self@),
            s <= crate::eval::EVAL_MAX,
    {
        crate::eval::eval(&self.0)
    }

    /// The underlying cell matrix.
    pub fn board(&self) -> (b: Board)
        ensures
            b@ == self@,
    {
        self.0
    }

    /// Counts the empty cells of this chance-state.
    pub fn num_empty(&self) -> (n: usize)
        ensures
            n == empty_count(self@),
            n <= 16,
    {
        self.0.num_empty()
    }
}

/// Every chance-state models a full 16-cell board.
pub broadcast proof fn lemma_randable_view_len(b: RandableBoard)
    ensures
        is_board(#[trigger] b@),
{
}

/// All non-empty cells of the row stand before all empty cells.
pub open spec fn is_compacted(s: Seq<u8>) -> bool {
    forall|i: int, j: int| 0 <= i < j < s.len() && s[i] == 0u8 ==> s[j] == 0u8
}

/// No tile stands directly left of an equal tile.
pub open spec fn no_adjacent_equal_tiles(s: Seq<u8>) -> bool {
    forall|i: int| 0 <= i < s.len() - 1 && #[trigger] s[i] != 0u8 ==> s[i] != s[i + 1]
}

proof fn lemma_compact_of_compacted(u: Seq<u8>)
    requires
        is_compacted(u),
    ensures
        compact(u).len() <= u.len(),
        compact(u) == u.take(compact(u).len() as int),
        forall|i: int| 0 <= i < compact(u).len() ==> u[i] != 0u8,
        forall|i: int| compact(u).len() <= i < u.len() ==> u[i] == 0u8,
    decreases u.len(),
{
    lemma_compact_len(u);
    if u.len() > 0 {
        let rest = u.skip(1);
        assert(is_compacted(rest)) by {
            assert forall|i: int, j: int|
                0 <= i < j < rest.len() && rest[i] == 0u8 implies rest[j] == 0u8 by {
                assert(u[i + 1] == rest[i]);
                assert(u[j + 1] == rest[j]);
            }
        }
        lemma_compact_of_compacted(rest);
        if u[0] == 0u8 {
            assert(compact(u) == compact(rest));
            assert forall|i: int| 0 <= i < u.len() implies u[i] == 0u8 by {
                if i > 0 {
                    assert(u[0] == 0u8 && 0 < i < u.len());
                }
            }
            assert(compact(rest).len() == 0) by {
                if compact(rest).len() > 0 {
                    assert(rest[0] != 0u8);
                }
            }
            assert(compact(u) =~= u.take(0));
        } else {
            assert(compact(u) == seq![u[0]] + compact(rest));
            let k = compact(rest).len() as int;
            assert(compact(u) =~= u.take(k + 1));
            assert forall|i: int| k + 1 <= i < u.len() implies u[i] == 0u8 by {
                assert(rest[i - 1] == u[i]);
            }
            assert forall|i: int| 0 <= i < k + 1 implies u[i] != 0u8 by {
                if i > 0 {
                    assert(rest[i - 1] != 0u8);
                }
            }
        }
    }
}

proof fn lemma_merge_pairs_identity(v: Seq<u8>)
    requires
        forall|i: int| 0 <= i < v.len() - 1 ==> #[trigger] v[i] != v[i + 1],
    ensures
        merge_pairs(v) == v,
    decreases v.len(),
{
    if v.len() > 0 {
        let rest = v.skip(1);
        assert forall|i: int| 0 <= i < rest.len() - 1 implies #[trigger] rest[i] != rest[i + 1] by {
            assert(rest[i] == v[i + 1]);
            assert(rest[i + 1] == v[i + 2]);
        }
        lemma_merge_pairs_identity(rest);
        if v.len() >= 2 {
            assert(v[1] != v[0]);
        }
        assert(merge_pairs(v) == seq![v[0]] + merge_pairs(rest));
        assert(seq![v[0]] + rest =~= v);
    } else {
        assert(merge_pairs(v) =~= v);
    }
}

/// The rows the merge-left rule leaves unchanged are exactly those whose
/// tiles already stand at the left with no equal tile directly right of
/// another.
pub proof fn lemma_merge_left_fixed_point(u: Seq<u8>)
    requires
        is_compacted(u),
        no_adjacent_equal_tiles(u),
    ensures
        merge_left(u) == u,
{
    lemma_compact_of_compacted(u);
    let t0 = compact(u);
    let k = t0.len() as int;
    assert forall|i: int| 0 <= i < t0.len() - 1 implies #[trigger] t0[i] != t0[i + 1] by {
        assert(t0[i] == u[i]);
        assert(t0[i + 1] == u[i + 1]);
        assert(u[i] != 0u8);
    }
    lemma_merge_pairs_identity(t0);
    assert(merge_left(u) =~= u);
}

/// Merging left twice gives the same row as merging once, whenever one
/// pass settles the row: the merged row must have its tiles at the left
/// with no two equal tiles adjacent. A single pass can break that (two
/// equal tiles followed by their doubled value merge into a new adjacent
/// equal pair, and at the 8-bit wrap a merge leaves an interior empty
/// cell), and a second pass then moves tiles again; those rows are
/// excluded, and no others are.
pub proof fn lemma_merge_left_idempotent(s: Seq<u8>)
    requires
        is_compacted(merge_left(s)),
        no_adjacent_equal_tiles(merge_left(s)),
    ensures
        merge_left(merge_left(s)) == merge_left(s),
{
    lemma_merge_left_fixed_point(merge_left(s));
}

proof fn lemma_compact_full(s: Seq<u8>)
    requires
        compact(s).len() == s.len(),
    ensures
        compact(s) == s,
    decreases s.len(),
{
    lemma_compact_len(s);
    if s.len() > 0 {
        lemma_compact_len(s.skip(1));
        if s[0] == 0u8 {
            assert(compact(s) == compact(s.skip(1)));
            assert(false);
        } else {
            lemma_compact_full(s.skip(1));
            assert(compact(s) =~= s);
        }
    } else {
        assert(compact(s) =~= s);
    }
}

proof fn lemma_merge_pairs_len(s: Seq<u8>)
    ensures
        merge_pairs(s).len() <= s.len(),
    decreases s.len(),
{
    if s.len() >= 2 && s[1] == s[0] {
        lemma_merge_pairs_len(s.skip(2));
    } else if s.len() > 0 {
        lemma_merge_pairs_len(s.skip(1));
    }
}

proof fn lemma_merge_pairs_full(s: Seq<u8>)
    requires
        merge_pairs(s).len() == s.len(),
    ensures
        merge_pairs(s) == s,
    decreases s.len(),
{
    if s.len() >= 2 && s[1] == s[0] {
        lemma_merge_pairs_len(s.skip(2));
        assert(false);
    } else if s.len() > 0 {
        lemma_merge_pairs_full(s.skip(1));
        assert(merge_pairs(s) =~= s);
    } else {
        assert(merge_pairs(s) =~= s);
    }
}

/// A row the merge-left rule changes ends in an empty cell afterwards.
proof fn lemma_merge_changed_row(s: Seq<u8>)
    requires
        s.len() == 4,
        merge_left(s) != s,
    ensures
        merge_left(s)[3] == 0u8,
{
    let t = merge_pairs(compact(s));
    lemma_compact_len(s);
    lemma_merge_pairs_len(compact(s));
    if t.len() >= 4 {
        assert(compact(s).len() == 4);
        lemma_compact_full(s);
        lemma_merge_pairs_full(s);
        assert(merge_left(s) =~= s);
        assert(false);
    }
}

proof fn lemma_zero_gives_empty(m: Seq<u8>, j: int)
    requires
        0 <= j < m.len(),
        m[j] == 0u8,
    ensures
        empty_count(m) > 0,
    decreases j,
{
    if j == 0 {
    } else {
        assert(m.skip(1)[j - 1] == m[j]);
        lemma_zero_gives_empty(m.skip(1), j - 1);
    }
}

/// A board the merge-left rule changes has an empty cell afterwards.
proof fn lemma_push_changed_has_zero(x: Seq<u8>)
    requires
        is_board(x),
        spec_push_left(x) != x,
    ensures
        exists|j: int| 0 <= j < 16 && spec_push_left(x)[j] == 0u8,
{
    let p = spec_push_left(x);
    if forall|i: int| 0 <= i < 16 ==> p[i] == x[i] {
        assert(p =~= x);
        assert(false);
    }
    let i = choose|i: int| 0 <= i < 16 && p[i] != x[i];
    vstd::arithmetic::div_mod::lemma_fundamental_div_mod(i, 4);
    let r = i / 4;
    let row = row_of(x, r);
    assert(x[i] == row[i % 4]);
    assert(merge_left(row) != row);
    lemma_merge_changed_row(row);
    lemma_row_col(r, 3);
    assert(p[4 * r + 3] == 0u8);
}

#[verifier::rlimit(100)]
#[verifier::spinoff_prover]
proof fn lemma_changed_left(m: Seq<u8>)
    requires
        is_board(m),
        spec_moved(m, Action::Left) != m,
    ensures
        empty_count(spec_moved(m, Action::Left)) > 0,
{
    lemma_push_changed_has_zero(m);
    let j = choose|j: int| 0 <= j < 16 && spec_push_left(m)[j] == 0u8;
    lemma_zero_gives_empty(spec_moved(m, Action::Left), j);
}

#[verifier::rlimit(100)]
#[verifier::spinoff_prover]
proof fn lemma_changed_up(m: Seq<u8>)
    requires
        is_board(m),
        spec_moved(m, Action::Up) != m,
    ensures
        empty_count(spec_moved(m, Action::Up)) > 0,
{
    lemma_transpose_involutive(m);
    let t = spec_transpose(m);
    assert(spec_push_left(t) != t) by {
        if spec_push_left(t) == t {
            assert(spec_moved(m, Action::Up) == m);
        }
    }
    lemma_push_changed_has_zero(t);
    let j = choose|j: int| 0 <= j < 16 && spec_push_left(t)[j] == 0u8;
    vstd::arithmetic::div_mod::lemma_fundamental_div_mod(j, 4);
    let j2 = (j % 4) * 4 + j / 4;
    lemma_row_col(j % 4, j / 4);
    assert(spec_moved(m, Action::Up)[j2] == spec_push_left(t)[j]);
    lemma_zero_gives_empty(spec_moved(m, Action::Up), j2);
}

#[verifier::rlimit(100)]
#[verifier::spinoff_prover]
proof fn lemma_changed_right(m: Seq<u8>)
    requires
        is_board(m),
        spec_moved(m, Action::Right) != m,
    ensures
        empty_count(spec_moved(m, Action::Right)) > 0,
{
    lemma_mirror_involutive(m);
    let w = spec_mirror(m);
    assert(spec_push_left(w) != w) by {
        if spec_push_left(w) == w {
            assert(spec_moved(m, Action::Right) == m);
        }
    }
    lemma_push_changed_has_zero(w);
    let j = choose|j: int| 0 <= j < 16 && spec_push_left(w)[j] == 0u8;
    vstd::arithmetic::div_mod::lemma_fundamental_div_mod(j, 4);
    let j2 = (j / 4) * 4 + (3 - j % 4);
    lemma_row_col(j / 4, 3 - j % 4);
    assert(spec_moved(m, Action::Right)[j2] == spec_push_left(w)[j]);
    lemma_zero_gives_empty(spec_moved(m, Action::Right), j2);
}

#[verifier::rlimit(100)]
#[verifier::spinoff_prover]
proof fn lemma_changed_down(m: Seq<u8>)
    requires
        is_board(m),
        spec_moved(m, Action::Down) != m,
    ensures
        empty_count(spec_moved(m, Action::Down)) > 0,
{
    lemma_transpose_involutive(m);
    let t = spec_transpose(m);
    let u = spec_mirror(t);
    lemma_mirror_involutive(t);
    assert(spec_push_left(u) != u) by {
        if spec_push_left(u) == u {
            assert(spec_moved(m, Action::Down) == m);
        }
    }
    lemma_push_changed_has_zero(u);
    let j = choose|j: int| 0 <= j < 16 && spec_push_left(u)[j] == 0u8;
    vstd::arithmetic::div_mod::lemma_fundamental_div_mod(j, 4);
    let jm = (j / 4) * 4 + (3 - j % 4);
    lemma_row_col(j / 4, 3 - j % 4);
    let q = spec_mirror(spec_push_left(u));
    assert(q[jm] == spec_push_left(u)[j]);
    let j2 = (jm % 4) * 4 + jm / 4;
    vstd::arithmetic::div_mod::lemma_fundamental_div_mod(jm, 4);
    lemma_row_col(jm % 4, jm / 4);
    assert(spec_moved(m, Action::Down)[j2] == q[jm]);
    lemma_zero_gives_empty(spec_moved(m, Action::Down), j2);
}

/// A move that changes the board always leaves at least one empty cell
/// behind, so a spawn is always possible on the chance-state a legal
/// action produces.
pub proof fn lemma_changed_board_has_empty(m: Seq<u8>, action: Action)
    requires
        is_board(m),
        spec_moved(m, action) != m,
    ensures
        empty_count(spec_moved(m, action)) > 0,
{
    match action {
        Action::Left => lemma_changed_left(m),
        Action::Up => lemma_changed_up(m),
        Action::Right => lemma_changed_right(m),
        Action::Down => lemma_changed_down(m),
    }
}

/// Every cell of the board holds a tile.
pub open spec fn is_full(m: Seq<u8>) -> bool {
    forall|i: int| 0 <= i < 16 ==> m[i] != 0u8
}

/// No two horizontally or vertically adjacent cells hold equal exponents.
pub open spec fn no_adjacent_equal(m: Seq<u8>) -> bool {
    &&& forall|r: int, c: int| 0 <= r < 4 && 0 <= c < 3 ==> #[trigger] m[4 * r + c] != m[4 * r + c + 1]
    &&& forall|r: int, c: int| 0 <= r < 3 && 0 <= c < 4 ==> #[trigger] m[4 * r + c] != m[4 * (r + 1) + c]
}

/// The row half of `no_adjacent_equal`.
pub open spec fn rows_no_adjacent_equal(m: Seq<u8>) -> bool {
    forall|r: int, c: int| 0 <= r < 4 && 0 <= c < 3 ==> #[trigger] m[4 * r + c] != m[4 * r + c + 1]
}

proof fn lemma_push_left_identity(m: Seq<u8>)
    requires
        is_board(m),
        is_full(m),
        rows_no_adjacent_equal(m),
    ensures
        spec_push_left(m) == m,
{
    assert forall|i: int| 0 <= i < 16 implies spec_push_left(m)[i] == m[i] by {
        vstd::arithmetic::div_mod::lemma_fundamental_div_mod(i, 4);
        let r = i / 4;
        let row = row_of(m, r);
        assert forall|c: int| 0 <= c < 4 implies row[c] == m[4 * r + c] && row[c] != 0u8 by {}
        assert(is_compacted(row)) by {
            assert forall|a: int, b: int|
                0 <= a < b < row.len() && row[a] == 0u8 implies row[b] == 0u8 by {
                assert(row[a] != 0u8);
            }
        }
        assert(no_adjacent_equal_tiles(row)) by {
            assert forall|c: int| 0 <= c < row.len() - 1 && #[trigger] row[c] != 0u8 implies row[c] != row[c
                + 1] by {
                assert(m[4 * r + c] != m[4 * r + c + 1]);
            }
        }
        lemma_merge_left_fixed_point(row);
    }
    assert(spec_push_left(m) =~= m);
}

/// A full board with no two adjacent equal exponents in any row or
/// column has no legal action: every direction is a no-op.
proof fn lemma_stuck_left(m: Seq<u8>)
    requires
        is_board(m),
        is_full(m),
        no_adjacent_equal(m),
    ensures
        spec_moved(m, Action::Left) == m,
{
    lemma_push_left_identity(m);
}

#[verifier::spinoff_prover]
proof fn lemma_stuck_up(m: Seq<u8>)
    requires
        is_board(m),
        is_full(m),
        no_adjacent_equal(m),
    ensures
        spec_moved(m, Action::Up) == m,
{
    let t = spec_transpose(m);
    assert(is_full(t)) by {
        assert forall|i: int| 0 <= i < 16 implies t[i] != 0u8 by {
            vstd::arithmetic::div_mod::lemma_fundamental_div_mod(i, 4);
        }
    }
    assert(rows_no_adjacent_equal(t)) by {
        assert forall|r: int, c: int| 0 <= r < 4 && 0 <= c < 3 implies #[trigger] t[4 * r + c] != t[
            4 * r + c + 1
        ] by {
            lemma_row_col(r, c);
            lemma_row_col(r, c + 1);
            assert(t[4 * r + c] == m[4 * c + r]);
            assert(t[4 * r + c + 1] == m[4 * (c + 1) + r]);
        }
    }
    lemma_push_left_identity(t);
    lemma_transpose_involutive(m);
}

#[verifier::spinoff_prover]
proof fn lemma_stuck_right(m: Seq<u8>)
    requires
        is_board(m),
        is_full(m),
        no_adjacent_equal(m),
    ensures
        spec_moved(m, Action::Right) == m,
{
    let w = spec_mirror(m);
    assert(is_full(w)) by {
        assert forall|i: int| 0 <= i < 16 implies w[i] != 0u8 by {
            vstd::arithmetic::div_mod::lemma_fundamental_div_mod(i, 4);
        }
    }
    assert(rows_no_adjacent_equal(w)) by {
        assert forall|r: int, c: int| 0 <= r < 4 && 0 <= c < 3 implies #[trigger] w[4 * r + c] != w[
            4 * r + c + 1
        ] by {
            lemma_row_col(r, c);
            lemma_row_col(r, c + 1);
            assert(w[4 * r + c] == m[4 * r + 3 - c]);
            assert(w[4 * r + c + 1] == m[4 * r + 2 - c]);
            assert(m[4 * r + (2 - c)] != m[4 * r + (2 - c) + 1]);
        }
    }
    lemma_push_left_identity(w);
    lemma_mirror_involutive(m);
}

#[verifier::spinoff_prover]
proof fn lemma_stuck_down(m: Seq<u8>)
    requires
        is_board(m),
        is_full(m),
        no_adjacent_equal(m),
    ensures
        spec_moved(m, Action::Down) == m,
{
    let t = spec_transpose(m);
    let tw = spec_mirror(t);
    assert(is_full(tw)) by {
        assert forall|i: int| 0 <= i < 16 implies tw[i] != 0u8 by {
            vstd::arithmetic::div_mod::lemma_fundamental_div_mod(i, 4);
        }
    }
    assert(rows_no_adjacent_equal(tw)) by {
        assert forall|r: int, c: int| 0 <= r < 4 && 0 <= c < 3 implies #[trigger] tw[4 * r + c]
            != tw[4 * r + c + 1] by {
            lemma_row_col(r, c);
            lemma_row_col(r, c + 1);
            lemma_row_col(3 - c, r);
            lemma_row_col(2 - c, r);
            assert(tw[4 * r + c] == t[4 * r + 3 - c]);
            assert(t[4 * r + (3 - c)] == m[4 * (3 - c) + r]);
            assert(tw[4 * r + c + 1] == t[4 * r + 2 - c]);
            assert(t[4 * r + (2 - c)] == m[4 * (2 - c) + r]);
            assert(m[4 * (2 - c) + r] != m[4 * ((2 - c) + 1) + r]);
        }
    }
    lemma_push_left_identity(tw);
    lemma_mirror_involutive(t);
    lemma_transpose_involutive(m);
}

/// A full board with no two adjacent equal exponents in any row or
/// column has no legal action: every direction is a no-op.
pub proof fn lemma_stuck_board(m: Seq<u8>)
    requires
        is_board(m),
        is_full(m),
        no_adjacent_equal(m),
    ensures
        no_legal_action(m),
{
    lemma_stuck_left(m);
    lemma_stuck_up(m);
    lemma_stuck_right(m);
    lemma_stuck_down(m);
    assert forall|i: int| 0 <= i < 4 implies spec_apply(m, #[trigger] spec_action(i)) is None by {
        assert(spec_moved(m, spec_action(i)) == m);
    }
}

} // verus!
