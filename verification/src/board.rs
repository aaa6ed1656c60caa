//! The sliding-puzzle board: a square grid of uniquely numbered tiles with one
//! empty slot, flattened row-major into a vector of cells. Tiles adjacent to
//! the empty slot can slide into it; the puzzle is solved when the tiles stand
//! in ascending row-major order with the empty slot last.

use vstd::prelude::*;
use crate::rng::{new_rng, gen_range_u32};
use vstd::arithmetic::div_mod::{
    lemma_fundamental_div_mod, lemma_mod_division_less_than_divisor, lemma_div_pos_is_pos,
    lemma_multiply_divide_lt,
};

verus! {

/// One of the four directions in which the empty slot can move.
#[derive(Clone, Copy)]
pub enum Direction {
    Up,
    Down,
    Left,
    Right,
}

/// The cell contents of a solved board of dimension `n`: the values
/// `1, 2, ..., n*n` in order.
pub open spec fn tile_seq(n: int) -> Seq<i32> {
    Seq::new((n * n) as nat, |i: int| (i + 1) as i32)
}

/// `s` holds each tile value of a board of dimension `n` exactly once.
pub open spec fn is_permutation(s: Seq<i32>, n: int) -> bool {
    s.to_multiset() == tile_seq(n).to_multiset()
}

/// The value that marks the empty slot on a board of dimension `n`.
pub open spec fn blank_value(n: int) -> int {
    n * n
}

/// The cells read `1, 2, ..., len` in order: every tile is in its home
/// position and the empty slot is last.
pub open spec fn solved_cells(s: Seq<i32>) -> bool {
    forall|i: int| 0 <= i < s.len() ==> s[i] as int == i + 1
}

/// The position of the empty slot in `s`: the index holding `blank_value(n)`.
/// Meaningful only when such an index exists (as it does on any permutation).
pub open spec fn empty_index_of(s: Seq<i32>, n: int) -> int {
    choose|k: int| 0 <= k < s.len() && s[k] as int == blank_value(n)
}

/// The linear index one step in direction `dir` from `index` on an `n` x `n`
/// grid, or `None` when that step would leave the grid. Rows and columns come
/// from the row-major flattening: `row = index / n`, `col = index % n`.
pub open spec fn neighbor_index(index: int, n: int, dir: Direction) -> Option<int>
    recommends
        1 <= n,
        0 <= index < n * n,
{
    let row = index / n;
    let col = index % n;
    match dir {
        Direction::Up => if row == 0 {
            None
        } else {
            Some((row - 1) * n + col)
        },
        Direction::Down => if row == n - 1 {
            None
        } else {
            Some((row + 1) * n + col)
        },
        Direction::Left => if col == 0 {
            None
        } else {
            Some(row * n + col - 1)
        },
        Direction::Right => if col == n - 1 {
            None
        } else {
            Some(row * n + col + 1)
        },
    }
}

/// The cells after the empty slot of `s` moves one step in direction `dir`:
/// the empty slot and its neighbor swap, or nothing changes when the step
/// would leave the grid.
pub open spec fn apply_move(s: Seq<i32>, n: int, dir: Direction) -> Seq<i32> {
    let e = empty_index_of(s, n);
    match neighbor_index(e, n, dir) {
        Some(nb) => s.update(e, s[nb]).update(nb, s[e]),
        None => s,
    }
}

/// The cells after the moves in `dirs` are applied in order.
pub open spec fn apply_moves(s: Seq<i32>, n: int, dirs: Seq<Direction>) -> Seq<i32>
    decreases dirs.len(),
{
    if dirs.len() == 0 {
        s
    } else {
        apply_moves(apply_move(s, n, dirs[0]), n, dirs.drop_first())
    }
}

/// `s` can be produced from the solved layout by some sequence of legal
/// moves; every such layout is solvable by replaying those moves backwards.
pub open spec fn reachable_from_solved(s: Seq<i32>, n: int) -> bool {
    exists|dirs: Seq<Direction>| s == apply_moves(tile_seq(n), n, dirs)
}

/// A sliding-puzzle board. `cells` is the row-major flattening of the grid;
/// each value in `1..=size*size` appears exactly once, and the value
/// `size*size` marks the empty slot. `solved` caches whether the tiles stand
/// in ascending order; it is recomputed after every mutation.
pub struct Board {
    pub cells: Vec<i32>,
    pub size: u8,
    pub solved: bool,
}

impl Board {
    /// The board invariant: a square cell vector holding a permutation of the
    /// tile values, with the solved flag consistent with the cells.
    pub open spec fn wf(self) -> bool {
        &&& 2 <= self.size
        &&& self.cells@.len() == (self.size as int) * (self.size as int)
        &&& is_permutation(self.cells@, self.size as int)
        &&& self.solved == solved_cells(self.cells@)
    }

    /// Constructs a board from an initial permutation of `1..=size*size` and
    /// computes its solved flag.
    pub fn new(cells: Vec<i32>, size: u8) -> (board: Board)
        requires
            2 <= size,
            cells@.len() == (size as int) * (size as int),
            is_permutation(cells@, size as int),
        ensures
            board.wf(),
            board.cells@ == cells@,
            board.size == size,
            board.solved == solved_cells(cells@),
    {
        let mut board = Board { cells, size, solved: false };
        board.check_solved();
        board
    }

    /// Replaces the tile layout wholesale and recomputes the solved flag.
    pub fn set_cells(&mut self, cells: Vec<i32>)
        requires
            old(self).wf(),
            cells@.len() == (old(self).size as int) * (old(self).size as int),
            is_permutation(cells@, old(self).size as int),
        ensures
            final(self).wf(),
            final(self).cells@ == cells@,
            final(self).size == old(self).size,
            final(self).solved == solved_cells(cells@),
    {
        self.cells = cells;
        self.check_solved();
    }

    /// Returns the position of the empty slot: the unique index whose cell
    /// holds the value `size * size`.
    pub fn get_empty_index(&self) -> (r: usize)
        requires
            self.wf(),
        ensures
            r < self.cells@.len(),
            self.cells@[r as int] as int == blank_value(self.size as int),
            r == empty_index_of(self.cells@, self.size as int),
    {
        proof {
            lemma_permutation_has_blank(self.cells@, self.size as int);
        }
        let blank: i32 = (self.size as i32) * (self.size as i32);
        let n = self.cells.len();
        let mut i: usize = 0;
        loop
            invariant
                self.wf(),
                n == self.cells@.len(),
                blank as int == blank_value(self.size as int),
                i < n,
                exists|k: int|
                    i <= k < n && self.cells@[k] as int == blank_value(self.size as int),
                forall|i2: int, j2: int|
                    0 <= i2 < n && 0 <= j2 < n && self.cells@[i2] as int == blank_value(
                        self.size as int,
                    ) && self.cells@[j2] as int == blank_value(self.size as int) ==> i2 == j2,
            decreases n - i,
        {
            if self.cells[i] == blank {
                proof {
                    let k = empty_index_of(self.cells@, self.size as int);
                    assert(0 <= k < self.cells@.len() && self.cells@[k] as int == blank_value(
                        self.size as int,
                    ));
                }
                return i;
            }
            i += 1;
        }
    }

    /// Resolves the linear index one step from `index` in the given
    /// direction, or `None` when that step would leave the grid.
    pub fn get_neighbor_index(&self, index: usize, direction: Direction) -> (r: Option<usize>)
        requires
            1 <= self.size,
            index < (self.size as int) * (self.size as int),
        ensures
            (match neighbor_index(index as int, self.size as int, direction) {
                Some(k) => r matches Some(v) && v as int == k,
                None => r is None,
            }),
    {
        proof {
            lemma_row_col(index as int, self.size as int);
            lemma_square_bound(self.size as int);
        }
        let n = self.size as usize;
        let row = index / n;
        let col = index % n;
        proof {
            assert((row + 1) * n <= n * n && row * n + col < n * n && (1 <= (row as int) ==> 0 <= ((
            row as int) - 1) * (n as int) && ((row as int) - 1) * (n as int) + (col as int) < (
            n as int) * (n as int))) by (nonlinear_arith)
                requires
                    0 <= (row as int),
                    0 <= (col as int),
                    (row as int) + 1 <= (n as int),
                    (col as int) < (n as int),
            ;
        }
        match direction {
            Direction::Up => if row == 0 {
                None
            } else {
                Some((row - 1) * n + col)
            },
            Direction::Down => if row == n - 1 {
                None
            } else {
                Some((row + 1) * n + col)
            },
            Direction::Left => if col == 0 {
                None
            } else {
                Some(row * n + col - 1)
            },
            Direction::Right => if col == n - 1 {
                None
            } else {
                Some(row * n + col + 1)
            },
        }
    }

    /// Slides the tile next to the empty slot into it, by moving the empty
    /// slot one step in the given direction. A step that would leave the grid
    /// is a silent no-op. The solved flag is recomputed either way.
    ///
    /// The cells always remain a permutation of the tile values: this is the
    /// permutation-preservation part of `final(self).wf()`.
    pub fn move_empty(&mut self, direction: Direction)
        requires
            old(self).wf(),
        ensures
            final(self).wf(),
            final(self).size == old(self).size,
            final(self).cells@ == apply_move(
                old(self).cells@,
                old(self).size as int,
                direction,
            ),
            neighbor_index(
                empty_index_of(old(self).cells@, old(self).size as int),
                old(self).size as int,
                direction,
            ) is None ==> final(self).cells@ == old(self).cells@ && final(self).solved == old(
                self,
            ).solved,
    {
        let ghost n = self.size as int;
        let ghost s0 = self.cells@;
        let empty_index = self.get_empty_index();
        let neighbor = self.get_neighbor_index(empty_index, direction);
        proof {
            lemma_neighbor_in_range(empty_index as int, n, direction);
        }
        if let Some(nb_index) = neighbor {
            let a = self.cells[empty_index];
            let b = self.cells[nb_index];
            self.cells[empty_index] = b;
            self.cells[nb_index] = a;
            proof {
                lemma_apply_move_preserves_permutation(s0, n, direction);
            }
        }
        self.check_solved();
    }

    /// Resets the board to the solved layout, then performs up to 20 rounds,
    /// each applying a random count (20..=99) of random-direction moves,
    /// stopping early the first time a round leaves the board unsolved.
    ///
    /// Only legal moves out of the solved layout are ever applied, so the
    /// result is always reachable from solved — hence solvable — whatever the
    /// generator returns. An unsolved result is overwhelmingly likely but not
    /// guaranteed: if all 20 rounds happen to land back on solved, the board
    /// is left as the last round produced it.
    pub fn scramble(&mut self)
        requires
            old(self).wf(),
        ensures
            final(self).wf(),
            final(self).size == old(self).size,
            reachable_from_solved(final(self).cells@, final(self).size as int),
    {
        let ghost n = self.size as int;
        proof {
            lemma_square_bound(n);
        }
        let size_us = self.size as usize;
        let sq = size_us * size_us;
        let mut cells: Vec<i32> = Vec::new();
        let mut v: i32 = 1;
        while cells.len() < sq
            invariant
                sq == n * n,
                sq <= 0xfe01,
                cells@.len() <= sq,
                v as int == cells@.len() + 1,
                forall|j: int| 0 <= j < cells@.len() ==> cells@[j] as int == j + 1,
            decreases sq - cells.len(),
        {
            cells.push(v);
            v = v + 1;
        }
        proof {
            assert(cells@ =~= tile_seq(n));
        }
        self.set_cells(cells);
        proof {
            assert(self.cells@ == apply_moves(tile_seq(n), n, Seq::<Direction>::empty()));
        }
        let mut rng = new_rng();
        let mut round: usize = 0;
        while round < 20
            invariant
                self.wf(),
                self.size == old(self).size,
                n == self.size as int,
                reachable_from_solved(self.cells@, n),
            ensures
                self.wf(),
                self.size == old(self).size,
                reachable_from_solved(self.cells@, n),
            decreases 20 - round,
        {
            let move_count = gen_range_u32(&mut rng, 20, 100);
            let mut m: u32 = 0;
            while m < move_count
                invariant
                    m <= move_count,
                    self.wf(),
                    self.size == old(self).size,
                    n == self.size as int,
                    reachable_from_solved(self.cells@, n),
                decreases move_count - m,
            {
                let d = gen_range_u32(&mut rng, 0, 4);
                let direction = if d == 0 {
                    Direction::Up
                } else if d == 1 {
                    Direction::Down
                } else if d == 2 {
                    Direction::Left
                } else {
                    Direction::Right
                };
                let ghost before = self.cells@;
                self.move_empty(direction);
                proof {
                    let dirs = choose|dirs: Seq<Direction>|
                        before == apply_moves(tile_seq(n), n, dirs);
                    lemma_apply_moves_push(tile_seq(n), n, dirs, direction);
                    assert(self.cells@ == apply_moves(tile_seq(n), n, dirs.push(direction)));
                }
                m += 1;
            }
            if !self.solved {
                break;
            }
            round += 1;
        }
    }

    /// Recomputes the solved flag from the cells.
    fn check_solved(&mut self)
        requires
            old(self).size <= 255,
            old(self).cells@.len() == (old(self).size as int) * (old(self).size as int),
        ensures
            final(self).cells == old(self).cells,
            final(self).size == old(self).size,
            final(self).solved == solved_cells(old(self).cells@),
    {
        proof {
            lemma_square_bound(self.size as int);
        }
        let n = self.cells.len();
        let mut solved = true;
        let mut i: usize = 0;
        while i < n
            invariant
                i <= n,
                n == self.cells@.len(),
                n <= 0xfe01,
                self.cells == old(self).cells,
                self.size == old(self).size,
                solved == (forall|j: int| 0 <= j < i ==> self.cells@[j] as int == j + 1),
            decreases n - i,
        {
            if self.cells[i] != (i as i32) + 1 {
                solved = false;
            }
            i += 1;
        }
        self.solved = solved;
    }
}

/// Bounds of the row and column read off a linear index on an `n` x `n` grid.
proof fn lemma_row_col(index: int, n: int)
    requires
        0 < n,
        0 <= index < n * n,
    ensures
        0 <= index / n < n,
        0 <= index % n < n,
        index == (index / n) * n + index % n,
{
    lemma_fundamental_div_mod(index, n);
    lemma_mod_division_less_than_divisor(index, n);
    lemma_div_pos_is_pos(index, n);
    lemma_multiply_divide_lt(index, n, n);
    assert(n * (index / n) == (index / n) * n) by (nonlinear_arith);
}

/// A resolved neighbor lies on the grid and differs from the index it was
/// resolved from.
pub proof fn lemma_neighbor_in_range(index: int, n: int, dir: Direction)
    requires
        1 <= n,
        0 <= index < n * n,
    ensures
        (match neighbor_index(index, n, dir) {
            Some(k) => 0 <= k < n * n && k != index,
            None => true,
        }),
{
    lemma_row_col(index, n);
    let row = index / n;
    let col = index % n;
    assert((1 <= row ==> (row - 1) * n + col == index - n && n <= row * n) && (row <= n - 2 ==> (row
        + 1) * n + col == index + n && index + n < n * n) && 0 <= row * n && row * n + n <= n
        * n) by (nonlinear_arith)
        requires
            1 <= n,
            0 <= row,
            0 <= col < n,
            row < n,
            index == row * n + col,
    ;
}

/// Swapping the contents of two in-range positions keeps the cells a
/// permutation of the tile values.
pub proof fn lemma_swap_preserves_permutation(s: Seq<i32>, n: int, a: int, b: int)
    requires
        is_permutation(s, n),
        0 <= a < s.len(),
        0 <= b < s.len(),
    ensures
        is_permutation(s.update(a, s[b]).update(b, s[a]), n),
{
    broadcast use vstd::seq_lib::group_to_multiset_ensures;
    broadcast use vstd::multiset::group_multiset_axioms;

    let s1 = s.update(a, s[b]);
    let s2 = s1.update(b, s[a]);
    assert(s1.to_multiset() == s.to_multiset().insert(s[b]).remove(s[a]));
    assert(s2.to_multiset() == s1.to_multiset().insert(s[a]).remove(s1[b]));
    assert(s.to_multiset().count(s[a]) > 0 && s.to_multiset().count(s[b]) > 0) by {
        assert(s.contains(s[a]) && s.contains(s[b]));
    }
    if a == b {
        assert(s2.to_multiset() =~= s.to_multiset());
    } else {
        assert(s1[b] == s[b]);
        assert(s2.to_multiset() =~= s.to_multiset());
    }
}

/// One application of `apply_move` keeps the cells a permutation of the tile
/// values and keeps their length.
pub proof fn lemma_apply_move_preserves_permutation(s: Seq<i32>, n: int, dir: Direction)
    requires
        1 <= n <= 255,
        s.len() == n * n,
        is_permutation(s, n),
    ensures
        is_permutation(apply_move(s, n, dir), n),
        apply_move(s, n, dir).len() == n * n,
{
    lemma_permutation_has_blank(s, n);
    let e = empty_index_of(s, n);
    assert(0 <= e < s.len() && s[e] as int == blank_value(n));
    lemma_neighbor_in_range(e, n, dir);
    match neighbor_index(e, n, dir) {
        Some(nb) => {
            lemma_swap_preserves_permutation(s, n, e, nb);
        },
        None => {},
    }
}

/// On a permutation of the tile values the empty slot exists and is unique:
/// exactly one index holds `blank_value(n)`.
pub proof fn lemma_permutation_has_blank(s: Seq<i32>, n: int)
    requires
        1 <= n <= 255,
        is_permutation(s, n),
    ensures
        exists|k: int| 0 <= k < s.len() && s[k] as int == blank_value(n),
        forall|i: int, j: int|
            0 <= i < s.len() && 0 <= j < s.len() && s[i] as int == blank_value(n) && s[j] as int
                == blank_value(n) ==> i == j,
{
    broadcast use vstd::seq_lib::group_to_multiset_ensures;

    let t = tile_seq(n);
    let b: i32 = (n * n) as i32;
    lemma_square_bound(n);
    assert(t.no_duplicates()) by {
        assert(forall|i: int, j: int|
            0 <= i < t.len() && 0 <= j < t.len() && i != j ==> t[i] as int == i + 1 && t[j] as int
                == j + 1);
    }
    t.lemma_multiset_has_no_duplicates();
    assert(1 <= n * n) by (nonlinear_arith)
        requires
            1 <= n,
    ;
    assert(t[n * n - 1] == b);
    assert(t.contains(b));
    assert(t.to_multiset().count(b) == 1);
    assert(s.to_multiset().count(b) == 1);
    assert(s.contains(b));
    let k = choose|k: int| 0 <= k < s.len() && s[k] == b;
    assert(s[k] as int == blank_value(n));
    assert(forall|x: i32| s.to_multiset().contains(x) ==> s.to_multiset().count(x) == 1) by {
        assert(forall|x: i32| t.to_multiset().contains(x) ==> t.to_multiset().count(x) == 1);
    }
    s.lemma_multiset_has_no_duplicates_conv();
    assert forall|i: int, j: int|
        0 <= i < s.len() && 0 <= j < s.len() && s[i] as int == blank_value(n) && s[j] as int
            == blank_value(n) implies i == j by {
        if i != j {
            assert(s[i] != s[j]);
        }
    }
}

/// The solved predicate holds exactly when the cells read `1, 2, ..., n*n`
/// in row-major order, i.e. equal the solved layout itself.
pub proof fn lemma_solved_iff_tile_seq(s: Seq<i32>, n: int)
    requires
        1 <= n <= 255,
        s.len() == n * n,
    ensures
        solved_cells(s) <==> s == tile_seq(n),
{
    lemma_square_bound(n);
    if solved_cells(s) {
        assert(s =~= tile_seq(n));
    }
    if s == tile_seq(n) {
        assert(forall|i: int| 0 <= i < s.len() ==> s[i] as int == i + 1);
    }
}

/// Appending one more move to a sequence of moves applies it last.
pub proof fn lemma_apply_moves_push(s: Seq<i32>, n: int, dirs: Seq<Direction>, d: Direction)
    ensures
        apply_moves(s, n, dirs.push(d)) == apply_move(apply_moves(s, n, dirs), n, d),
    decreases dirs.len(),
{
    if dirs.len() == 0 {
        assert(dirs.push(d).drop_first() =~= Seq::<Direction>::empty());
        assert(dirs.push(d)[0] == d);
        assert(apply_moves(apply_move(s, n, d), n, Seq::<Direction>::empty()) == apply_move(
            s,
            n,
            d,
        ));
        assert(apply_moves(s, n, dirs.push(d)) == apply_move(s, n, d));
    } else {
        assert(dirs.push(d)[0] == dirs[0]);
        assert(dirs.push(d).drop_first() =~= dirs.drop_first().push(d));
        lemma_apply_moves_push(apply_move(s, n, dirs[0]), n, dirs.drop_first(), d);
    }
}

/// However many moves are applied, and whatever they are, the cells remain a
/// permutation of the tile values: legal moves only ever swap two cells.
pub proof fn lemma_moves_preserve_permutation(s: Seq<i32>, n: int, dirs: Seq<Direction>)
    requires
        1 <= n <= 255,
        s.len() == n * n,
        is_permutation(s, n),
    ensures
        is_permutation(apply_moves(s, n, dirs), n),
        apply_moves(s, n, dirs).len() == n * n,
    decreases dirs.len(),
{
    if dirs.len() > 0 {
        lemma_apply_move_preserves_permutation(s, n, dirs[0]);
        lemma_moves_preserve_permutation(apply_move(s, n, dirs[0]), n, dirs.drop_first());
    }
}

/// The square of a dimension that fits in a byte fits comfortably in the
/// machine's integer types.
proof fn lemma_square_bound(n: int)
    requires
        0 <= n <= 255,
    ensures
        0 <= n * n <= 0xfe01,
{
    assert(n * n <= 255 * 255) by (nonlinear_arith)
        requires
            0 <= n <= 255,
    ;
}

} // verus!
