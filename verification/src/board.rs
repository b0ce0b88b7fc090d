//! The board model: a 4x4 grid holding a permutation of the values 0..16,
//! where 0 marks the blank, together with the four slide moves, the
//! heuristic distance between two boards, and the single-slide adjacency
//! test used by path reconstruction.

use vstd::prelude::*;

verus! {

/// Width and height of the square grid.
pub const BOARD_SIZE: usize = 4;

/// Number of cells on the board.
pub const BOARD_CELLS: usize = 16;

/// Column of a linear cell index.
pub open spec fn grid_x(i: int) -> int {
    i % 4
}

/// Row of a linear cell index.
pub open spec fn grid_y(i: int) -> int {
    i / 4
}

/// A well-formed board: the 16 cells hold each of the values 0..16 exactly
/// once (0 is the blank).
pub open spec fn is_perm(s: Seq<u8>) -> bool {
    &&& s.len() == 16
    &&& forall|i: int| 0 <= i < 16 ==> s[i] < 16
    &&& forall|i: int, j: int| 0 <= i < j < 16 ==> s[i] != s[j]
    &&& forall|v: u8| v < 16 ==> #[trigger] s.contains(v)
}

/// The cell of board `s` holding value `v`; unique when `s` is a
/// permutation and `v < 16`.
pub open spec fn pos_of(s: Seq<u8>, v: u8) -> int {
    choose|i: int| 0 <= i < 16 && s[i] == v
}

/// The cell holding the blank.
pub open spec fn zero_idx(s: Seq<u8>) -> int {
    pos_of(s, 0)
}

/// The board with the contents of cells `i` and `j` exchanged.
pub open spec fn swap_cells(s: Seq<u8>, i: int, j: int) -> Seq<u8> {
    s.update(i, s[j]).update(j, s[i])
}

/// Weighted sum of the first `n` cells; each cell contributes under its own
/// positional weight, so the full sum depends on every cell.
pub open spec fn hash_prefix(s: Seq<u8>, n: int) -> int
    decreases n,
{
    if n <= 0 {
        0
    } else {
        hash_prefix(s, n - 1) + n * s[n - 1]
    }
}

/// Checksum of a whole board, cached on each state as a cheap inequality
/// pre-check: boards with different checksums must differ.
pub open spec fn board_hash(s: Seq<u8>) -> int {
    hash_prefix(s, 16)
}

/// Number of cells among the first `n` on which the two boards disagree.
pub open spec fn count_diff(a: Seq<u8>, b: Seq<u8>, n: int) -> int
    decreases n,
{
    if n <= 0 {
        0
    } else {
        count_diff(a, b, n - 1) + if a[n - 1] != b[n - 1] {
            1int
        } else {
            0int
        }
    }
}

/// Boards exactly one legal slide apart: their blanks sit in different
/// cells and exactly two cells disagree.
pub open spec fn single_step_boards(a: Seq<u8>, b: Seq<u8>) -> bool {
    zero_idx(a) != zero_idx(b) && count_diff(a, b, 16) == 2
}

/// A square.
pub open spec fn sq(d: int) -> int {
    d * d
}

/// Sum over the first `n` cells of `a` of the squared grid distance between
/// the cell and the cell of `b` holding the same tile.
pub open spec fn diff_prefix(a: Seq<u8>, b: Seq<u8>, n: int) -> int
    decreases n,
{
    if n <= 0 {
        0
    } else {
        diff_prefix(a, b, n - 1) + sq(grid_x(n - 1) - grid_x(pos_of(b, a[n - 1]))) + sq(
            grid_y(n - 1) - grid_y(pos_of(b, a[n - 1])),
        )
    }
}

/// Heuristic distance between two boards: for every tile, the squared
/// Euclidean distance between its cell in `a` and its cell in `b`.
pub open spec fn diff_spec(a: Seq<u8>, b: Seq<u8>) -> int {
    diff_prefix(a, b, 16)
}

/// Converts a linear cell index into (column, row) coordinates.
/// Recombining the coordinates gives the index back.
pub fn get_xy_pos(zero_pos: usize) -> (r: (usize, usize))
    ensures
        r.0 == grid_x(zero_pos as int),
        r.1 == grid_y(zero_pos as int),
        r.1 * 4 + r.0 == zero_pos,
{
    let x = zero_pos % BOARD_SIZE;
    let y = (zero_pos - x) / BOARD_SIZE;
    (x, y)
}

/// In a permutation, a cell holding `v` is the one cell `pos_of` names.
pub proof fn lemma_pos_of_unique(s: Seq<u8>, v: u8, i: int)
    requires
        is_perm(s),
        0 <= i < 16,
        s[i] == v,
    ensures
        pos_of(s, v) == i,
{
    let j = pos_of(s, v);
    assert(0 <= j < 16 && s[j] == v);
}

/// A discovered configuration: a board, the cached cell of its blank, the
/// cached checksum, the number of slides from the search's start that
/// produced it, and one flag per direction recording that the direction
/// has been attempted from this state.
pub struct BoardState {
    pub board: Vec<u8>,
    pub left_done: bool,
    pub right_done: bool,
    pub up_done: bool,
    pub down_done: bool,
    pub zero_pos: usize,
    pub range: u32,
    pub hash: usize,
}

impl BoardState {
    /// Internal invariant: the board is a permutation, and the cached blank
    /// cell and checksum agree with it.
    pub open spec fn wf(self) -> bool {
        &&& is_perm(self.board@)
        &&& self.zero_pos < 16
        &&& self.board@[self.zero_pos as int] == 0
        &&& self.hash == board_hash(self.board@)
    }

    /// Some direction has not been attempted yet.
    pub open spec fn can_move_spec(self) -> bool {
        !(self.left_done && self.right_done && self.up_done && self.down_done)
    }

    /// Builds a state around a board whose blank cell is already known.
    pub fn new(board: Vec<u8>, zero_pos: usize, range: u32) -> (r: BoardState)
        requires
            is_perm(board@),
            zero_pos < 16,
            board@[zero_pos as int] == 0,
        ensures
            r.board@ == board@,
            r.zero_pos == zero_pos,
            r.range == range,
            !r.left_done && !r.right_done && !r.up_done && !r.down_done,
            r.wf(),
    {
        let mut hash: usize = 0;
        let mut i: usize = 0;
        while i < BOARD_CELLS
            invariant
                is_perm(board@),
                i <= 16,
                hash == hash_prefix(board@, i as int),
                hash <= 240 * i,
            decreases 16 - i,
        {
            let cell = board[i];
            proof {
                lemma_weight_bound(i as int + 1, cell as int);
            }
            hash = hash + (i + 1) * (cell as usize);
            i = i + 1;
        }
        BoardState {
            board,
            zero_pos,
            range,
            hash,
            left_done: false,
            right_done: false,
            up_done: false,
            down_done: false,
        }
    }

    /// Builds a fresh state (zero slides deep) from a board, locating the
    /// blank by scanning.
    pub fn new_from_board(board: Vec<u8>) -> (r: BoardState)
        requires
            is_perm(board@),
        ensures
            r.board@ == board@,
            r.zero_pos == zero_idx(board@),
            r.range == 0,
            !r.left_done && !r.right_done && !r.up_done && !r.down_done,
            r.wf(),
    {
        proof {
            assert(board@.contains(0u8));
        }
        let mut i: usize = 0;
        while board[i] != 0
            invariant
                is_perm(board@),
                i < 16,
                forall|k: int| 0 <= k < i ==> board@[k] != 0,
                exists|w: int| i <= w < 16 && board@[w] == 0,
            decreases 16 - i,
        {
            i = i + 1;
            proof {
                let w = choose|w: int| i - 1 <= w < 16 && board@[w] == 0;
                assert(i <= w < 16 && board@[w] == 0);
            }
        }
        proof {
            lemma_pos_of_unique(board@, 0u8, i as int);
        }
        Self::new(board, i, 0)
    }

    /// Some direction has not been attempted from this state yet.
    pub fn can_move(&self) -> (r: bool)
        ensures
            r == self.can_move_spec(),
    {
        !self.left_done || !self.right_done || !self.up_done || !self.down_done
    }

    /// Re-opens this state for exploration along a shorter path: takes over
    /// the other state's depth and clears the expansion flags. The board
    /// itself is untouched.
    pub fn reset_state(&mut self, other: &BoardState)
        ensures
            final(self).board@ == old(self).board@,
            final(self).zero_pos == old(self).zero_pos,
            final(self).hash == old(self).hash,
            final(self).range == other.range,
            !final(self).left_done && !final(self).right_done && !final(self).up_done
                && !final(self).down_done,
            old(self).wf() ==> final(self).wf(),
    {
        self.range = other.range;
        self.left_done = false;
        self.right_done = false;
        self.up_done = false;
        self.down_done = false;
    }

    /// Full inequality test between the boards, preceded by the cached
    /// checksum as a fast negative pre-check.
    pub fn is_diff_board(&self, other: &Self) -> (r: bool)
        requires
            self.wf(),
            other.wf(),
        ensures
            r <==> self.board@ != other.board@,
    {
        if self.hash != other.hash {
            proof {
                assert(self.board@ != other.board@) by {
                    if self.board@ == other.board@ {
                        assert(board_hash(self.board@) == board_hash(other.board@));
                    }
                }
            }
            return true;
        }
        let mut i: usize = 0;
        while i < BOARD_CELLS
            invariant
                i <= 16,
                self.board@.len() == 16,
                other.board@.len() == 16,
                forall|k: int| 0 <= k < i ==> self.board@[k] == other.board@[k],
            decreases 16 - i,
        {
            if self.board[i] != other.board[i] {
                return true;
            }
            i = i + 1;
        }
        proof {
            assert(self.board@ =~= other.board@);
        }
        false
    }

    /// The other board is one legal slide away from this one: the blanks
    /// sit in different cells and exactly two cells disagree. Tolerates
    /// arbitrary well-formed boards; unrelated boards simply give false.
    pub fn is_single_step_diff(&self, other: &Self) -> (r: bool)
        requires
            self.wf(),
            other.wf(),
        ensures
            r == single_step_boards(self.board@, other.board@),
    {
        proof {
            lemma_pos_of_unique(self.board@, 0u8, self.zero_pos as int);
            lemma_pos_of_unique(other.board@, 0u8, other.zero_pos as int);
        }
        if self.zero_pos == other.zero_pos {
            return false;
        }
        let mut changes_count: usize = 0;
        let mut i: usize = 0;
        while i < BOARD_CELLS
            invariant
                i <= 16,
                self.board@.len() == 16,
                other.board@.len() == 16,
                changes_count == count_diff(self.board@, other.board@, i as int),
                changes_count <= i,
            decreases 16 - i,
        {
            if self.board[i] != other.board[i] {
                changes_count = changes_count + 1;
            }
            i = i + 1;
        }
        changes_count == 2
    }

    /// An equal copy of this state.
    pub fn duplicate(&self) -> (r: BoardState)
        ensures
            r.board@ == self.board@,
            r.zero_pos == self.zero_pos,
            r.range == self.range,
            r.hash == self.hash,
            r.left_done == self.left_done,
            r.right_done == self.right_done,
            r.up_done == self.up_done,
            r.down_done == self.down_done,
            self.wf() ==> r.wf(),
    {
        BoardState {
            board: clone_board(&self.board),
            left_done: self.left_done,
            right_done: self.right_done,
            up_done: self.up_done,
            down_done: self.down_done,
            zero_pos: self.zero_pos,
            range: self.range,
            hash: self.hash,
        }
    }

    /// Attempts to slide the blank one cell to the left, marking the
    /// attempt on this state. Absent exactly when the blank is in column 0.
    pub fn move_left(&mut self) -> (r: Option<BoardState>)
        requires
            old(self).wf(),
            old(self).range < u32::MAX,
        ensures
            unchanged_but_flags(*old(self), *final(self)),
            final(self).left_done,
            final(self).right_done == old(self).right_done,
            final(self).up_done == old(self).up_done,
            final(self).down_done == old(self).down_done,
            r is None <==> grid_x(old(self).zero_pos as int) == 0,
            (r matches Some(n) ==> is_successor(
                n,
                *old(self),
                old(self).zero_pos as int - 1,
            )),
    {
        self.left_done = true;
        let (x, _y) = get_xy_pos(self.zero_pos);
        if x == 0 {
            return None;
        }
        let mut new_board = clone_board(&self.board);
        let buf = new_board[self.zero_pos - 1];
        new_board[self.zero_pos - 1] = 0;
        new_board[self.zero_pos] = buf;
        proof {
            let z = self.zero_pos as int;
            assert(new_board@ =~= swap_cells(self.board@, z - 1, z));
            lemma_swap_single_step(self.board@, z - 1, z);
        }
        Some(BoardState::new(new_board, self.zero_pos - 1, self.range + 1))
    }

    /// Attempts to slide the blank one cell to the right, marking the
    /// attempt on this state. Absent exactly when the blank is in column 3.
    pub fn move_right(&mut self) -> (r: Option<BoardState>)
        requires
            old(self).wf(),
            old(self).range < u32::MAX,
        ensures
            unchanged_but_flags(*old(self), *final(self)),
            final(self).right_done,
            final(self).left_done == old(self).left_done,
            final(self).up_done == old(self).up_done,
            final(self).down_done == old(self).down_done,
            r is None <==> grid_x(old(self).zero_pos as int) == 3,
            (r matches Some(n) ==> is_successor(
                n,
                *old(self),
                old(self).zero_pos as int + 1,
            )),
    {
        self.right_done = true;
        let (x, _y) = get_xy_pos(self.zero_pos);
        if x == BOARD_SIZE - 1 {
            return None;
        }
        let mut new_board = clone_board(&self.board);
        let buf = new_board[self.zero_pos + 1];
        new_board[self.zero_pos + 1] = 0;
        new_board[self.zero_pos] = buf;
        proof {
            let z = self.zero_pos as int;
            assert(new_board@ =~= swap_cells(self.board@, z + 1, z));
            lemma_swap_single_step(self.board@, z + 1, z);
        }
        Some(BoardState::new(new_board, self.zero_pos + 1, self.range + 1))
    }

    /// Attempts to slide the blank one cell up, marking the attempt on
    /// this state. Absent exactly when the blank is in row 0.
    pub fn move_up(&mut self) -> (r: Option<BoardState>)
        requires
            old(self).wf(),
            old(self).range < u32::MAX,
        ensures
            unchanged_but_flags(*old(self), *final(self)),
            final(self).up_done,
            final(self).left_done == old(self).left_done,
            final(self).right_done == old(self).right_done,
            final(self).down_done == old(self).down_done,
            r is None <==> grid_y(old(self).zero_pos as int) == 0,
            (r matches Some(n) ==> is_successor(
                n,
                *old(self),
                old(self).zero_pos as int - 4,
            )),
    {
        self.up_done = true;
        let (_x, y) = get_xy_pos(self.zero_pos);
        if y == 0 {
            return None;
        }
        let mut new_board = clone_board(&self.board);
        let buf = new_board[self.zero_pos - BOARD_SIZE];
        new_board[self.zero_pos - BOARD_SIZE] = 0;
        new_board[self.zero_pos] = buf;
        proof {
            let z = self.zero_pos as int;
            assert(new_board@ =~= swap_cells(self.board@, z - 4, z));
            lemma_swap_single_step(self.board@, z - 4, z);
        }
        Some(BoardState::new(new_board, self.zero_pos - BOARD_SIZE, self.range + 1))
    }

    /// Attempts to slide the blank one cell down, marking the attempt on
    /// this state. Absent exactly when the blank is in row 3.
    pub fn move_down(&mut self) -> (r: Option<BoardState>)
        requires
            old(self).wf(),
            old(self).range < u32::MAX,
        ensures
            unchanged_but_flags(*old(self), *final(self)),
            final(self).down_done,
            final(self).left_done == old(self).left_done,
            final(self).right_done == old(self).right_done,
            final(self).up_done == old(self).up_done,
            r is None <==> grid_y(old(self).zero_pos as int) == 3,
            (r matches Some(n) ==> is_successor(
                n,
                *old(self),
                old(self).zero_pos as int + 4,
            )),
    {
        self.down_done = true;
        let (_x, y) = get_xy_pos(self.zero_pos);
        if y == BOARD_SIZE - 1 {
            return None;
        }
        let mut new_board = clone_board(&self.board);
        let buf = new_board[self.zero_pos + BOARD_SIZE];
        new_board[self.zero_pos + BOARD_SIZE] = 0;
        new_board[self.zero_pos] = buf;
        proof {
            let z = self.zero_pos as int;
            assert(new_board@ =~= swap_cells(self.board@, z + 4, z));
            lemma_swap_single_step(self.board@, z + 4, z);
        }
        Some(BoardState::new(new_board, self.zero_pos + BOARD_SIZE, self.range + 1))
    }
}

/// Everything but the four expansion flags agrees between the two states.
pub open spec fn unchanged_but_flags(pre: BoardState, post: BoardState) -> bool {
    &&& post.board@ == pre.board@
    &&& post.zero_pos == pre.zero_pos
    &&& post.range == pre.range
    &&& post.hash == pre.hash
    &&& (pre.wf() ==> post.wf())
}

/// `n` is the state one slide produces from `parent`: its board is the
/// parent's with the blank moved to cell `z`, it is one slide deeper, and
/// none of its directions has been attempted.
pub open spec fn is_successor(n: BoardState, parent: BoardState, z: int) -> bool {
    &&& n.wf()
    &&& 0 <= z < 16
    &&& n.board@ == swap_cells(parent.board@, z, parent.zero_pos as int)
    &&& n.zero_pos == z
    &&& n.zero_pos != parent.zero_pos
    &&& n.range == parent.range + 1
    &&& !n.left_done && !n.right_done && !n.up_done && !n.down_done
    &&& single_step_boards(n.board@, parent.board@)
}

/// The cells the blank may move to from cell `z`, in the fixed expansion
/// order: left, right, up, down. Exactly the legal directions appear.
pub open spec fn succ_cells(z: int) -> Seq<int> {
    (if grid_x(z) != 0 {
        seq![z - 1]
    } else {
        Seq::<int>::empty()
    }) + (if grid_x(z) != 3 {
        seq![z + 1]
    } else {
        Seq::<int>::empty()
    }) + (if grid_y(z) != 0 {
        seq![z - 4]
    } else {
        Seq::<int>::empty()
    }) + (if grid_y(z) != 3 {
        seq![z + 4]
    } else {
        Seq::<int>::empty()
    })
}

/// `b` is a board that one legal slide produces from `a`: the blank of
/// `a` exchanged with one of its grid neighbours.
pub open spec fn one_slide_apart(a: Seq<u8>, b: Seq<u8>) -> bool {
    exists|k: int|
        0 <= k < succ_cells(zero_idx(a)).len() && b == swap_cells(
            a,
            #[trigger] succ_cells(zero_idx(a))[k],
            zero_idx(a),
        )
}

/// The cells the blank may move to are themselves cells, and never the
/// blank's own cell.
pub proof fn lemma_succ_cells_props(z: int)
    requires
        0 <= z < 16,
    ensures
        succ_cells(z).len() <= 4,
        forall|k: int|
            0 <= k < succ_cells(z).len() ==> 0 <= #[trigger] succ_cells(z)[k] < 16 && succ_cells(
                z,
            )[k] != z,
{
}

/// A board differs from every board one legal slide away from it.
pub proof fn lemma_one_slide_apart_ne(a: Seq<u8>, b: Seq<u8>)
    requires
        is_perm(a),
        one_slide_apart(a, b),
    ensures
        a != b,
{
    assert(a.contains(0u8));
    let w = choose|w: int| 0 <= w < a.len() && a[w] == 0;
    let z = zero_idx(a);
    assert(0 <= z < 16 && a[z] == 0);
    lemma_succ_cells_props(z);
    let k = choose|k: int|
        0 <= k < succ_cells(z).len() && b == swap_cells(a, #[trigger] succ_cells(z)[k], z);
    let c = succ_cells(z)[k];
    assert(a[c] != 0);
    assert(b[z] == a[c]);
}

impl BoardState {
    /// Attempts all four directions in the fixed order left, right, up,
    /// down, marks them all attempted on this state, and returns the
    /// successor states of exactly the legal ones, in that order.
    pub fn do_move(&mut self) -> (r: Vec<BoardState>)
        requires
            old(self).wf(),
            old(self).range < u32::MAX,
        ensures
            unchanged_but_flags(*old(self), *final(self)),
            final(self).left_done && final(self).right_done,
            final(self).up_done && final(self).down_done,
            r@.len() == succ_cells(old(self).zero_pos as int).len(),
            forall|k: int|
                0 <= k < r@.len() ==> is_successor(
                    #[trigger] r@[k],
                    *old(self),
                    succ_cells(old(self).zero_pos as int)[k],
                ),
    {
        let ghost z = self.zero_pos as int;
        let mut r: Vec<BoardState> = Vec::new();
        let left = self.move_left();
        match left {
            Some(n) => { r.push(n) },
            None => {},
        }
        let right = self.move_right();
        match right {
            Some(n) => { r.push(n) },
            None => {},
        }
        let up = self.move_up();
        match up {
            Some(n) => { r.push(n) },
            None => {},
        }
        let down = self.move_down();
        match down {
            Some(n) => { r.push(n) },
            None => {},
        }
        r
    }
}

impl BoardState {
    /// Heuristic distance to another board: for every tile of this board,
    /// the squared Euclidean grid distance to the cell of the other board
    /// holding the same tile. Both boards being permutations, every tile
    /// is found.
    pub fn diff(&self, other: &Self) -> (r: usize)
        requires
            self.wf(),
            other.wf(),
        ensures
            r == diff_spec(self.board@, other.board@),
    {
        let mut distance: usize = 0;
        let mut i: usize = 0;
        while i < BOARD_CELLS
            invariant
                self.wf(),
                other.wf(),
                i <= 16,
                distance == diff_prefix(self.board@, other.board@, i as int),
                distance <= 18 * i,
            decreases 16 - i,
        {
            let my_value = self.board[i];
            let (my_x, my_y) = get_xy_pos(i);
            let other_pos = find_value(&other.board, my_value);
            let (other_x, other_y) = get_xy_pos(other_pos);
            let dx = if my_x >= other_x {
                my_x - other_x
            } else {
                other_x - my_x
            };
            let dy = if my_y >= other_y {
                my_y - other_y
            } else {
                other_y - my_y
            };
            proof {
                lemma_abs_sq(my_x as int, other_x as int, dx as int);
                lemma_abs_sq(my_y as int, other_y as int, dy as int);
            }
            distance = distance + dx * dx + dy * dy;
            i = i + 1;
        }
        distance
    }
}

/// The square of a difference equals the square of its absolute value,
/// and for grid coordinates it is at most 9.
proof fn lemma_abs_sq(a: int, b: int, d: int)
    by (nonlinear_arith)
    requires
        0 <= a < 4,
        0 <= b < 4,
        d == if a >= b {
            a - b
        } else {
            b - a
        },
    ensures
        d * d == sq(a - b),
        0 <= d * d <= 9,
{
}

/// The cell of `v` holding `value`, found by scanning; `value` must occur.
fn find_value(v: &Vec<u8>, value: u8) -> (r: usize)
    requires
        is_perm(v@),
        value < 16,
    ensures
        r == pos_of(v@, value),
        r < 16,
        v@[r as int] == value,
{
    proof {
        assert(v@.contains(value));
    }
    let mut i: usize = 0;
    while v[i] != value
        invariant
            is_perm(v@),
            i < 16,
            forall|k: int| 0 <= k < i ==> v@[k] != value,
            exists|w: int| i <= w < 16 && v@[w] == value,
        decreases 16 - i,
    {
        i = i + 1;
        proof {
            let w = choose|w: int| i - 1 <= w < 16 && v@[w] == value;
            assert(i <= w < 16 && v@[w] == value);
        }
    }
    proof {
        lemma_pos_of_unique(v@, value, i as int);
    }
    i
}

/// A board is at distance zero from itself.
pub proof fn lemma_diff_self_prefix(s: Seq<u8>, n: int)
    requires
        is_perm(s),
        0 <= n <= 16,
    ensures
        diff_prefix(s, s, n) == 0,
    decreases n,
{
    if n > 0 {
        lemma_diff_self_prefix(s, n - 1);
        lemma_pos_of_unique(s, s[n - 1], n - 1);
    }
}

/// The heuristic distance from a board to itself is zero.
pub proof fn lemma_diff_self(s: Seq<u8>)
    requires
        is_perm(s),
    ensures
        diff_spec(s, s) == 0,
{
    lemma_diff_self_prefix(s, 16);
}

/// A square is never negative.
proof fn lemma_sq_nonneg(d: int)
    by (nonlinear_arith)
    ensures
        sq(d) >= 0,
{
}

/// Partial heuristic sums are never negative.
proof fn lemma_diff_prefix_nonneg(a: Seq<u8>, b: Seq<u8>, n: int)
    requires
        0 <= n,
    ensures
        diff_prefix(a, b, n) >= 0,
    decreases n,
{
    if n > 0 {
        lemma_diff_prefix_nonneg(a, b, n - 1);
        lemma_sq_nonneg(grid_x(n - 1) - grid_x(pos_of(b, a[n - 1])));
        lemma_sq_nonneg(grid_y(n - 1) - grid_y(pos_of(b, a[n - 1])));
    }
}

/// The heuristic distance is never negative, whatever the two boards.
pub proof fn lemma_diff_nonneg(a: Seq<u8>, b: Seq<u8>)
    ensures
        diff_spec(a, b) >= 0,
{
    lemma_diff_prefix_nonneg(a, b, 16);
}

/// Sliding the blank left and then right restores the board: the second
/// move is legal after the first, and the double exchange is the identity.
pub proof fn lemma_left_then_right(s: Seq<u8>, z: int)
    requires
        is_perm(s),
        0 <= z < 16,
        s[z] == 0,
        grid_x(z) != 0,
    ensures
        grid_x(z - 1) != 3,
        swap_cells(swap_cells(s, z - 1, z), z, z - 1) == s,
{
    assert(swap_cells(swap_cells(s, z - 1, z), z, z - 1) =~= s);
}

/// Sliding the blank right and then left restores the board.
pub proof fn lemma_right_then_left(s: Seq<u8>, z: int)
    requires
        is_perm(s),
        0 <= z < 16,
        s[z] == 0,
        grid_x(z) != 3,
    ensures
        grid_x(z + 1) != 0,
        swap_cells(swap_cells(s, z + 1, z), z, z + 1) == s,
{
    assert(swap_cells(swap_cells(s, z + 1, z), z, z + 1) =~= s);
}

/// Sliding the blank up and then down restores the board.
pub proof fn lemma_up_then_down(s: Seq<u8>, z: int)
    requires
        is_perm(s),
        0 <= z < 16,
        s[z] == 0,
        grid_y(z) != 0,
    ensures
        grid_y(z - 4) != 3,
        swap_cells(swap_cells(s, z - 4, z), z, z - 4) == s,
{
    assert(swap_cells(swap_cells(s, z - 4, z), z, z - 4) =~= s);
}

/// Sliding the blank down and then up restores the board.
pub proof fn lemma_down_then_up(s: Seq<u8>, z: int)
    requires
        is_perm(s),
        0 <= z < 16,
        s[z] == 0,
        grid_y(z) != 3,
    ensures
        grid_y(z + 4) != 0,
        swap_cells(swap_cells(s, z + 4, z), z, z + 4) == s,
{
    assert(swap_cells(swap_cells(s, z + 4, z), z, z + 4) =~= s);
}

/// Decides whether a vector is a well-formed board: 16 cells holding each
/// of the values 0..16 exactly once. Callers outside the verified library
/// use this to reject malformed boards before constructing a state.
pub fn check_board(v: &Vec<u8>) -> (r: bool)
    ensures
        r == is_perm(v@),
{
    if v.len() != BOARD_CELLS {
        return false;
    }
    let mut i: usize = 0;
    while i < BOARD_CELLS
        invariant
            v@.len() == 16,
            i <= 16,
            forall|k: int| 0 <= k < i ==> v@[k] < 16,
            forall|p: int, q: int| 0 <= p < q < i ==> v@[p] != v@[q],
        decreases 16 - i,
    {
        if v[i] >= 16 {
            return false;
        }
        let mut j: usize = 0;
        while j < i
            invariant
                v@.len() == 16,
                j <= i < 16,
                forall|p: int| 0 <= p < j ==> v@[p] != v@[i as int],
            decreases i - j,
        {
            if v[j] == v[i] {
                return false;
            }
            j = j + 1;
        }
        i = i + 1;
    }
    let mut value: u8 = 0;
    while value < 16
        invariant
            v@.len() == 16,
            value <= 16,
            forall|k: int| 0 <= k < 16 ==> v@[k] < 16,
            forall|p: int, q: int| 0 <= p < q < 16 ==> v@[p] != v@[q],
            forall|w: u8| w < value ==> #[trigger] v@.contains(w),
        decreases 16 - value,
    {
        let mut i: usize = 0;
        let mut found = false;
        while i < BOARD_CELLS
            invariant
                v@.len() == 16,
                i <= 16,
                found <==> exists|k: int| 0 <= k < i && v@[k] == value,
            decreases 16 - i,
        {
            if v[i] == value {
                found = true;
            }
            i = i + 1;
        }
        if !found {
            proof {
                assert(!v@.contains(value)) by {
                    if v@.contains(value) {
                        let k = choose|k: int| 0 <= k < v@.len() && v@[k] == value;
                        assert(0 <= k < 16 && v@[k] == value);
                    }
                }
            }
            return false;
        }
        proof {
            let k = choose|k: int| 0 <= k < 16 && v@[k] == value;
            assert(v@.contains(value));
        }
        value = value + 1;
    }
    true
}

/// An element-for-element copy of a board vector.
fn clone_board(v: &Vec<u8>) -> (r: Vec<u8>)
    ensures
        r@ == v@,
{
    let r = v.clone();
    proof {
        assert(r@ =~= v@);
    }
    r
}

/// A positional weight times a cell value stays small.
proof fn lemma_weight_bound(w: int, v: int)
    by (nonlinear_arith)
    requires
        0 <= w <= 16,
        0 <= v <= 15,
    ensures
        0 <= w * v <= 240,
{
}

/// Exchanging two cells of a permutation yields a permutation.
pub proof fn lemma_swap_perm(s: Seq<u8>, i: int, j: int)
    requires
        is_perm(s),
        0 <= i < 16,
        0 <= j < 16,
    ensures
        is_perm(swap_cells(s, i, j)),
{
    let t = swap_cells(s, i, j);
    assert(t.len() == 16);
    assert forall|k: int| 0 <= k < 16 implies t[k] < 16 by {
        assert(t[k] == s[k] || t[k] == s[i] || t[k] == s[j]);
    }
    assert forall|p: int, q: int| 0 <= p < q < 16 implies t[p] != t[q] by {
        if t[p] == t[q] {
            let sp = if p == j {
                i
            } else if p == i {
                j
            } else {
                p
            };
            let sq = if q == j {
                i
            } else if q == i {
                j
            } else {
                q
            };
            assert(t[p] == s[sp]);
            assert(t[q] == s[sq]);
            assert(sp != sq);
            assert(s[sp] != s[sq]);
        }
    }
    assert forall|v: u8| v < 16 implies #[trigger] t.contains(v) by {
        assert(s.contains(v));
        let w = choose|w: int| 0 <= w < s.len() && s[w] == v;
        let tw = if w == i {
            j
        } else if w == j {
            i
        } else {
            w
        };
        assert(t[tw] == v);
    }
}

/// Two sequences that agree everywhere below `n` except at `i` and `j`,
/// where they disagree, differ on exactly the cells among `i`, `j` below
/// `n`.
proof fn lemma_count_diff_pair(a: Seq<u8>, b: Seq<u8>, i: int, j: int, n: int)
    requires
        0 <= i < j,
        a[i] != b[i],
        a[j] != b[j],
        forall|k: int| 0 <= k < n && k != i && k != j ==> a[k] == b[k],
        0 <= n,
    ensures
        count_diff(a, b, n) == (if i < n {
            1int
        } else {
            0int
        }) + (if j < n {
            1int
        } else {
            0int
        }),
    decreases n,
{
    if n > 0 {
        lemma_count_diff_pair(a, b, i, j, n - 1);
    }
}

/// Exchanging the blank with another cell gives a board one legal slide
/// away: it is again a permutation, its blank has moved to the other cell,
/// and the two boards disagree on exactly those two cells.
pub proof fn lemma_swap_single_step(s: Seq<u8>, i: int, j: int)
    requires
        is_perm(s),
        0 <= i < 16,
        0 <= j < 16,
        i != j,
        s[j] == 0,
    ensures
        is_perm(swap_cells(s, i, j)),
        swap_cells(s, i, j)[i] == 0,
        zero_idx(swap_cells(s, i, j)) == i,
        single_step_boards(swap_cells(s, i, j), s),
        single_step_boards(s, swap_cells(s, i, j)),
{
    let t = swap_cells(s, i, j);
    lemma_swap_perm(s, i, j);
    assert(t[i] == 0);
    lemma_pos_of_unique(t, 0u8, i);
    lemma_pos_of_unique(s, 0u8, j);
    assert(s[i] != s[j]);
    let (lo, hi) = if i < j {
        (i, j)
    } else {
        (j, i)
    };
    lemma_count_diff_pair(t, s, lo, hi, 16);
    lemma_count_diff_pair(s, t, lo, hi, 16);
}

} // verus!
