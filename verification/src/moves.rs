//! The six rotations of the board and what they do to a configuration.

use crate::board::{decode_to_grid, digits, encode, is_configuration, lemma_pack_unpack,
    lemma_unpack_pack, pack, unpack, Grid};
use vstd::prelude::*;

verus! {

/// Whether a rotation turns a row or a column.
#[derive(Clone, Copy, PartialEq, Eq, Structural, Debug)]
pub enum Family {
    Row,
    Column,
}

/// A rotation of one line of the board.
///
/// `H1`, `H2`, `H3` shift the first, second or third row one cell to the right; the
/// cell leaving on the right comes back in on the left. `V1`, `V2`, `V3` shift the
/// first, second or third column one cell upward; the cell leaving at the top comes
/// back in at the bottom.
#[derive(Clone, Copy, PartialEq, Eq, Structural, Debug, Hash)]
pub enum Move {
    H1,
    H2,
    H3,
    V1,
    V2,
    V3,
}

impl Move {
    /// The family of the rotation.
    pub open spec fn spec_family(self) -> Family {
        match self {
            Move::H1 | Move::H2 | Move::H3 => Family::Row,
            Move::V1 | Move::V2 | Move::V3 => Family::Column,
        }
    }

    /// The row or column that the rotation turns, counted from 0.
    pub open spec fn line(self) -> int {
        match self {
            Move::H1 | Move::V1 => 0,
            Move::H2 | Move::V2 => 1,
            Move::H3 | Move::V3 => 2,
        }
    }

    /// The place of the rotation in the order in which rotations are tried:
    /// `H1`, `H2`, `H3`, `V3`, `V2`, `V1`.
    pub open spec fn ordinal(self) -> nat {
        match self {
            Move::H1 => 0,
            Move::H2 => 1,
            Move::H3 => 2,
            Move::V3 => 3,
            Move::V2 => 4,
            Move::V1 => 5,
        }
    }

    /// The rotation tried at place `k`.
    pub open spec fn at(k: int) -> Move {
        if k == 0 {
            Move::H1
        } else if k == 1 {
            Move::H2
        } else if k == 2 {
            Move::H3
        } else if k == 3 {
            Move::V3
        } else if k == 4 {
            Move::V2
        } else {
            Move::V1
        }
    }

    /// The name of the rotation: `H` for a row or `V` for a column, then the number
    /// of the line, counted from 1.
    pub open spec fn spec_label(self) -> Seq<char> {
        match self {
            Move::H1 => "H1"@,
            Move::H2 => "H2"@,
            Move::H3 => "H3"@,
            Move::V1 => "V1"@,
            Move::V2 => "V2"@,
            Move::V3 => "V3"@,
        }
    }

    /// The name of the rotation.
    pub fn label(self) -> (label: &'static str)
        ensures
            label@ == self.spec_label(),
    {
        match self {
            Move::H1 => "H1",
            Move::H2 => "H2",
            Move::H3 => "H3",
            Move::V1 => "V1",
            Move::V2 => "V2",
            Move::V3 => "V3",
        }
    }

    /// The family of the rotation.
    #[verifier::when_used_as_spec(spec_family)]
    pub fn family(self) -> (family: Family)
        ensures
            family == self.spec_family(),
    {
        match self {
            Move::H1 | Move::H2 | Move::H3 => Family::Row,
            Move::V1 | Move::V2 | Move::V3 => Family::Column,
        }
    }

    /// The row or column that the rotation turns, counted from 1.
    pub fn index(self) -> (index: usize)
        ensures
            index == self.line() + 1,
    {
        match self {
            Move::H1 | Move::V1 => 1,
            Move::H2 | Move::V2 => 2,
            Move::H3 | Move::V3 => 3,
        }
    }
}

/// The cell whose value a rotation brings to cell `k`.
pub open spec fn source(m: Move, k: int) -> int {
    let row = k / 3;
    let col = k % 3;
    match m.spec_family() {
        Family::Row => if row == m.line() {
            3 * row + (col + 2) % 3
        } else {
            k
        },
        Family::Column => if col == m.line() {
            3 * ((row + 1) % 3) + col
        } else {
            k
        },
    }
}

/// The cell to which a rotation takes the value of cell `k`.
pub open spec fn target(m: Move, k: int) -> int {
    let row = k / 3;
    let col = k % 3;
    match m.spec_family() {
        Family::Row => if row == m.line() {
            3 * row + (col + 1) % 3
        } else {
            k
        },
        Family::Column => if col == m.line() {
            3 * ((row + 2) % 3) + col
        } else {
            k
        },
    }
}

/// The cells after the rotation `m`.
pub open spec fn rotated(cells: Seq<nat>, m: Move) -> Seq<nat> {
    Seq::new(9, |k: int| cells[source(m, k)])
}

/// The cells from which the rotation `m` gives `cells`.
pub open spec fn unrotated(cells: Seq<nat>, m: Move) -> Seq<nat> {
    Seq::new(9, |k: int| cells[target(m, k)])
}

/// The key of the board that the rotation `m` makes of the board `key`.
#[verifier::opaque]
pub open spec fn moved(key: nat, m: Move) -> nat {
    pack(rotated(unpack(key), m))
}

/// The key of the board of which the rotation `m` makes the board `key`.
#[verifier::opaque]
pub open spec fn unmoved(key: nat, m: Move) -> nat {
    pack(unrotated(unpack(key), m))
}

/// Rotates a line of the grid: a row to the right, a column upward.
pub fn rotate(grid: &Grid, m: Move) -> (out: Grid)
    ensures
        out@ == rotated(grid@, m),
{
    let r = &grid.rows;
    let rows: [[usize; 3]; 3] = match m {
        Move::H1 => [[r[0][2], r[0][0], r[0][1]], r[1], r[2]],
        Move::H2 => [r[0], [r[1][2], r[1][0], r[1][1]], r[2]],
        Move::H3 => [r[0], r[1], [r[2][2], r[2][0], r[2][1]]],
        Move::V1 => [[r[1][0], r[0][1], r[0][2]], [r[2][0], r[1][1], r[1][2]], [r[0][0], r[2][1], r[2][2]]],
        Move::V2 => [[r[0][0], r[1][1], r[0][2]], [r[1][0], r[2][1], r[1][2]], [r[2][0], r[0][1], r[2][2]]],
        Move::V3 => [[r[0][0], r[0][1], r[1][2]], [r[1][0], r[1][1], r[2][2]], [r[2][0], r[2][1], r[0][2]]],
    };
    let out = Grid { rows };
    out
}

/// Rotates a line of the grid the other way: a row to the left, a column downward.
pub fn unrotate(grid: &Grid, m: Move) -> (out: Grid)
    ensures
        out@ == unrotated(grid@, m),
{
    let r = &grid.rows;
    let rows: [[usize; 3]; 3] = match m {
        Move::H1 => [[r[0][1], r[0][2], r[0][0]], r[1], r[2]],
        Move::H2 => [r[0], [r[1][1], r[1][2], r[1][0]], r[2]],
        Move::H3 => [r[0], r[1], [r[2][1], r[2][2], r[2][0]]],
        Move::V1 => [[r[2][0], r[0][1], r[0][2]], [r[0][0], r[1][1], r[1][2]], [r[1][0], r[2][1], r[2][2]]],
        Move::V2 => [[r[0][0], r[2][1], r[0][2]], [r[1][0], r[0][1], r[1][2]], [r[2][0], r[1][1], r[2][2]]],
        Move::V3 => [[r[0][0], r[0][1], r[2][2]], [r[1][0], r[1][1], r[0][2]], [r[2][0], r[2][1], r[1][2]]],
    };
    let out = Grid { rows };
    out
}

/// A rotation keeps single digits single digits, and so does undoing one.
pub proof fn lemma_rotated_digits(cells: Seq<nat>, m: Move)
    requires
        digits(cells),
    ensures
        digits(rotated(cells, m)),
        digits(unrotated(cells, m)),
{
}

/// Undoing a rotation after making it, or making it after undoing it, changes nothing.
pub proof fn lemma_rotated_inverse(cells: Seq<nat>, m: Move)
    requires
        cells.len() == 9,
    ensures
        unrotated(rotated(cells, m), m) == cells,
        rotated(unrotated(cells, m), m) == cells,
{
    assert forall|k: int| 0 <= k < 9 implies source(m, target(m, k)) == k && target(m, source(m, k))
        == k && 0 <= source(m, k) < 9 && 0 <= target(m, k) < 9 by {}
}

/// On keys of at most nine digits, `moved` and `unmoved` with the same rotation are
/// inverse to each other, and neither leaves that range.
pub proof fn lemma_moved_inverse(key: nat, m: Move)
    ensures
        moved(key, m) < 1000000000,
        unmoved(key, m) < 1000000000,
        key < 1000000000 ==> unmoved(moved(key, m), m) == key,
        key < 1000000000 ==> moved(unmoved(key, m), m) == key,
{
    reveal(moved);
    reveal(unmoved);
    let cells = unpack(key);
    lemma_pack_unpack(key);
    lemma_rotated_digits(cells, m);
    lemma_rotated_inverse(cells, m);
    lemma_unpack_pack(rotated(cells, m));
    lemma_unpack_pack(unrotated(cells, m));
}

/// A rotation, made or undone, takes a configuration to a configuration.
pub proof fn lemma_moved_configuration(key: nat, m: Move)
    requires
        is_configuration(key),
    ensures
        is_configuration(moved(key, m)),
        is_configuration(unmoved(key, m)),
{
    reveal(moved);
    reveal(unmoved);
    let cells = unpack(key);
    lemma_pack_unpack(key);
    lemma_rotated_digits(cells, m);
    lemma_unpack_pack(rotated(cells, m));
    lemma_unpack_pack(unrotated(cells, m));
    assert forall|value: nat| 1 <= value <= 9 implies unpack(moved(key, m)).contains(value)
        && unpack(unmoved(key, m)).contains(value) by {
        assert(cells.contains(value));
        let k = choose|k: int| 0 <= k < 9 && cells[k] == value;
        assert(rotated(cells, m)[target(m, k)] == value);
        assert(unrotated(cells, m)[source(m, k)] == value);
    }
}

/// Makes the rotation `m` on the board `key`.
pub fn apply_move(key: usize, m: Move) -> (out: usize)
    ensures
        out == moved(key as nat, m),
        out < 1000000000,
        is_configuration(key as nat) ==> is_configuration(out as nat),
{
    let grid = decode_to_grid(key);
    let turned = rotate(&grid, m);
    proof {
        reveal(moved);
        lemma_rotated_digits(grid@, m);
        if is_configuration(key as nat) {
            lemma_moved_configuration(key as nat, m);
        }
    }
    encode(&turned)
}

/// Undoes the rotation `m` on the board `key`: gives the board that `m` turns into `key`.
pub fn undo_move(key: usize, m: Move) -> (out: usize)
    ensures
        out == unmoved(key as nat, m),
        out < 1000000000,
        key < 1000000000 ==> moved(out as nat, m) == key,
        is_configuration(key as nat) ==> is_configuration(out as nat),
{
    let grid = decode_to_grid(key);
    let turned = unrotate(&grid, m);
    proof {
        reveal(unmoved);
        lemma_rotated_digits(grid@, m);
        lemma_moved_inverse(key as nat, m);
        if is_configuration(key as nat) {
            lemma_moved_configuration(key as nat, m);
        }
    }
    encode(&turned)
}

/// The six boards that one rotation makes of the board `key`, each with its rotation,
/// in the order `H1`, `H2`, `H3`, `V3`, `V2`, `V1`.
pub fn neighbors(key: usize) -> (out: Vec<(usize, Move)>)
    ensures
        out@.len() == 6,
        forall|k: int| 0 <= k < 6 ==> out@[k] == (moved(key as nat, Move::at(k)) as usize, Move::at(k)),
        is_configuration(key as nat) ==> forall|k: int| 0 <= k < 6 ==> is_configuration(out@[k].0 as nat),
{
    let by_h1: usize = apply_move(key, Move::H1);
    let by_h2: usize = apply_move(key, Move::H2);
    let by_h3: usize = apply_move(key, Move::H3);
    let by_v3: usize = apply_move(key, Move::V3);
    let by_v2: usize = apply_move(key, Move::V2);
    let by_v1: usize = apply_move(key, Move::V1);
    let mut out: Vec<(usize, Move)> = Vec::new();
    out.push((by_h1, Move::H1));
    out.push((by_h2, Move::H2));
    out.push((by_h3, Move::H3));
    out.push((by_v3, Move::V3));
    out.push((by_v2, Move::V2));
    out.push((by_v1, Move::V1));
    out
}

/// The six boards of which one rotation makes the board `key`, each with the rotation
/// that leads from it to `key`, in the order `H1`, `H2`, `H3`, `V3`, `V2`, `V1`.
pub fn predecessors(key: usize) -> (out: Vec<(usize, Move)>)
    ensures
        out@.len() == 6,
        forall|k: int| 0 <= k < 6 ==> out@[k] == (unmoved(key as nat, Move::at(k)) as usize, Move::at(k)),
        key < 1000000000 ==> forall|k: int| 0 <= k < 6 ==> moved(out@[k].0 as nat, out@[k].1) == key,
        is_configuration(key as nat) ==> forall|k: int| 0 <= k < 6 ==> is_configuration(out@[k].0 as nat),
{
    let by_h1: usize = undo_move(key, Move::H1);
    let by_h2: usize = undo_move(key, Move::H2);
    let by_h3: usize = undo_move(key, Move::H3);
    let by_v3: usize = undo_move(key, Move::V3);
    let by_v2: usize = undo_move(key, Move::V2);
    let by_v1: usize = undo_move(key, Move::V1);
    let mut out: Vec<(usize, Move)> = Vec::new();
    out.push((by_h1, Move::H1));
    out.push((by_h2, Move::H2));
    out.push((by_h3, Move::H3));
    out.push((by_v3, Move::V3));
    out.push((by_v2, Move::V2));
    out.push((by_v1, Move::V1));
    out
}

} // verus!
