//! Eight queens: the least number of queens to move so that none attacks another.
//!
//! A board holds one queen in each of its eight rows; `row[r]` is the column of the
//! queen in row `r`, counted from 0.

use vstd::prelude::*;

verus! {

/// The distance between two numbers.
pub open spec fn apart(a: int, b: int) -> int {
    if a <= b {
        b - a
    } else {
        a - b
    }
}

/// A queen in row `r1`, column `c1` and one in row `r2`, column `c2` stand in one
/// column or on one diagonal.
pub open spec fn attacks(r1: int, c1: int, r2: int, c2: int) -> bool {
    c1 == c2 || apart(r1, r2) == apart(c1, c2)
}

/// No queen in the rows above `r`, as far as `row` holds them, attacks the square in
/// row `r`, column `c`.
pub open spec fn free_at(row: Seq<usize>, r: int, c: int) -> bool {
    forall|i: int| 0 <= i < r && i < row.len() ==> !attacks(r, c, i, #[trigger] row[i] as int)
}

/// `full` holds eight queens, those above row `r` where `row` has them; each queen
/// from row `r` downward stands on the board and is attacked by none above it.
pub open spec fn settles(full: Seq<usize>, row: Seq<usize>, r: int) -> bool {
    &&& full.len() == 8
    &&& forall|j: int| 0 <= j < r && j < 8 ==> #[trigger] full[j] == row[j]
    &&& forall|j: int| r <= j < 8 ==> #[trigger] full[j] < 8 && free_at(full, j, full[j] as int)
}

/// The number of rows from `from` downward in which the queen of `full` stands
/// elsewhere than the queen of `queens`.
pub open spec fn moved_from(full: Seq<usize>, queens: Seq<usize>, from: int) -> nat
    decreases 8 - from,
{
    if from >= 8 {
        0
    } else if full[from] != queens[from] {
        1 + moved_from(full, queens, from + 1)
    } else {
        moved_from(full, queens, from + 1)
    }
}

/// What the search from row `r` leaves in `row` once it has tried the columns before
/// `c` for the queen of that row: each of these columns on which a queen may stand was
/// written to row `r`, and the rows below were then searched in the same way.
pub open spec fn swept(row: Seq<usize>, r: int, c: int) -> Seq<usize>
    decreases 8 - r, c,
{
    if r >= 8 || c <= 0 {
        row
    } else {
        let before = swept(row, r, c - 1);
        if free_at(before, r, c - 1) {
            swept(before.update(r, (c - 1) as usize), r + 1, 8)
        } else {
            before
        }
    }
}

/// `least` is the least number of queens from row `r` downward that stand elsewhere
/// than in `queens`, over all the boards that settle `row` from row `r`.
pub open spec fn is_least_moves(row: Seq<usize>, queens: Seq<usize>, r: int, least: nat) -> bool {
    &&& exists|full: Seq<usize>| settles(full, row, r) && moved_from(full, queens, r) == least
    &&& forall|full: Seq<usize>| settles(full, row, r) ==> least <= moved_from(full, queens, r)
}

/// Where a queen may stand in row `r`, column `c`, the boards that settle `row` from
/// row `r` with their queen of that row in column `c` are those that settle, from the
/// next row, `row` with that queen placed. No board that settles `row` from row `r`
/// has its queen of that row on an attacked square or off the board.
proof fn lemma_settles_next(full: Seq<usize>, row: Seq<usize>, placed: Seq<usize>, r: int, c: usize)
    requires
        0 <= r < 8,
        row.len() >= 8,
        placed.len() >= 8,
        forall|j: int| 0 <= j < r ==> placed[j] == row[j],
        placed[r] == c,
    ensures
        c < 8 && free_at(row, r, c as int) ==> (settles(full, placed, r + 1) <==> settles(full, row, r)
            && full[r] == c),
        settles(full, row, r) ==> full[r] < 8 && free_at(row, r, full[r] as int),
{
    if full.len() == 8 && (forall|j: int| 0 <= j < r ==> #[trigger] full[j] == row[j]) {
        assert forall|c2: int| free_at(full, r, c2) == free_at(row, r, c2) by {
            if free_at(full, r, c2) {
                assert forall|i: int| 0 <= i < r && i < row.len() implies !attacks(
                    r,
                    c2,
                    i,
                    #[trigger] row[i] as int,
                ) by {
                    assert(full[i] == row[i]);
                }
            }
        }
    }
    if settles(full, placed, r + 1) {
        if c < 8 && free_at(row, r, c as int) {
            assert forall|j: int| r <= j < 8 implies #[trigger] full[j] < 8 && free_at(
                full,
                j,
                full[j] as int,
            ) by {}
        }
    }
}

/// Tells whether a queen may stand in row `r`, column `c`: whether none of the queens
/// in the rows above, as far as `row` holds them, attacks that square.
pub fn is_valid(row: &[usize], r: usize, c: usize) -> (valid: bool)
    ensures
        valid == free_at(row@, r as int, c as int),
{
    let mut i: usize = 0;
    while i < r && i < row.len()
        invariant
            forall|k: int| 0 <= k < i ==> !attacks(r as int, c as int, k, #[trigger] row@[k] as int),
            i <= r,
            i <= row@.len(),
        decreases row@.len() - i,
    {
        let other: usize = row[i];
        let across: usize = if c <= other {
            other - c
        } else {
            c - other
        };
        if c == other || r - i == across {
            return false;
        }
        i += 1;
    }
    true
}

/// Finds the least number of queens from row `r` downward that have to leave their
/// column in `queens` so that no queen attacks another, the queens above row `r`
/// standing as `row` has them. Gives `usize::MAX` where no board settles these rows.
/// The rows of `row` from `r` downward serve as working space; the rows above are
/// left as they are. With `r` at 8 nothing is read and the answer is 0.
pub fn search(row: &mut Vec<usize>, queens: &[usize], r: usize) -> (least: usize)
    requires
        r <= 8,
        r < 8 ==> old(row)@.len() >= 8,
        r < 8 ==> queens@.len() >= 8,
    ensures
        final(row)@ == swept(old(row)@, r as int, 8),
        final(row)@.len() == old(row)@.len(),
        forall|j: int| 0 <= j < r ==> final(row)@[j] == old(row)@[j],
        least == usize::MAX <==> forall|full: Seq<usize>| !settles(full, old(row)@, r as int),
        least != usize::MAX ==> least <= 8 - r && is_least_moves(
            old(row)@,
            queens@,
            r as int,
            least as nat,
        ),
    decreases 8 - r,
{
    let ghost entry = row@;
    if r == 8 {
        proof {
            let full = Seq::new(8, |j: int| entry[j]);
            assert(settles(full, entry, 8));
        }
        return 0;
    }
    let mut least: usize = usize::MAX;
    let ghost mut best: Seq<usize> = entry;
    let mut c: usize = 0;
    while c < 8
        invariant
            c <= 8,
            r < 8,
            queens@.len() >= 8,
            row@ == swept(entry, r as int, c as int),
            row@.len() == entry.len(),
            entry.len() >= 8,
            forall|j: int| 0 <= j < r ==> row@[j] == entry[j],
            least == usize::MAX <==> forall|full: Seq<usize>|
                !(settles(full, entry, r as int) && full[r as int] < c),
            least != usize::MAX ==> {
                &&& least <= 8 - r
                &&& settles(best, entry, r as int)
                &&& best[r as int] < c
                &&& moved_from(best, queens@, r as int) == least
                &&& forall|full: Seq<usize>|
                    settles(full, entry, r as int) && full[r as int] < c ==> least <= moved_from(
                        full,
                        queens@,
                        r as int,
                    )
            },
        decreases 8 - c,
    {
        let ghost before = row@;
        if is_valid(row.as_slice(), r, c) {
            row.set(r, c);
            let ghost placed = row@;
            let ghost below: int = r + 1;
            let value = search(row, queens, r + 1);
            proof {
                assert forall|full: Seq<usize>|
                    settles(full, placed, below) <==> settles(full, entry, r as int) && full[r as int]
                        == c by {
                    lemma_settles_next(full, entry, placed, r as int, c);
                }
                assert forall|full: Seq<usize>|
                    moved_from(full, queens@, r as int) == moved_from(full, queens@, below) + (
                    if full[r as int] != queens@[r as int] {
                        1nat
                    } else {
                        0nat
                    }) by {}
            }
            if value != usize::MAX {
                let cost: usize = if c == queens[r] {
                    value
                } else {
                    value + 1
                };
                if cost < least {
                    proof {
                        best = choose|full: Seq<usize>|
                            settles(full, placed, below) && moved_from(full, queens@, below) == value;
                    }
                    least = cost;
                }
            }
        } else {
            proof {
                assert forall|full: Seq<usize>| settles(full, entry, r as int) implies full[r as int]
                    != c by {
                    lemma_settles_next(full, entry, entry.update(r as int, c), r as int, c);
                    if full[r as int] == c {
                        assert forall|i: int| 0 <= i < r && i < before.len() implies !attacks(
                            r as int,
                            c as int,
                            i,
                            #[trigger] before[i] as int,
                        ) by {
                            assert(before[i] == entry[i]);
                        }
                    }
                }
            }
        }
        c += 1;
    }
    proof {
        assert forall|full: Seq<usize>| settles(full, entry, r as int) implies full[r as int] < 8 by {}
    }
    least
}

} // verus!
