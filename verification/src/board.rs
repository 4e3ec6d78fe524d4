//! Configurations of the board and their packing into a single integer.

use crate::error::PuzzleError;
use vstd::prelude::*;
use vstd::string::is_ascii_spec_bytes;

verus! {

/// The solved board: 1 2 3 / 4 5 6 / 7 8 9.
pub const GOAL: usize = 123456789;

/// The board of zeros. It is no configuration; in a run of queries it marks the end.
pub const STOP: usize = 0;

/// A board laid out as three rows of three cells.
#[derive(Clone, Copy, PartialEq, Eq, Debug)]
pub struct Grid {
    pub rows: [[usize; 3]; 3],
}

impl View for Grid {
    type V = Seq<nat>;

    /// The nine cells in row-major order.
    open spec fn view(&self) -> Seq<nat> {
        Seq::new(9, |k: int| self.rows[k / 3][k % 3] as nat)
    }
}

/// The integer whose decimal digits, most significant first, are the nine cells.
pub open spec fn pack(cells: Seq<nat>) -> nat {
    cells[0] * 100000000 + cells[1] * 10000000 + cells[2] * 1000000 + cells[3] * 100000
        + cells[4] * 10000 + cells[5] * 1000 + cells[6] * 100 + cells[7] * 10 + cells[8]
}

/// The decimal digit of `key` at `place`, counted from the units upward.
pub open spec fn digit(key: nat, place: nat) -> nat
    decreases place,
{
    if place == 0 {
        key % 10
    } else {
        digit(key / 10, (place - 1) as nat)
    }
}

/// The nine low decimal digits of `key`, most significant first.
pub open spec fn unpack(key: nat) -> Seq<nat> {
    Seq::new(9, |k: int| digit(key, (8 - k) as nat))
}

/// Nine cells, each a single decimal digit.
pub open spec fn digits(cells: Seq<nat>) -> bool {
    &&& cells.len() == 9
    &&& forall|k: int| 0 <= k < 9 ==> cells[k] < 10
}

/// A configuration: a key of nine digits in which each of 1..=9 occurs.
pub open spec fn is_configuration(key: nat) -> bool {
    &&& key < 1000000000
    &&& forall|value: nat| 1 <= value <= 9 ==> unpack(key).contains(value)
}

/// Packing nine digits and unpacking the key gives the digits back.
pub proof fn lemma_unpack_pack(cells: Seq<nat>)
    requires
        digits(cells),
    ensures
        pack(cells) < 1000000000,
        unpack(pack(cells)) == cells,
{
    reveal_with_fuel(digit, 9);
    let key = pack(cells);
    assert(cells[0] < 10 && cells[1] < 10 && cells[2] < 10);
    assert(cells[3] < 10 && cells[4] < 10 && cells[5] < 10);
    assert(cells[6] < 10 && cells[7] < 10 && cells[8] < 10);
    let q1 = key / 10;
    let q2 = q1 / 10;
    let q3 = q2 / 10;
    let q4 = q3 / 10;
    let q5 = q4 / 10;
    let q6 = q5 / 10;
    let q7 = q6 / 10;
    let q8 = q7 / 10;
    assert(q1 == cells[0] * 10000000 + cells[1] * 1000000 + cells[2] * 100000 + cells[3] * 10000
        + cells[4] * 1000 + cells[5] * 100 + cells[6] * 10 + cells[7]);
    assert(q2 == cells[0] * 1000000 + cells[1] * 100000 + cells[2] * 10000 + cells[3] * 1000
        + cells[4] * 100 + cells[5] * 10 + cells[6]);
    assert(q3 == cells[0] * 100000 + cells[1] * 10000 + cells[2] * 1000 + cells[3] * 100
        + cells[4] * 10 + cells[5]);
    assert(q4 == cells[0] * 10000 + cells[1] * 1000 + cells[2] * 100 + cells[3] * 10 + cells[4]);
    assert(q5 == cells[0] * 1000 + cells[1] * 100 + cells[2] * 10 + cells[3]);
    assert(q6 == cells[0] * 100 + cells[1] * 10 + cells[2]);
    assert(q7 == cells[0] * 10 + cells[1]);
    assert(q8 == cells[0]);
    assert(unpack(key) =~= cells);
}

/// Unpacking a key of at most nine digits and packing the cells gives the key back.
pub proof fn lemma_pack_unpack(key: nat)
    ensures
        digits(unpack(key)),
        key < 1000000000 ==> pack(unpack(key)) == key,
{
    reveal_with_fuel(digit, 9);
    let q1 = key / 10;
    let q2 = q1 / 10;
    let q3 = q2 / 10;
    let q4 = q3 / 10;
    let q5 = q4 / 10;
    let q6 = q5 / 10;
    let q7 = q6 / 10;
    let q8 = q7 / 10;
    let cells = unpack(key);
    assert(cells[8] == key % 10 && cells[7] == q1 % 10 && cells[6] == q2 % 10);
    assert(cells[5] == q3 % 10 && cells[4] == q4 % 10 && cells[3] == q5 % 10);
    assert(cells[2] == q6 % 10 && cells[1] == q7 % 10 && cells[0] == q8 % 10);
    if key < 1000000000 {
        assert(q8 < 10);
    }
}

/// Lays the nine low decimal digits of `key` out as a grid.
pub fn decode_to_grid(key: usize) -> (grid: Grid)
    ensures
        grid@ == unpack(key as nat),
        digits(grid@),
        key < 1000000000 ==> pack(grid@) == key,
{
    proof {
        lemma_pack_unpack(key as nat);
    }
    let q1: usize = key / 10;
    let q2: usize = q1 / 10;
    let q3: usize = q2 / 10;
    let q4: usize = q3 / 10;
    let q5: usize = q4 / 10;
    let q6: usize = q5 / 10;
    let q7: usize = q6 / 10;
    let q8: usize = q7 / 10;
    let grid = Grid {
        rows: [[q8 % 10, q7 % 10, q6 % 10], [q5 % 10, q4 % 10, q3 % 10], [q2 % 10, q1 % 10, key % 10]],
    };
    proof {
        reveal_with_fuel(digit, 9);
        assert(grid@ =~= unpack(key as nat));
    }
    grid
}

/// Packs a grid of single digits into its key, the top-left cell leading.
pub fn encode(grid: &Grid) -> (key: usize)
    requires
        digits(grid@),
    ensures
        key == pack(grid@),
        key < 1000000000,
        unpack(key as nat) == grid@,
{
    proof {
        lemma_unpack_pack(grid@);
    }
    let r = &grid.rows;
    proof {
        let cells = grid@;
        assert(cells[0] < 10 && cells[1] < 10 && cells[2] < 10);
        assert(cells[3] < 10 && cells[4] < 10 && cells[5] < 10);
        assert(cells[6] < 10 && cells[7] < 10 && cells[8] < 10);
    }
    r[0][0] * 100000000 + r[0][1] * 10000000 + r[0][2] * 1000000 + r[1][0] * 100000 + r[1][1] * 10000
        + r[1][2] * 1000 + r[2][0] * 100 + r[2][1] * 10 + r[2][2]
}

const SPACE: u8 = 32;

const TAB: u8 = 9;

const LINE_FEED: u8 = 10;

const CARRIAGE_RETURN: u8 = 13;

const ZERO: u8 = 48;

const NINE: u8 = 57;

/// Blank characters, which a text may hold anywhere: space, tab, line feed and
/// carriage return.
pub open spec fn is_blank(c: char) -> bool {
    c == ' ' || c == '\t' || c == '\n' || c == '\r'
}

/// The decimal digits.
pub open spec fn is_digit(c: char) -> bool {
    '0' <= c <= '9'
}

/// The number that a decimal digit stands for.
pub open spec fn digit_value(c: char) -> nat {
    (c as int - '0' as int) as nat
}

/// Tells the characters that count from the blank ones.
pub open spec fn counts() -> spec_fn(char) -> bool {
    |c: char| !is_blank(c)
}

/// The text without its blank characters.
pub open spec fn stripped(text: Seq<char>) -> Seq<char> {
    text.filter(counts())
}

/// The key that a text of nine digits stands for: its digits, the first one leading.
pub open spec fn text_key(text: Seq<char>) -> nat {
    pack(stripped(text).map_values(|c: char| digit_value(c)))
}

/// A well-formed text holds exactly nine digits and, besides them, only blanks, and
/// these digits are a configuration or the board of zeros.
pub open spec fn well_formed(text: Seq<char>) -> bool {
    &&& stripped(text).len() == 9
    &&& forall|k: int| 0 <= k < 9 ==> is_digit(#[trigger] stripped(text)[k])
    &&& text_key(text) == STOP || is_configuration(text_key(text))
}

/// Stripping a text with one more character at its end.
proof fn lemma_stripped_push(text: Seq<char>, c: char)
    ensures
        stripped(text.push(c)) == if is_blank(c) {
            stripped(text)
        } else {
            stripped(text).push(c)
        },
{
    reveal(Seq::filter);
    assert(text.push(c).drop_last() =~= text);
}

/// The stripped beginning of a text is the beginning of the stripped text.
proof fn lemma_stripped_prefix(text: Seq<char>, upto: int)
    requires
        0 <= upto <= text.len(),
    ensures
        stripped(text.take(upto)).len() <= stripped(text).len(),
        forall|k: int|
            0 <= k < stripped(text.take(upto)).len() ==> stripped(text)[k] == stripped(
                text.take(upto),
            )[k],
{
    assert(text =~= text.take(upto) + text.skip(upto));
    Seq::filter_distributes_over_add(text.take(upto), text.skip(upto), counts());
}

/// Tells whether each of the values 1 to 9 stands in some cell of the grid.
pub fn holds_each_value(grid: &Grid) -> (holds: bool)
    ensures
        holds == forall|value: nat| 1 <= value <= 9 ==> grid@.contains(value),
{
    let r = &grid.rows;
    let ghost cells = grid@;
    proof {
        assert(cells[0] == r[0][0] && cells[1] == r[0][1] && cells[2] == r[0][2]);
        assert(cells[3] == r[1][0] && cells[4] == r[1][1] && cells[5] == r[1][2]);
        assert(cells[6] == r[2][0] && cells[7] == r[2][1] && cells[8] == r[2][2]);
    }
    let mut value: usize = 1;
    while value <= 9
        invariant
            1 <= value <= 10,
            cells == grid@,
            r == &grid.rows,
            cells[0] == r[0][0] && cells[1] == r[0][1] && cells[2] == r[0][2],
            cells[3] == r[1][0] && cells[4] == r[1][1] && cells[5] == r[1][2],
            cells[6] == r[2][0] && cells[7] == r[2][1] && cells[8] == r[2][2],
            forall|seen: nat| 1 <= seen < value ==> cells.contains(seen),
        decreases 10 - value,
    {
        let found = r[0][0] == value || r[0][1] == value || r[0][2] == value || r[1][0] == value
            || r[1][1] == value || r[1][2] == value || r[2][0] == value || r[2][1] == value
            || r[2][2] == value;
        if !found {
            proof {
                assert(!cells.contains(value as nat));
            }
            return false;
        }
        value += 1;
    }
    true
}

/// Reads a board from a text of nine digits, blanks apart, that are a configuration or
/// the board of zeros: the key with these digits, the first one leading. Any other
/// text is malformed.
pub fn decode(text: &str) -> (result: Result<usize, PuzzleError>)
    ensures
        match result {
            Ok(key) => well_formed(text@) && key == text_key(text@),
            Err(error) => error == PuzzleError::MalformedInput && !well_formed(text@),
        },
{
    if !text.is_ascii() {
        proof {
            let at = choose|i: int|
                0 <= i < text@.len() && !('\0' <= #[trigger] text@[i] <= '\u{7f}');
            text@.lemma_filter_contains(counts(), at);
        }
        return Err(PuzzleError::MalformedInput);
    }
    let bytes = text.as_bytes();
    proof {
        is_ascii_spec_bytes(text);
        assert forall|i: int| 0 <= i < text@.len() implies #[trigger] bytes@[i] as int
            == text@[i] as int by {
            assert('\0' <= text@[i] <= '\u{7f}');
            assert(bytes@[i] == text@[i] as u8);
        }
        assert(text@.take(0) =~= Seq::<char>::empty());
        reveal(Seq::filter);
    }
    let mut cells: Vec<usize> = Vec::new();
    let mut at: usize = 0;
    while at < bytes.len()
        invariant
            at <= bytes@.len(),
            bytes@.len() == text@.len(),
            forall|i: int|
                0 <= i < text@.len() ==> #[trigger] bytes@[i] as int == text@[i] as int,
            cells@.len() == stripped(text@.take(at as int)).len(),
            cells@.len() <= 9,
            forall|k: int|
                0 <= k < cells@.len() ==> is_digit(#[trigger] stripped(text@.take(at as int))[k])
                    && cells@[k] == digit_value(stripped(text@.take(at as int))[k]),
        decreases bytes@.len() - at,
    {
        let byte: u8 = bytes[at];
        proof {
            let c = text@[at as int];
            assert(byte as int == c as int);
            assert(text@.take(at + 1) =~= text@.take(at as int).push(c));
            lemma_stripped_push(text@.take(at as int), c);
            lemma_stripped_prefix(text@, at + 1);
        }
        let blank = byte == SPACE || byte == TAB || byte == LINE_FEED || byte == CARRIAGE_RETURN;
        if !blank {
            if ZERO <= byte && byte <= NINE && cells.len() < 9 {
                cells.push((byte - ZERO) as usize);
            } else {
                proof {
                    let seen = stripped(text@.take(at + 1));
                    let last = cells@.len() as int;
                    assert(seen.len() == last + 1 && seen[last] == text@[at as int]);
                    assert(stripped(text@)[last] == seen[last]);
                }
                return Err(PuzzleError::MalformedInput);
            }
        }
        at += 1;
    }
    proof {
        assert(text@.take(at as int) =~= text@);
    }
    if cells.len() != 9 {
        return Err(PuzzleError::MalformedInput);
    }
    let grid = Grid {
        rows: [[cells[0], cells[1], cells[2]], [cells[3], cells[4], cells[5]], [cells[6], cells[7], cells[8]]],
    };
    proof {
        assert(grid@ =~= stripped(text@).map_values(|c: char| digit_value(c)));
    }
    let key = encode(&grid);
    if key == STOP || holds_each_value(&grid) {
        Ok(key)
    } else {
        Err(PuzzleError::MalformedInput)
    }
}

} // verus!
