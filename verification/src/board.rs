//! The board of ultimate tic-tac-toe: nine small grids of nine tiles each,
//! held as bit masks.

use crate::random::gen_below;
use crate::text::{push_char, push_text};
use crate::zero::game::{GameBoard, Outcome};
use crate::zero::symmetry::SymmetricBoard;
use rand::Rng;
use vstd::prelude::*;

verus! {

/// A player, or nobody: who owns a tile or a small grid, and whose turn it is.
#[derive(Debug, Copy, Clone, Eq, PartialEq, Hash, Structural)]
pub enum Player {
    X,
    O,
    Neutral,
}

impl Player {
    /// The opponent of a player; nobody's opponent is nobody.
    pub open spec fn spec_other(self) -> Player {
        match self {
            Player::X => Player::O,
            Player::O => Player::X,
            Player::Neutral => Player::Neutral,
        }
    }

    /// The opponent of a player.
    pub fn other(self) -> (r: Player)
        ensures
            r == self.spec_other(),
    {
        match self {
            Player::X => Player::O,
            Player::O => Player::X,
            Player::Neutral => Player::Neutral,
        }
    }

    /// The number of the bit plane that holds this player's tiles.
    pub open spec fn spec_index(self) -> nat {
        if self == Player::X {
            0
        } else {
            1
        }
    }

    /// The number of the bit plane that holds this player's tiles.
    pub fn index(self) -> (r: u32)
        requires
            self != Player::Neutral,
        ensures
            r == self.spec_index(),
    {
        match self {
            Player::X => 0,
            Player::O => 1,
            Player::Neutral => 0,
        }
    }

    /// Playing twice gives the turn back.
    pub proof fn lemma_other_involution(self)
        ensures
            self.spec_other().spec_other() == self,
    {
    }
}

/// One of the 81 tiles. Its number `o` is `9 * om + os`: `om` is the small
/// grid the tile lies in and `os` its place inside that grid, both counted
/// row by row.
#[derive(Copy, Clone, Eq, PartialEq, Hash, Debug)]
pub struct Coord(u8);

impl View for Coord {
    type V = nat;

    closed spec fn view(&self) -> nat {
        self.0 as nat
    }
}

/// The tile number of the tile in column `x` and row `y` of the whole board.
pub open spec fn o_of_xy(x: nat, y: nat) -> nat {
    ((x / 3) + (y / 3) * 3) * 9 + ((x % 3) + (y % 3) * 3)
}

impl Coord {
    #[verifier::type_invariant]
    closed spec fn inv(self) -> bool {
        self.0 < 81
    }

    /// All tiles, by their number.
    pub fn all() -> (r: Vec<Coord>)
        ensures
            r@.len() == 81,
            forall|i: int| 0 <= i < 81 ==> (#[trigger] r@[i])@ == i,
    {
        let mut out: Vec<Coord> = Vec::new();
        let mut o: u8 = 0;
        while o < 81
            invariant
                o <= 81,
                out@.len() == o,
                forall|i: int| 0 <= i < o ==> (#[trigger] out@[i])@ == i,
            decreases 81 - o,
        {
            out.push(Coord::from_o(o));
            o += 1;
        }
        out
    }

    /// All tiles, row by row over the whole board.
    pub fn all_yx() -> (r: Vec<Coord>)
        ensures
            r@.len() == 81,
            forall|i: int|
                0 <= i < 81 ==> (#[trigger] r@[i])@ == o_of_xy((i % 9) as nat, (i / 9) as nat),
    {
        let mut out: Vec<Coord> = Vec::new();
        let mut i: u8 = 0;
        while i < 81
            invariant
                i <= 81,
                out@.len() == i,
                forall|j: int|
                    0 <= j < i ==> (#[trigger] out@[j])@ == o_of_xy((j % 9) as nat, (j / 9) as nat),
            decreases 81 - i,
        {
            out.push(Coord::from_xy(i % 9, i / 9));
            i += 1;
        }
        out
    }

    /// The tile at place `os` of small grid `om`.
    pub fn from_oo(om: u8, os: u8) -> (r: Coord)
        requires
            om < 9,
            os < 9,
        ensures
            r@ == 9 * om + os,
    {
        Coord(9 * om + os)
    }

    /// The tile with number `o`.
    pub fn from_o(o: u8) -> (r: Coord)
        requires
            o < 81,
        ensures
            r@ == o,
    {
        Coord(o)
    }

    /// The tile in column `x` and row `y` of the whole board.
    pub fn from_xy(x: u8, y: u8) -> (r: Coord)
        requires
            x < 9,
            y < 9,
        ensures
            r@ == o_of_xy(x as nat, y as nat),
    {
        Coord(((x / 3) + (y / 3) * 3) * 9 + ((x % 3) + (y % 3) * 3))
    }

    /// The small grid that the tile lies in.
    pub fn om(self) -> (r: u8)
        ensures
            r == self@ / 9,
            r < 9,
    {
        proof {
            use_type_invariant(&self);
        }
        self.0 / 9
    }

    /// The place of the tile inside its small grid.
    pub fn os(self) -> (r: u8)
        ensures
            r == self@ % 9,
            r < 9,
    {
        self.0 % 9
    }

    /// The number of the tile.
    pub fn o(self) -> (r: u8)
        ensures
            r == self@,
            r < 81,
    {
        proof {
            use_type_invariant(&self);
        }
        9 * self.om() + self.os()
    }

    /// The number of the tile where the tiles are counted row by row over the
    /// whole board.
    pub fn yx(self) -> (r: u8)
        ensures
            r == 9 * ((self@ / 9 / 3) * 3 + (self@ % 9) / 3) + ((self@ / 9 % 3) * 3 + (self@ % 9) % 3),
            r < 81,
    {
        9 * self.y() + self.x()
    }

    /// The column of the tile on the whole board.
    pub fn x(self) -> (r: u8)
        ensures
            r == (self@ / 9 % 3) * 3 + (self@ % 9) % 3,
            r < 9,
    {
        (self.om() % 3) * 3 + (self.os() % 3)
    }

    /// The row of the tile on the whole board.
    pub fn y(self) -> (r: u8)
        ensures
            r == (self@ / 9 / 3) * 3 + (self@ % 9) / 3,
            r < 9,
    {
        (self.om() / 3) * 3 + (self.os() / 3)
    }

    /// Whether two tiles are the same tile.
    pub fn same(self, other: Coord) -> (r: bool)
        ensures
            r == (self@ == other@),
            r == (self == other),
    {
        self.0 == other.0
    }
}

/// One of the eight ways to turn or mirror the board onto itself: first the
/// axes are swapped, then each axis is flipped on its own.
#[derive(Debug, Copy, Clone, PartialEq, Eq, Structural)]
pub struct Symmetry {
    pub transpose: bool,
    pub flip_x: bool,
    pub flip_y: bool,
}

impl Default for Symmetry {
    fn default() -> (r: Symmetry)
        ensures
            r == Symmetry::identity(),
    {
        Symmetry { transpose: false, flip_x: false, flip_y: false }
    }
}

/// Where a symmetry sends place `oo` of a three by three grid.
#[verifier::opaque]
pub open spec fn mapped_oo(sym: Symmetry, oo: nat) -> nat {
    let x0 = oo % 3;
    let y0 = oo / 3;
    let x1 = if sym.transpose {
        y0
    } else {
        x0
    };
    let y1 = if sym.transpose {
        x0
    } else {
        y0
    };
    let x2 = if sym.flip_x {
        (2 - x1) as nat
    } else {
        x1
    };
    let y2 = if sym.flip_y {
        (2 - y1) as nat
    } else {
        y1
    };
    x2 + y2 * 3
}

/// Where a symmetry sends tile `o`: the small grid and the place inside it
/// move in the same way.
pub open spec fn mapped_o(sym: Symmetry, o: nat) -> nat {
    9 * mapped_oo(sym, o / 9) + mapped_oo(sym, o % 9)
}

proof fn lemma_mapped_o_parts(sym: Symmetry, o: nat)
    requires
        o < 81,
    ensures
        mapped_o(sym, o) < 81,
        mapped_o(sym, o) / 9 == mapped_oo(sym, o / 9),
        mapped_o(sym, o) % 9 == mapped_oo(sym, o % 9),
{
    let a = mapped_oo(sym, o / 9);
    let b = mapped_oo(sym, o % 9);
    sym.lemma_inverse_oo(o / 9);
    sym.lemma_inverse_oo(o % 9);
    assert(a < 9 && b < 9);
    assert(mapped_o(sym, o) == 9 * a + b);
}

impl Symmetry {
    /// The symmetry that leaves everything in place.
    pub open spec fn identity() -> Symmetry {
        Symmetry { transpose: false, flip_x: false, flip_y: false }
    }

    /// The symmetry that undoes this one.
    pub open spec fn spec_inverse(self) -> Symmetry {
        Symmetry {
            transpose: self.transpose,
            flip_x: if self.transpose {
                self.flip_y
            } else {
                self.flip_x
            },
            flip_y: if self.transpose {
                self.flip_x
            } else {
                self.flip_y
            },
        }
    }

    /// All eight symmetries; bit 2 of the position says whether the axes are
    /// swapped, bit 1 whether x is flipped, bit 0 whether y is flipped.
    pub open spec fn spec_all() -> Seq<Symmetry> {
        Seq::new(
            8,
            |i: int| (Symmetry { transpose: i / 4 == 1, flip_x: (i / 2) % 2 == 1, flip_y: i % 2 == 1 }),
        )
    }

    /// All eight symmetries, the one that leaves everything in place first.
    pub fn all() -> (r: Vec<Symmetry>)
        ensures
            r@ == Symmetry::spec_all(),
            r@[0] == Symmetry::identity(),
    {
        let mut out: Vec<Symmetry> = Vec::new();
        let mut i: u8 = 0;
        while i < 8
            invariant
                i <= 8,
                out@.len() == i,
                forall|j: int|
                    0 <= j < i ==> #[trigger] out@[j] == (Symmetry {
                        transpose: j / 4 == 1,
                        flip_x: (j / 2) % 2 == 1,
                        flip_y: j % 2 == 1,
                    }),
            decreases 8 - i,
        {
            out.push(Symmetry { transpose: i / 4 == 1, flip_x: (i / 2) % 2 == 1, flip_y: i % 2 == 1 });
            i += 1;
        }
        assert(out@ =~= Symmetry::spec_all());
        out
    }

    /// The symmetry that undoes this one.
    pub fn inverse(self) -> (r: Symmetry)
        ensures
            r == self.spec_inverse(),
    {
        Symmetry {
            transpose: self.transpose,
            flip_x: if self.transpose {
                self.flip_y
            } else {
                self.flip_x
            },
            flip_y: if self.transpose {
                self.flip_x
            } else {
                self.flip_y
            },
        }
    }

    /// Where the symmetry takes a tile.
    pub fn map_coord(self, coord: Coord) -> (r: Coord)
        ensures
            r@ == mapped_o(self, coord@),
    {
        Coord::from_oo(self.map_oo(coord.om()), self.map_oo(coord.os()))
    }

    /// Where the symmetry takes a place of a grid of three by three. The small
    /// grids of the board and the places inside each of them move the same way.
    pub fn map_oo(self, oo: u8) -> (r: u8)
        requires
            oo < 9,
        ensures
            r == mapped_oo(self, oo as nat),
            r < 9,
    {
        reveal(mapped_oo);
        let mut x: u8 = oo % 3;
        let mut y: u8 = oo / 3;
        if self.transpose {
            let t: u8 = x;
            x = y;
            y = t;
        }
        if self.flip_x {
            x = 2 - x;
        }
        if self.flip_y {
            y = 2 - y;
        }
        x + y * 3
    }

    /// A symmetry followed by its inverse puts every place of a grid back.
    pub proof fn lemma_inverse_oo(self, oo: nat)
        requires
            oo < 9,
        ensures
            mapped_oo(self, oo) < 9,
            mapped_oo(self.spec_inverse(), mapped_oo(self, oo)) == oo,
            mapped_oo(self, mapped_oo(self.spec_inverse(), oo)) == oo,
            mapped_oo(self.spec_inverse(), oo) < 9,
    {
        reveal(mapped_oo);
    }

    /// A symmetry followed by its inverse puts every tile back.
    pub proof fn lemma_inverse_o(self, o: nat)
        requires
            o < 81,
        ensures
            mapped_o(self, o) < 81,
            mapped_o(self.spec_inverse(), mapped_o(self, o)) == o,
            mapped_o(self, mapped_o(self.spec_inverse(), o)) == o,
    {
        lemma_mapped_o_parts(self, o);
        lemma_mapped_o_parts(self.spec_inverse(), o);
        lemma_mapped_o_parts(self.spec_inverse(), mapped_o(self, o));
        lemma_mapped_o_parts(self, mapped_o(self.spec_inverse(), o));
        self.lemma_inverse_oo(o / 9);
        self.lemma_inverse_oo(o % 9);
    }

    /// The inverse of the inverse is the symmetry itself, and the identity
    /// moves nothing.
    pub proof fn lemma_group(self, o: nat)
        requires
            o < 81,
        ensures
            self.spec_inverse().spec_inverse() == self,
            mapped_o(Symmetry::identity(), o) == o,
    {
        reveal(mapped_oo);
    }
}

/// Whether bit `i` of `x` is set.
pub open spec fn bit(x: u32, i: u32) -> bool {
    (x >> i) & 1 == 1
}

/// The nine low bits: a full grid.
pub const FULL_MASK: u32 = 511;

/// Whether the nine bits of `grid` hold three in a row.
pub open spec fn has_line(grid: u32) -> bool {
    ||| grid & 0b000_000_111 == 0b000_000_111
    ||| grid & 0b000_111_000 == 0b000_111_000
    ||| grid & 0b111_000_000 == 0b111_000_000
    ||| grid & 0b001_001_001 == 0b001_001_001
    ||| grid & 0b010_010_010 == 0b010_010_010
    ||| grid & 0b100_100_100 == 0b100_100_100
    ||| grid & 0b100_010_001 == 0b100_010_001
    ||| grid & 0b001_010_100 == 0b001_010_100
}

/// The cells of a grid that hold a tile of either player.
pub open spec fn compact(grid: u32) -> u32 {
    (grid | grid >> 9) & 511
}

/// Who holds cell `index` of a grid: the low nine bits are the tiles of X,
/// the next nine those of O.
pub open spec fn player_at(grid: u32, index: u32) -> Player {
    if bit(grid, index) {
        Player::X
    } else if bit(grid, (index + 9) as u32) {
        Player::O
    } else {
        Player::Neutral
    }
}

/// The grid with cell `os` set for `player`.
pub open spec fn placed(grid: u32, player: Player, os: u32) -> u32 {
    grid | (1u32 << ((os + 9 * player.spec_index()) as u32))
}

/// The nine cells of a grid, with a bit for each cell that `player` holds.
pub open spec fn held(grid: u32, player: Player) -> u32 {
    (grid >> ((9 * player.spec_index()) as u32)) & 511
}

/// The bits of `a | b`.
pub proof fn lemma_bit_or(a: u32, b: u32, i: u32)
    by (bit_vector)
    requires
        i < 32,
    ensures
        bit(a | b, i) == (bit(a, i) || bit(b, i)),
{
}

/// The bits of `a & b`.
pub proof fn lemma_bit_and(a: u32, b: u32, i: u32)
    by (bit_vector)
    requires
        i < 32,
    ensures
        bit(a & b, i) == (bit(a, i) && bit(b, i)),
{
}

/// The bits of a word with one bit set, and of its complement.
pub proof fn lemma_bit_one(j: u32, i: u32)
    by (bit_vector)
    requires
        i < 32,
        j < 32,
    ensures
        bit(1u32 << j, i) == (i == j),
        bit(!(1u32 << j), i) == (i != j),
{
}

/// The bits of a word shifted to the right.
pub proof fn lemma_bit_shr(x: u32, k: u32, i: u32)
    by (bit_vector)
    requires
        i < 32,
        k < 32,
    ensures
        bit(x >> k, i) == (i + k < 32 && bit(x, (i + k) as u32)),
{
}

/// The bits of a word shifted to the left.
pub proof fn lemma_bit_shl(x: u32, k: u32, i: u32)
    by (bit_vector)
    requires
        i < 32,
        k < 32,
    ensures
        bit(x << k, i) == (i >= k && bit(x, (i - k) as u32)),
{
}

/// The bits of the constants that the board uses.
pub proof fn lemma_bit_consts(i: u32)
    by (bit_vector)
    requires
        i < 32,
    ensures
        bit(511u32, i) == (i < 9),
        !bit(0u32, i),
        bit(0x201u32, i) == (i == 0 || i == 9),
{
}

/// A number below 2^18 has no bit from 18 on, and the other way round.
pub proof fn lemma_bit_bound(x: u32)
    by (bit_vector)
    ensures
        x < 0x40000 <==> (!bit(x, 18) && !bit(x, 19) && !bit(x, 20) && !bit(x, 21) && !bit(x, 22)
            && !bit(x, 23) && !bit(x, 24) && !bit(x, 25) && !bit(x, 26) && !bit(x, 27) && !bit(
            x,
            28,
        ) && !bit(x, 29) && !bit(x, 30) && !bit(x, 31)),
        x < 512 <==> x < 0x40000 && (!bit(x, 9) && !bit(x, 10) && !bit(x, 11) && !bit(x, 12) && !bit(
            x,
            13,
        ) && !bit(x, 14) && !bit(x, 15) && !bit(x, 16) && !bit(x, 17)),
{
}

/// Two numbers below 2^18 with the same eighteen bits are the same number.
pub proof fn lemma_bit_equal(x: u32, y: u32)
    by (bit_vector)
    requires
        x < 0x40000,
        y < 0x40000,
        bit(x, 0) == bit(y, 0),
        bit(x, 1) == bit(y, 1),
        bit(x, 2) == bit(y, 2),
        bit(x, 3) == bit(y, 3),
        bit(x, 4) == bit(y, 4),
        bit(x, 5) == bit(y, 5),
        bit(x, 6) == bit(y, 6),
        bit(x, 7) == bit(y, 7),
        bit(x, 8) == bit(y, 8),
        bit(x, 9) == bit(y, 9),
        bit(x, 10) == bit(y, 10),
        bit(x, 11) == bit(y, 11),
        bit(x, 12) == bit(y, 12),
        bit(x, 13) == bit(y, 13),
        bit(x, 14) == bit(y, 14),
        bit(x, 15) == bit(y, 15),
        bit(x, 16) == bit(y, 16),
        bit(x, 17) == bit(y, 17),
    ensures
        x == y,
{
}

/// Taking one from a number clears its lowest set bit and nothing else.
pub proof fn lemma_clear_lowest(x: u32, t: u32, i: u32)
    by (bit_vector)
    requires
        t < 32,
        i < 32,
        bit(x, t),
        x << ((32 - t) as u32) == 0,
    ensures
        x != 0,
        bit(x & (x - 1) as u32, i) == (bit(x, i) && i != t),
{
}

/// Whether bit `i` of `x` is set.
pub fn has_bit(x: u32, i: u8) -> (r: bool)
    requires
        i < 32,
    ensures
        r == bit(x, i as u32),
{
    assert(((x >> i) & 1) != 0 <==> ((x >> (i as u32)) & 1 == 1)) by (bit_vector);
    ((x >> i) & 1) != 0
}

/// Whether every bit of `mask` is set in `x`.
pub fn has_mask(x: u32, mask: u32) -> (r: bool)
    ensures
        r == (x & mask == mask),
{
    x & mask == mask
}

/// The places of a grid that are taken, whoever took them.
pub fn compact_grid(grid: u32) -> (r: u32)
    ensures
        r == compact(grid),
        r <= 511,
{
    assert(((grid | grid >> 9) & 511) <= 511) by (bit_vector);
    (grid | grid >> 9) & FULL_MASK
}

/// The owner of place `index` of a grid.
pub fn get_player(grid: u32, index: u8) -> (r: Player)
    requires
        index < 9,
    ensures
        r == player_at(grid, index as u32),
{
    if has_bit(grid, index) {
        Player::X
    } else if has_bit(grid, index + 9) {
        Player::O
    } else {
        Player::Neutral
    }
}

/// Word `i` of the table of grids that hold three in a row: bit `r` of it
/// says so of grid `32 * i + r`.
fn win_word(i: usize) -> (r: u32)
    requires
        i < 16,
    ensures
        r == spec_win_word(i as int),
{
    match i {
        0 => 2155905152,
        1 => 4286611584,
        2 => 4210076288,
        3 => 4293962368,
        4 => 3435954304,
        5 => 4291592320,
        6 => 4277971584,
        7 => 4294748800,
        8 => 2863300736,
        9 => 4294635760,
        10 => 4210731648,
        11 => 4294638320,
        12 => 4008607872,
        13 => 4294897904,
        _ => 4294967295,
    }
}

/// The table behind [`win_word`].
pub open spec fn spec_win_word(i: int) -> u32 {
    if i == 0 {
        2155905152
    } else if i == 1 {
        4286611584
    } else if i == 2 {
        4210076288
    } else if i == 3 {
        4293962368
    } else if i == 4 {
        3435954304
    } else if i == 5 {
        4291592320
    } else if i == 6 {
        4277971584
    } else if i == 7 {
        4294748800
    } else if i == 8 {
        2863300736
    } else if i == 9 {
        4294635760
    } else if i == 10 {
        4210731648
    } else if i == 11 {
        4294638320
    } else if i == 12 {
        4008607872
    } else if i == 13 {
        4294897904
    } else {
        4294967295
    }
}

/// The table of winning grids says of every grid whether it holds three in
/// a row.
proof fn lemma_win_table(grid: u32)
    requires
        grid <= 511,
    ensures
        bit(spec_win_word((grid / 32) as int), grid % 32) == has_line(grid),
{
    assert(grid <= 511 ==> (grid / 32 == 0 ==> (bit(2155905152u32, grid % 32) == has_line(grid)))
        && (grid / 32 == 1 ==> (bit(4286611584u32, grid % 32) == has_line(grid))) && (grid / 32 == 2
        ==> (bit(4210076288u32, grid % 32) == has_line(grid))) && (grid / 32 == 3 ==> (bit(
        4293962368u32,
        grid % 32,
    ) == has_line(grid))) && (grid / 32 == 4 ==> (bit(3435954304u32, grid % 32) == has_line(grid))))
        by (bit_vector);
    assert(grid <= 511 ==> (grid / 32 == 5 ==> (bit(4291592320u32, grid % 32) == has_line(grid)))
        && (grid / 32 == 6 ==> (bit(4277971584u32, grid % 32) == has_line(grid))) && (grid / 32 == 7
        ==> (bit(4294748800u32, grid % 32) == has_line(grid))) && (grid / 32 == 8 ==> (bit(
        2863300736u32,
        grid % 32,
    ) == has_line(grid))) && (grid / 32 == 9 ==> (bit(4294635760u32, grid % 32) == has_line(grid))))
        by (bit_vector);
    assert(grid <= 511 ==> (grid / 32 == 10 ==> (bit(4210731648u32, grid % 32) == has_line(grid)))
        && (grid / 32 == 11 ==> (bit(4294638320u32, grid % 32) == has_line(grid))) && (grid / 32
        == 12 ==> (bit(4008607872u32, grid % 32) == has_line(grid))) && (grid / 32 == 13 ==> (bit(
        4294897904u32,
        grid % 32,
    ) == has_line(grid))) && (grid / 32 >= 14 ==> (bit(4294967295u32, grid % 32) == has_line(grid))))
        by (bit_vector);
}

/// Whether the nine bits of `grid` hold three in a row.
pub fn is_win_grid(grid: u32) -> (r: bool)
    requires
        grid <= 511,
    ensures
        r == has_line(grid),
{
    proof {
        lemma_win_table(grid);
    }
    has_bit(win_word((grid / 32) as usize), (grid % 32) as u8)
}

/// The number of set bits.
pub open spec fn popcount(x: u32) -> nat
    decreases x,
{
    if x == 0 {
        0
    } else {
        (x % 2) as nat + popcount(x / 2)
    }
}

/// `u32::count_ones` of `std` counts the ones in the binary representation
/// of the number, of which there are 32 at most.
pub assume_specification[ u32::count_ones ](x: u32) -> (r: u32)
    ensures
        r == popcount(x),
        r <= 32,
;

/// The board of ultimate tic-tac-toe.
///
/// Each of the nine small grids is a mask of eighteen bits: the nine low
/// bits are the tiles of X, the next nine those of O. The main grid holds
/// in the same way who has won which small grid. A move into place `os` of
/// a small grid sends the opponent to small grid `os`, if that one is still
/// open, and otherwise to any open one.
#[derive(Clone, Eq, PartialEq, Debug, Hash)]
pub struct Board {
    grids: [u32; 9],
    main_grid: u32,
    pub last_move: Option<Coord>,
    pub next_player: Player,
    pub won_by: Option<Player>,
    macro_mask: u32,
    macro_open: u32,
}

impl Board {
    /// The mask of small grid `om`.
    pub closed spec fn grid(&self, om: int) -> u32 {
        self.grids@[om]
    }

    /// The mask of the main grid.
    pub closed spec fn main_mask(&self) -> u32 {
        self.main_grid
    }

    /// The small grids that the next move may go to.
    pub closed spec fn mask(&self) -> u32 {
        self.macro_mask
    }

    /// The small grids that are neither won nor full.
    pub closed spec fn open(&self) -> u32 {
        self.macro_open
    }

    /// Who has won, once the game is over; nobody if it is a draw.
    pub closed spec fn winner(&self) -> Option<Player> {
        self.won_by
    }

    /// Who moves next.
    pub closed spec fn mover(&self) -> Player {
        self.next_player
    }

    /// The last move, if there was one.
    pub closed spec fn last(&self) -> Option<Coord> {
        self.last_move
    }

    /// Who holds tile `o`.
    pub open spec fn spec_tile(&self, o: nat) -> Player {
        player_at(self.grid(o as int / 9), (o % 9) as u32)
    }

    /// Whether the next move may go to tile `o`: its small grid is one the
    /// move may go to, and the tile is empty.
    pub open spec fn spec_available(&self, o: nat) -> bool {
        bit(self.mask(), (o / 9) as u32) && !bit(compact(self.grid(o as int / 9)), (o % 9) as u32)
    }

    /// What holds of every board that the game can reach, as far as the
    /// rules need it: no tile is held by both players; an open small grid
    /// has an empty tile; while the game goes on, the next move may go to
    /// at least one small grid, and only to open ones; and the next move
    /// goes to the small grid that the place of the last move points to, if
    /// that one is open, and to any open one otherwise.
    pub open spec fn wf(&self) -> bool {
        &&& forall|om: int|
            0 <= om < 9 ==> {
                &&& (#[trigger] self.grid(om)) < 0x40000
                &&& self.grid(om) & (self.grid(om) >> 9) == 0
            }
        &&& self.main_mask() < 0x40000
        &&& self.open() <= 511
        &&& self.mask() <= 511
        &&& forall|om: u32|
            om < 9 && #[trigger] bit(self.open(), om) ==> compact(self.grid(om as int)) != 511
        &&& forall|om: u32| om < 9 && #[trigger] bit(self.mask(), om) ==> bit(self.open(), om)
        &&& self.winner() is None ==> self.mask() != 0
        &&& self.mover() != Player::Neutral
        &&& self.last() matches Some(c) ==> c@ < 81 && self.spec_tile(c@) != Player::Neutral
        &&& self.mask() == match self.last() {
            Some(c) => if bit(self.open(), (c@ % 9) as u32) {
                1u32 << ((c@ % 9) as u32)
            } else {
                self.open()
            },
            None => self.open(),
        }
    }

    /// The empty board: X moves first and may go anywhere.
    pub fn new() -> (r: Board)
        ensures
            r.wf(),
            r == Board::spec_new(),
            r.last() is None,
            r.mover() == Player::X,
            r.winner() is None,
            r.main_mask() == 0,
            r.mask() == 511,
            r.open() == 511,
            forall|om: int| 0 <= om < 9 ==> #[trigger] r.grid(om) == 0,
    {
        let r = Board {
            grids: [0;9],
            main_grid: 0,
            last_move: None,
            next_player: Player::X,
            won_by: None,
            macro_mask: FULL_MASK,
            macro_open: FULL_MASK,
        };
        proof {
            broadcast use vstd::array::group_array_axioms;

            assert(0u32 & (0u32 >> 9) == 0 && ((0u32 | 0u32 >> 9) & 511) != 511) by (bit_vector);
            let want = Board::spec_new();
            assert(want.grids@.len() == 9);
            assert(want.grids@[0] == 0 && want.grids@[1] == 0 && want.grids@[2] == 0);
            assert(want.grids@[3] == 0 && want.grids@[4] == 0 && want.grids@[5] == 0);
            assert(want.grids@[6] == 0 && want.grids@[7] == 0 && want.grids@[8] == 0);
            assert(r.grids@ =~= want.grids@);
            assert(r.grids == want.grids);
        }
        r
    }

    /// Who moves next.
    pub fn player_to_move(&self) -> (r: Player)
        ensures
            r == self.mover(),
    {
        self.next_player
    }

    /// Whether the game is over.
    pub fn is_done(&self) -> (r: bool)
        ensures
            r == (self.winner() is Some),
    {
        self.won_by.is_some()
    }

    /// The owner of a tile.
    pub fn tile(&self, coord: Coord) -> (r: Player)
        ensures
            r == self.spec_tile(coord@),
    {
        get_player(self.grids[coord.om() as usize], coord.os())
    }

    /// Who has won small grid `om`.
    pub fn macr(&self, om: u8) -> (r: Player)
        requires
            om < 9,
        ensures
            r == player_at(self.main_mask(), om as u32),
    {
        get_player(self.main_grid, om)
    }

    /// Whether the tile is free and lies in a small grid that the next move may
    /// go to.
    pub fn is_available_move(&self, coord: Coord) -> (r: bool)
        ensures
            r == self.spec_available(coord@),
    {
        let om = coord.om();
        let os = coord.os();
        has_bit(self.macro_mask, om) && !has_bit(compact_grid(self.grids[om as usize]), os)
    }

    /// The small grids that the move after one into place `os` may go to.
    pub fn calc_macro_mask(&self, os: u8) -> (r: u32)
        requires
            os < 9,
        ensures
            r == if bit(self.open(), os as u32) {
                1u32 << (os as u32)
            } else {
                self.open()
            },
    {
        if has_bit(self.macro_open, os) {
            1u32 << os
        } else {
            self.macro_open
        }
    }

    /// A copy of the board.
    pub fn duplicate(&self) -> (r: Board)
        ensures
            r == *self,
    {
        Board {
            grids: self.grids,
            main_grid: self.main_grid,
            last_move: self.last_move,
            next_player: self.next_player,
            won_by: self.won_by,
            macro_mask: self.macro_mask,
            macro_open: self.macro_open,
        }
    }
}

impl Default for Board {
    fn default() -> (r: Board)
        ensures
            r.wf(),
            r.winner() is None,
    {
        Board::new()
    }
}

/// The number of set bits among the eighteen low ones.
pub open spec fn ones18(g: u32) -> int {
    ((g >> 0) & 1) + ((g >> 1) & 1) + ((g >> 2) & 1) + ((g >> 3) & 1) + ((g >> 4) & 1) + ((g >> 5)
        & 1) + ((g >> 6) & 1) + ((g >> 7) & 1) + ((g >> 8) & 1) + ((g >> 9) & 1) + ((g >> 10) & 1)
        + ((g >> 11) & 1) + ((g >> 12) & 1) + ((g >> 13) & 1) + ((g >> 14) & 1) + ((g >> 15) & 1)
        + ((g >> 16) & 1) + ((g >> 17) & 1)
}

spec fn ones_from(g: u32, i: u32) -> int
    decreases 18 - i,
{
    if i >= 18 {
        0
    } else {
        ((g >> i) & 1) + ones_from(g, (i + 1) as u32)
    }
}

proof fn lemma_popcount_step(g: u32, i: u32)
    by (bit_vector)
    requires
        i < 18,
        g < 0x40000,
    ensures
        (g >> i) % 2 == (g >> i) & 1,
        (g >> i) / 2 == g >> ((i + 1) as u32),
        g >> 18 == 0,
        g >> 0 == g,
{
}

proof fn lemma_popcount_from(g: u32, i: u32)
    requires
        i <= 18,
        g < 0x40000,
    ensures
        popcount(g >> i) == ones_from(g, i),
    decreases 18 - i,
{
    if i < 18 {
        lemma_popcount_step(g, i);
        lemma_popcount_from(g, (i + 1) as u32);
        if g >> i == 0 {
            assert(0u32 / 2 == 0);
            assert(popcount(0) == 0);
        }
    } else {
        lemma_popcount_step(g, 0);
    }
}

/// A grid whose tiles are held by one player each is full exactly when
/// nine of its bits are set.
pub proof fn lemma_full_grid(g: u32)
    requires
        g < 0x40000,
        g & (g >> 9) == 0,
    ensures
        popcount(g) == 9 <==> compact(g) == 511,
{
    lemma_popcount_step(g, 0);
    lemma_popcount_from(g, 0);
    assert(ones_from(g, 0) == ones18(g)) by {
        reveal_with_fuel(ones_from, 19);
    }
    assert(g < 0x40000 && g & (g >> 9) == 0 ==> (ones18(g) == 9 <==> ((g | g >> 9) & 511) == 511))
        by (bit_vector);
}

/// Setting an empty tile keeps the two planes of a grid apart.
proof fn lemma_place(g: u32, os: u32, p: u32)
    by (bit_vector)
    requires
        g < 0x40000,
        g & (g >> 9) == 0,
        os < 9,
        p == 0 || p == 9,
        !bit((g | g >> 9) & 511, os),
    ensures
        (g | (1u32 << ((os + p) as u32))) < 0x40000,
        (g | (1u32 << ((os + p) as u32))) & ((g | (1u32 << ((os + p) as u32))) >> 9) == 0,
        !bit(g, os),
        !bit(g, (os + 9) as u32),
{
}

/// Setting one of the eighteen low bits keeps a number below 2^18.
proof fn lemma_set_bit_bound(m: u32, k: u32)
    by (bit_vector)
    requires
        m < 0x40000,
        k < 18,
    ensures
        (m | (1u32 << k)) < 0x40000,
{
}

/// A mask of nine bits is nothing exactly when none of its bits is set;
/// taking a bit from it leaves a mask of nine bits; one bit is such a mask.
proof fn lemma_masks(x: u32, i: u32)
    by (bit_vector)
    requires
        x <= 511,
        i < 9,
    ensures
        x != 0 <==> (bit(x, 0) || bit(x, 1) || bit(x, 2) || bit(x, 3) || bit(x, 4) || bit(x, 5)
            || bit(x, 6) || bit(x, 7) || bit(x, 8)),
        (x & !(1u32 << i)) <= 511,
        (1u32 << i) <= 511,
        (1u32 << i) != 0,
{
}

impl Board {
    /// The board with tile `o` set for `player`, and with what follows from
    /// that for the small grid, the main grid and the end of the game. Whose
    /// turn it is and the last move stay as they are.
    pub closed spec fn spec_set_tile(&self, player: Player, o: nat) -> Board {
        let om = (o / 9) as u32;
        let os = (o % 9) as u32;
        let p = (9 * player.spec_index()) as u32;
        let new_grid = self.grids@[om as int] | (1u32 << ((os + p) as u32));
        let grid_win = has_line((new_grid >> p) & 511);
        let new_main = if grid_win {
            self.main_grid | (1u32 << ((om + p) as u32))
        } else {
            self.main_grid
        };
        let won = if grid_win && has_line((new_main >> p) & 511) {
            Some(player)
        } else {
            self.won_by
        };
        let closes = grid_win || popcount(new_grid) == 9;
        let new_open = if closes {
            self.macro_open & !(1u32 << om)
        } else {
            self.macro_open
        };
        Board {
            grids: vstd::array::spec_array_update(self.grids, om as int, new_grid),
            main_grid: new_main,
            last_move: self.last_move,
            next_player: self.next_player,
            won_by: if closes && new_open == 0 && won is None {
                Some(Player::Neutral)
            } else {
                won
            },
            macro_mask: if bit(new_open, os) {
                1u32 << os
            } else {
                new_open
            },
            macro_open: new_open,
        }
    }

    /// Whether setting tile `o` for `player` completes a row in its small grid.
    pub closed spec fn spec_wins_grid(&self, player: Player, o: nat) -> bool {
        let p = (9 * player.spec_index()) as u32;
        let new_grid = self.grids@[o as int / 9] | (1u32 << (((o % 9) + p) as u32));
        has_line((new_grid >> p) & 511)
    }

    /// The board after the player whose turn it is has moved to tile `o`.
    pub closed spec fn after_move(&self, o: nat) -> Board {
        let set = self.spec_set_tile(self.next_player, o);
        Board {
            grids: set.grids,
            main_grid: set.main_grid,
            last_move: Some(Coord(o as u8)),
            next_player: self.next_player.spec_other(),
            won_by: set.won_by,
            macro_mask: set.macro_mask,
            macro_open: set.macro_open,
        }
    }

    /// Sets the tile at `coord` for `player` and says whether that completes
    /// a row in the small grid.
    pub fn set_tile_and_update(&mut self, player: Player, coord: Coord) -> (r: bool)
        requires
            player != Player::Neutral,
        ensures
            *final(self) == old(self).spec_set_tile(player, coord@),
            r == old(self).spec_wins_grid(player, coord@),
    {
        broadcast use vstd::array::group_array_axioms;

        let om = coord.om();
        let os = coord.os();
        let p = (9 * player.index()) as u8;

        let new_grid = self.grids[om as usize] | (1u32 << (os + p));
        self.grids[om as usize] = new_grid;

        assert(((new_grid >> p) & 511) <= 511) by (bit_vector);
        let grid_win = is_win_grid((new_grid >> p) & FULL_MASK);
        if grid_win {
            let new_main_grid = self.main_grid | (1u32 << (om + p));
            self.main_grid = new_main_grid;

            assert(((new_main_grid >> p) & 511) <= 511) by (bit_vector);
            if is_win_grid((new_main_grid >> p) & FULL_MASK) {
                self.won_by = Some(player);
            }
        }
        if grid_win || new_grid.count_ones() == 9 {
            self.macro_open = self.macro_open & !(1u32 << om);
            if self.macro_open == 0 && self.won_by.is_none() {
                self.won_by = Some(Player::Neutral);
            }
        }
        self.macro_mask = self.calc_macro_mask(os);
        proof {
            assert(self.grids@ =~= old(self).spec_set_tile(player, coord@).grids@);
        }
        grid_win
    }

    /// Moves to `coord` for the player whose turn it is and says whether
    /// that wins the small grid. The game must not be over and the move must
    /// be one that the rules allow.
    pub fn play(&mut self, coord: Coord) -> (r: bool)
        requires
            old(self).wf(),
            old(self).winner() is None,
            old(self).spec_available(coord@),
        ensures
            final(self).wf(),
            *final(self) == old(self).after_move(coord@),
            old(self).moved_by_rules(coord@, *final(self)),
            r == old(self).spec_wins_grid(old(self).mover(), coord@),
            r == has_line(held(final(self).grid(coord@ as int / 9), old(self).mover())),
            final(self).spec_count_tiles(9) == old(self).spec_count_tiles(9) + 1,
    {
        proof {
            use_type_invariant(&coord);
            old(self).lemma_play_wf(coord@);
            old(self).lemma_after_move(coord@);
        }
        let won_grid = self.set_tile_and_update(self.next_player, coord);
        self.last_move = Some(coord);
        self.next_player = self.next_player.other();
        won_grid
    }

    /// The board after a move; this board stays as it is.
    pub fn clone_and_play(&self, coord: Coord) -> (r: Board)
        requires
            self.wf(),
            self.winner() is None,
            self.spec_available(coord@),
        ensures
            r.wf(),
            r == self.after_move(coord@),
            self.moved_by_rules(coord@, r),
            r.spec_count_tiles(9) == self.spec_count_tiles(9) + 1,
    {
        let mut next = self.duplicate();
        next.play(coord);
        next
    }

    /// A move that the rules allow leads from a board of the game to a
    /// board of the game: the tile is set for the player who moved, no other
    /// tile changes, and the turn passes on.
    pub proof fn lemma_play_wf(&self, o: nat)
        requires
            self.wf(),
            self.winner() is None,
            self.spec_available(o),
            o < 81,
        ensures
            self.after_move(o).wf(),
            self.after_move(o).mover() == self.mover().spec_other(),
            self.after_move(o).last() is Some,
            self.after_move(o).last()->0@ == o,
            self.after_move(o).spec_tile(o) == self.mover(),
            forall|other: nat|
                other < 81 && other != o ==> self.after_move(o).spec_tile(other) == self.spec_tile(
                    other,
                ),
    {
        broadcast use vstd::array::group_array_axioms;

        let next = self.after_move(o);
        let player = self.next_player;
        let om = (o / 9) as u32;
        let os = (o % 9) as u32;
        let p = (9 * player.spec_index()) as u32;
        let g = self.grids@[om as int];
        let new_grid = g | (1u32 << ((os + p) as u32));
        assert(self.grid(om as int) == g);
        lemma_place(g, os, p);
        lemma_full_grid(new_grid);
        let grid_win = has_line((new_grid >> p) & 511);
        let closes = grid_win || popcount(new_grid) == 9;
        let new_open = next.macro_open;
        lemma_masks(self.macro_open, om);
        lemma_masks(new_open, os);
        lemma_masks(self.macro_mask, os);
        lemma_set_bit_bound(self.main_grid, (om + p) as u32);
        assert(next.main_mask() < 0x40000);
        assert(next.open() <= 511);
        assert(next.mask() <= 511);
        assert(next.mover() != Player::Neutral);
        assert forall|i: u32| i < 9 && #[trigger] bit(new_open, i) implies bit(self.macro_open, i)
            && (closes ==> i != om) by {
            if closes {
                lemma_bit_and(self.macro_open, !(1u32 << om), i);
                lemma_bit_one(om, i);
            }
        }
        assert forall|m: int| 0 <= m < 9 implies (#[trigger] next.grid(m)) < 0x40000 && next.grid(m)
            & (next.grid(m) >> 9) == 0 by {
            assert(self.grid(m) < 0x40000);
        }
        assert forall|i: u32| i < 9 && #[trigger] bit(next.open(), i) implies compact(
            next.grid(i as int),
        ) != 511 by {
            assert(bit(self.open(), i));
        }
        assert forall|i: u32| i < 9 && #[trigger] bit(next.mask(), i) implies bit(next.open(), i) by {
            if bit(new_open, os) {
                lemma_bit_one(os, i);
            }
        }
        if next.winner() is None {
            assert(self.mask() != 0);
            assert(self.open() != 0) by {
                if bit(self.mask(), 0) {
                    assert(bit(self.open(), 0));
                } else if bit(self.mask(), 1) {
                    assert(bit(self.open(), 1));
                } else if bit(self.mask(), 2) {
                    assert(bit(self.open(), 2));
                } else if bit(self.mask(), 3) {
                    assert(bit(self.open(), 3));
                } else if bit(self.mask(), 4) {
                    assert(bit(self.open(), 4));
                } else if bit(self.mask(), 5) {
                    assert(bit(self.open(), 5));
                } else if bit(self.mask(), 6) {
                    assert(bit(self.open(), 6));
                } else if bit(self.mask(), 7) {
                    assert(bit(self.open(), 7));
                } else {
                    assert(bit(self.mask(), 8));
                    assert(bit(self.open(), 8));
                }
            }
        }
        assert(next.winner() is None ==> next.mask() != 0);
        assert(next.spec_tile(o) == player) by {
            lemma_bit_or(g, 1u32 << ((os + p) as u32), os);
            lemma_bit_or(g, 1u32 << ((os + p) as u32), (os + 9) as u32);
            lemma_bit_one((os + p) as u32, os);
            lemma_bit_one((os + p) as u32, (os + 9) as u32);
        }
        assert forall|other: nat| other < 81 && other != o implies next.spec_tile(other)
            == self.spec_tile(other) by {
            let om2 = (other / 9) as u32;
            let os2 = (other % 9) as u32;
            if om2 == om {
                lemma_bit_or(g, 1u32 << ((os + p) as u32), os2);
                lemma_bit_or(g, 1u32 << ((os + p) as u32), (os2 + 9) as u32);
                lemma_bit_one((os + p) as u32, os2);
                lemma_bit_one((os + p) as u32, (os2 + 9) as u32);
            }
        }
    }
}

/// A bit is one or nothing.
proof fn lemma_bit_value(x: u32, j: u32)
    by (bit_vector)
    requires
        j < 32,
    ensures
        (x >> j) & 1 == 0 || (x >> j) & 1 == 1,
{
}

/// Setting a bit that was not set adds one to the number of set bits.
proof fn lemma_ones_more(g: u32, h: u32, k: u32, i: u32)
    requires
        k < 18,
        i <= 18,
        !bit(g, k),
        forall|j: u32| j < 18 ==> #[trigger] bit(h, j) == (bit(g, j) || j == k),
    ensures
        ones_from(h, i) == ones_from(g, i) + if i <= k {
            1int
        } else {
            0int
        },
    decreases 18 - i,
{
    if i < 18 {
        lemma_ones_more(g, h, k, (i + 1) as u32);
        lemma_bit_value(g, i);
        lemma_bit_value(h, i);
        assert(bit(h, i) == (bit(g, i) || i == k));
    }
}

/// Setting an empty cell of a grid adds one to the number of its tiles.
proof fn lemma_popcount_placed(g: u32, k: u32)
    requires
        g < 0x40000,
        k < 18,
        !bit(g, k),
    ensures
        popcount(g | (1u32 << k)) == popcount(g) + 1,
{
    let h = g | (1u32 << k);
    lemma_set_bit_bound(g, k);
    assert forall|j: u32| j < 18 implies #[trigger] bit(h, j) == (bit(g, j) || j == k) by {
        lemma_bit_or(g, 1u32 << k, j);
        lemma_bit_one(k, j);
    }
    lemma_ones_more(g, h, k, 0);
    lemma_popcount_from(g, 0);
    lemma_popcount_from(h, 0);
    lemma_popcount_step(g, 0);
    lemma_popcount_step(h, 0);
}

impl Board {
    /// What the rules make of a move to tile `o` by the player whose turn it
    /// is, where `next` is the board after the move:
    ///
    /// * the tile is set in its small grid, and no other small grid changes;
    /// * the small grid is won if the player now holds a row of it, and is
    ///   then marked in the main grid;
    /// * a small grid that is won or full is no longer open;
    /// * the next move goes to the small grid that the place of the tile
    ///   points to, if that one is open, and to any open one otherwise;
    /// * the player has won with a row in the main grid; with no small grid
    ///   left open the game is a draw.
    pub open spec fn moved_by_rules(&self, o: nat, next: Board) -> bool {
        let om = (o / 9) as u32;
        let os = (o % 9) as u32;
        let player = self.mover();
        let wins = has_line(held(next.grid(om as int), player));
        &&& forall|m: int|
            0 <= m < 9 ==> #[trigger] next.grid(m) == if m == om {
                placed(self.grid(m), player, os)
            } else {
                self.grid(m)
            }
        &&& next.main_mask() == if wins {
            placed(self.main_mask(), player, om)
        } else {
            self.main_mask()
        }
        &&& next.open() == if wins || compact(next.grid(om as int)) == 511 {
            self.open() & !(1u32 << om)
        } else {
            self.open()
        }
        &&& next.mask() == if bit(next.open(), os) {
            1u32 << os
        } else {
            next.open()
        }
        &&& next.winner() == if wins && has_line(held(next.main_mask(), player)) {
            Some(player)
        } else if next.open() == 0 {
            Some(Player::Neutral)
        } else {
            None
        }
        &&& next.mover() == player.spec_other()
        &&& next.last() is Some
        &&& next.last()->0@ == o
    }

    /// A move that the rules allow changes the board as the rules say; the
    /// flag that [`Board::play`] returns says whether the move has won the
    /// small grid; and the board has one tile more.
    pub proof fn lemma_after_move(&self, o: nat)
        requires
            self.wf(),
            self.winner() is None,
            self.spec_available(o),
            o < 81,
        ensures
            self.moved_by_rules(o, self.after_move(o)),
            self.spec_wins_grid(self.mover(), o) == has_line(
                held(self.after_move(o).grid(o as int / 9), self.mover()),
            ),
            self.after_move(o).spec_count_tiles(9) == self.spec_count_tiles(9) + 1,
    {
        broadcast use vstd::array::group_array_axioms;

        let next = self.after_move(o);
        let player = self.next_player;
        let om = (o / 9) as u32;
        let os = (o % 9) as u32;
        let p = (9 * player.spec_index()) as u32;
        let g = self.grids@[om as int];
        let new_grid = g | (1u32 << ((os + p) as u32));
        assert(self.grid(om as int) == g);
        assert(next.grid(om as int) == new_grid);
        lemma_place(g, os, p);
        lemma_full_grid(new_grid);
        assert(self.open() != 0) by {
            lemma_masks(self.mask(), 0);
            lemma_masks(self.open(), 0);
            let k = choose|k: u32| k < 9 && bit(self.mask(), k);
            assert(bit(self.open(), k));
        }
        assert forall|m: int| 0 <= m < 9 implies #[trigger] next.grid(m) == if m == om {
            placed(self.grid(m), player, os)
        } else {
            self.grid(m)
        } by {}
        assert(self.moved_by_rules(o, next));
        lemma_popcount_placed(g, (os + p) as u32);
        self.lemma_count_more(next, om as nat, 9);
    }

    /// A board that differs from this one by one tile more in small grid
    /// `om` has one tile more.
    proof fn lemma_count_more(&self, next: Board, om: nat, n: nat)
        requires
            n <= 9,
            om < 9,
            next.grid(om as int) < 0x40000,
            popcount(next.grid(om as int)) == popcount(self.grid(om as int)) + 1,
            forall|m: int| 0 <= m < 9 && m != om ==> #[trigger] next.grid(m) == self.grid(m),
        ensures
            next.spec_count_tiles(n) == self.spec_count_tiles(n) + if om < n {
                1int
            } else {
                0int
            },
        decreases n,
    {
        if n > 0 {
            self.lemma_count_more(next, om, (n - 1) as nat);
        }
    }
}

/// The empty cells of a grid: where `c` holds the taken cells, the other
/// of the nine low bits.
proof fn lemma_free_cells(c: u32, i: u32)
    by (bit_vector)
    requires
        c <= 511,
        i < 9,
    ensures
        (!c & 511) <= 511,
        bit(!c & 511, i) == !bit(c, i),
        c != 511 ==> (!c & 511) != 0,
{
}

/// The set bits of a number, from the lowest up.
pub struct BitIter {
    left: u32,
}

impl BitIter {
    /// The bits that have not been handed out yet.
    pub closed spec fn remaining(&self) -> u32 {
        self.left
    }

    /// The places of the bits that are set in `bits`, lowest first.
    pub fn of(bits: u32) -> (r: BitIter)
        ensures
            r.remaining() == bits,
    {
        BitIter { left: bits }
    }

    /// The place of the lowest bit that has not been handed out, which is
    /// thereby handed out; nothing once none is left.
    pub fn next(&mut self) -> (r: Option<u32>)
        ensures
            r is None <==> old(self).remaining() == 0,
            r is None ==> final(self).remaining() == 0,
            r matches Some(index) ==> {
                &&& index < 32
                &&& bit(old(self).remaining(), index)
                &&& forall|j: u32| j < index ==> !#[trigger] bit(old(self).remaining(), j)
                &&& forall|j: u32|
                    j < 32 ==> #[trigger] bit(final(self).remaining(), j) == (bit(
                        old(self).remaining(),
                        j,
                    ) && j != index)
            },
    {
        if self.left == 0 {
            None
        } else {
            let index = self.left.trailing_zeros();
            proof {
                lemma_lowest_bit(self.left);
            }
            self.left = self.left & (self.left - 1);
            Some(index)
        }
    }
}

/// What the number of trailing zeros says of a number that is not zero: the
/// bit at that place is the lowest set bit, and taking one from the number
/// clears that bit and nothing else.
pub proof fn lemma_lowest_bit(x: u32)
    requires
        x != 0,
    ensures
        x.trailing_zeros() < 32,
        bit(x, x.trailing_zeros()),
        forall|j: u32| j < x.trailing_zeros() ==> !#[trigger] bit(x, j),
        forall|j: u32|
            j < 32 ==> #[trigger] bit(x & (x - 1) as u32, j) == (bit(x, j) && j != x.trailing_zeros()),
{
    vstd::std_specs::bits::axiom_u32_trailing_zeros(x);
    let t = x.trailing_zeros();
    assert forall|j: u32| j < 32 implies #[trigger] bit(x & (x - 1) as u32, j) == (bit(x, j) && j
        != t) by {
        lemma_clear_lowest(x, t, j);
    }
}

/// The moves of a board, from the lowest tile number up.
pub struct BoardMoveIterator<'a> {
    board: &'a Board,
    macro_left: u32,
    curr_om: u32,
    grid_left: u32,
}

impl<'a> BoardMoveIterator<'a> {
    /// The board whose moves these are.
    pub closed spec fn board(&self) -> Board {
        *self.board
    }

    /// Whether tile `o` is still to come: it is one of the tiles left in the
    /// small grid at hand, or an empty tile of a small grid that is still to
    /// come.
    pub closed spec fn pending(&self, o: nat) -> bool {
        ||| o / 9 == self.curr_om && bit(self.grid_left, (o % 9) as u32)
        ||| bit(self.macro_left, (o / 9) as u32) && !bit(
            compact(self.board.grids@[o as int / 9]),
            (o % 9) as u32,
        )
    }

    /// What holds of the iterator between calls.
    pub closed spec fn inv(&self) -> bool {
        &&& self.macro_left <= 511
        &&& self.grid_left <= 511
        &&& self.curr_om < 9
        &&& forall|om: u32|
            om < 9 && #[trigger] bit(self.macro_left, om) ==> {
                &&& compact(self.board.grids@[om as int]) != 511
                &&& self.grid_left != 0 ==> om > self.curr_om
            }
    }

    /// The iterator that has no move.
    pub fn empty(board: &'a Board) -> (r: BoardMoveIterator<'a>)
        ensures
            r.inv(),
            r.board() == *board,
            forall|o: nat| o < 81 ==> !r.pending(o),
    {
        proof {
            assert forall|i: u32| i < 32 implies !#[trigger] bit(0u32, i) by {
                lemma_bit_consts(i);
            }
        }
        BoardMoveIterator { board, macro_left: 0, curr_om: 0, grid_left: 0 }
    }

    /// The iterator over the moves that the rules allow on `board`.
    pub fn new(board: &'a Board) -> (r: BoardMoveIterator<'a>)
        requires
            board.wf(),
        ensures
            r.inv(),
            r.board() == *board,
            forall|o: nat| o < 81 ==> r.pending(o) == board.spec_available(o),
    {
        let r = BoardMoveIterator { board, macro_left: board.macro_mask, curr_om: 0, grid_left: 0 };
        proof {
            assert forall|i: u32| i < 32 implies !#[trigger] bit(0u32, i) by {
                lemma_bit_consts(i);
            }
            assert forall|om: u32| om < 9 && #[trigger] bit(r.macro_left, om) implies compact(
                r.board.grids@[om as int],
            ) != 511 by {
                assert(bit(board.mask(), om));
                assert(bit(board.open(), om));
                assert(board.grid(om as int) == board.grids@[om as int]);
            }
            assert forall|o: nat| o < 81 implies r.pending(o) == board.spec_available(o) by {
                assert(board.grid(o as int / 9) == board.grids@[o as int / 9]);
            }
        }
        r
    }

    /// The next move: the pending tile with the lowest number, which
    /// thereby stops pending; nothing once no tile is pending.
    pub fn next(&mut self) -> (r: Option<Coord>)
        requires
            old(self).inv(),
        ensures
            final(self).inv(),
            final(self).board() == old(self).board(),
            r is None ==> forall|o: nat| o < 81 ==> !old(self).pending(o) && !final(self).pending(o),
            r matches Some(c) ==> {
                &&& c@ < 81
                &&& old(self).pending(c@)
                &&& forall|o: nat| o < c@ ==> !old(self).pending(o)
                &&& forall|o: nat| o < 81 ==> final(self).pending(o) == (old(self).pending(o) && o != c@)
            },
    {
        let ghost before = *self;
        if self.grid_left == 0 {
            proof {
                assert forall|i: u32| i < 32 implies !#[trigger] bit(0u32, i) by {
                    lemma_bit_consts(i);
                }
            }
            if self.macro_left == 0 {
                return None;
            } else {
                proof {
                    lemma_lowest_bit(self.macro_left);
                    lemma_masks(self.macro_left, 0);
                    lemma_bit_bound(self.macro_left);
                }
                self.curr_om = self.macro_left.trailing_zeros();
                self.macro_left = self.macro_left & (self.macro_left - 1);
                let taken = compact_grid(self.board.grids[self.curr_om as usize]);
                self.grid_left = !taken & FULL_MASK;
                proof {
                    lemma_free_cells(taken, 0);
                    lemma_bit_bound(self.macro_left);
                    assert(self.macro_left <= 511) by {
                        assert forall|j: u32| 9 <= j < 32 implies !#[trigger] bit(self.macro_left, j) by {}
                    }
                    assert forall|o: nat| o < 81 implies self.pending(o) == before.pending(o) by {
                        lemma_free_cells(taken, (o % 9) as u32);
                    }
                }
            }
        }
        let ghost middle = *self;
        proof {
            lemma_lowest_bit(self.grid_left);
            lemma_bit_bound(self.grid_left);
        }
        let os = self.grid_left.trailing_zeros();
        self.grid_left = self.grid_left & (self.grid_left - 1);
        proof {
            lemma_bit_bound(self.grid_left);
            assert(self.grid_left <= 511) by {
                assert forall|j: u32| 9 <= j < 32 implies !#[trigger] bit(self.grid_left, j) by {}
            }
            let found = (9 * self.curr_om + os) as nat;
            assert forall|o: nat| o < found implies !middle.pending(o) by {
                if o / 9 == self.curr_om {
                    assert(!bit(middle.grid_left, (o % 9) as u32));
                }
            }
            assert forall|o: nat| o < 81 implies self.pending(o) == (middle.pending(o) && o != found) by {
                if o / 9 == self.curr_om {
                    assert(bit(self.grid_left, (o % 9) as u32) == (bit(middle.grid_left, (o % 9) as u32)
                        && (o % 9) as u32 != os));
                }
            }
        }
        Some(Coord::from_oo(self.curr_om as u8, os as u8))
    }
}

/// The numbers from `lo` up to 80 that `f` holds of, in rising order.
pub open spec fn tiles_from(f: spec_fn(nat) -> bool, lo: nat) -> Seq<nat>
    decreases 81 - lo,
{
    if lo >= 81 {
        Seq::empty()
    } else if f(lo) {
        seq![lo] + tiles_from(f, lo + 1)
    } else {
        tiles_from(f, lo + 1)
    }
}

proof fn lemma_tiles_skip(f: spec_fn(nat) -> bool, lo: nat, m: nat)
    requires
        lo <= m < 81,
        f(m),
        forall|o: nat| lo <= o < m ==> !#[trigger] f(o),
    ensures
        tiles_from(f, lo) == seq![m] + tiles_from(f, m + 1),
    decreases m - lo,
{
    if lo < m {
        lemma_tiles_skip(f, lo + 1, m);
    }
}

proof fn lemma_tiles_none(f: spec_fn(nat) -> bool, lo: nat)
    requires
        forall|o: nat| lo <= o < 81 ==> !#[trigger] f(o),
    ensures
        tiles_from(f, lo) == Seq::<nat>::empty(),
    decreases 81 - lo,
{
    if lo < 81 {
        lemma_tiles_none(f, lo + 1);
    }
}

impl Board {
    /// The tiles that the next move may go to, in rising order; none once
    /// the game is over.
    pub open spec fn tile_moves(&self) -> Seq<nat> {
        if self.winner() is Some {
            Seq::empty()
        } else {
            tiles_from(|o: nat| self.spec_available(o), 0)
        }
    }

    /// The moves that the rules allow, from the lowest tile number up.
    pub fn available_moves(&self) -> (r: Vec<Coord>)
        requires
            self.wf(),
        ensures
            r@.len() == self.tile_moves().len(),
            forall|k: int| 0 <= k < r@.len() ==> (#[trigger] r@[k])@ == self.tile_moves()[k],
    {
        let mut out: Vec<Coord> = Vec::new();
        if self.is_done() {
            return out;
        }
        let mut it = BoardMoveIterator::new(self);
        let ghost allowed = |o: nat| self.spec_available(o);
        let ghost mut lo: nat = 0;
        let ghost mut found: Seq<nat> = Seq::empty();
        loop
            invariant
                it.inv(),
                lo <= 81,
                allowed == |o: nat| self.spec_available(o),
                forall|o: nat| o < 81 ==> it.pending(o) == (self.spec_available(o) && o >= lo),
                found + tiles_from(allowed, lo) == tiles_from(allowed, 0),
                out@.len() == found.len(),
                forall|k: int| 0 <= k < out@.len() ==> (#[trigger] out@[k])@ == found[k],
                self.winner() is None,
            ensures
                out@.len() == self.tile_moves().len(),
                forall|k: int| 0 <= k < out@.len() ==> (#[trigger] out@[k])@ == self.tile_moves()[k],
            decreases 81 - lo,
        {
            match it.next() {
                None => {
                    proof {
                        assert forall|o: nat| lo <= o < 81 implies !#[trigger] allowed(o) by {
                            assert(!it.pending(o));
                        }
                        lemma_tiles_none(allowed, lo);
                        assert(found + Seq::<nat>::empty() == found);
                    }
                    break ;
                },
                Some(c) => {
                    proof {
                        assert(allowed(c@));
                        assert forall|o: nat| lo <= o < c@ implies !#[trigger] allowed(o) by {}
                        lemma_tiles_skip(allowed, lo, c@);
                        assert(found.push(c@) + tiles_from(allowed, c@ + 1) == found + (seq![c@]
                            + tiles_from(allowed, c@ + 1)));
                        found = found.push(c@);
                        lo = c@ + 1;
                    }
                    out.push(c);
                },
            }
        }
        out
    }

    /// The number of set bits of the first `n` small grids together.
    pub open spec fn spec_count_tiles(&self, n: nat) -> nat
        decreases n,
    {
        if n == 0 {
            0
        } else {
            self.spec_count_tiles((n - 1) as nat) + popcount(self.grid(n - 1))
        }
    }

    /// The number of tiles that are not empty.
    pub fn count_tiles(&self) -> (r: u32)
        ensures
            r == self.spec_count_tiles(9),
    {
        let mut total: u32 = 0;
        let mut i: usize = 0;
        while i < 9
            invariant
                i <= 9,
                total == self.spec_count_tiles(i as nat),
                total <= 32 * i,
            decreases 9 - i,
        {
            total = total + self.grids[i].count_ones();
            i += 1;
        }
        total
    }
}

/// The first `n` cells of a grid moved by a symmetry: the tile of X and the
/// tile of O in each cell go to the cell that the symmetry sends it to.
pub open spec fn mapped_grid_upto(sym: Symmetry, grid: u32, n: nat) -> u32
    decreases n,
{
    if n == 0 {
        0
    } else {
        mapped_grid_upto(sym, grid, (n - 1) as nat) | (((grid >> ((n - 1) as u32)) & 0x201)
            << (mapped_oo(sym, (n - 1) as nat) as u32))
    }
}

/// A grid moved by a symmetry.
pub open spec fn mapped_grid(sym: Symmetry, grid: u32) -> u32 {
    mapped_grid_upto(sym, grid, 9)
}

/// One step of moving a grid: the bits of `before` with the two tiles of
/// cell `k` of `grid` put into cell `mk`.
proof fn lemma_move_cell(grid: u32, before: u32, k: u32, mk: u32, j: u32)
    requires
        k < 9,
        mk < 9,
        j < 32,
    ensures
        bit(before | (((grid >> k) & 0x201) << mk), j) == (bit(before, j) || (j == mk && bit(grid, k))
            || (j == mk + 9 && bit(grid, (k + 9) as u32))),
{
    let picked = (grid >> k) & 0x201;
    lemma_bit_or(before, picked << mk, j);
    lemma_bit_shl(picked, mk, j);
    if j >= mk {
        let d = (j - mk) as u32;
        lemma_bit_and(grid >> k, 0x201, d);
        lemma_bit_consts(d);
        lemma_bit_shr(grid, k, d);
    }
}

/// The bits of a moved grid: cell `i` of the grid is found in the cell that
/// the symmetry sends it to, for each player, and no other bit is set.
pub proof fn lemma_mapped_grid_bits(sym: Symmetry, grid: u32, n: nat, i: u32)
    requires
        n <= 9,
        i < 9,
    ensures
        mapped_grid_upto(sym, grid, n) < 0x40000,
        mapped_oo(sym, i as nat) < 9,
        bit(mapped_grid_upto(sym, grid, n), mapped_oo(sym, i as nat) as u32) == (i < n && bit(
            grid,
            i,
        )),
        bit(mapped_grid_upto(sym, grid, n), (mapped_oo(sym, i as nat) + 9) as u32) == (i < n && bit(
            grid,
            (i + 9) as u32,
        )),
    decreases n,
{
    let to = mapped_oo(sym, i as nat) as u32;
    sym.lemma_inverse_oo(i as nat);
    if n == 0 {
        lemma_bit_consts(to);
        lemma_bit_consts((to + 9) as u32);
    } else {
        let k = (n - 1) as u32;
        let mk = mapped_oo(sym, k as nat) as u32;
        sym.lemma_inverse_oo(k as nat);
        let before = mapped_grid_upto(sym, grid, (n - 1) as nat);
        let after = before | (((grid >> k) & 0x201) << mk);
        assert(mapped_grid_upto(sym, grid, n) == after);
        lemma_mapped_grid_bits(sym, grid, (n - 1) as nat, i);
        lemma_move_cell(grid, before, k, mk, to);
        lemma_move_cell(grid, before, k, mk, (to + 9) as u32);
        assert(to == mk <==> i == k);
        assert forall|j: u32| 18 <= j < 32 implies !#[trigger] bit(after, j) by {
            lemma_move_cell(grid, before, k, mk, j);
            lemma_bit_bound(before);
        }
        lemma_bit_bound(after);
    }
}

/// Two numbers below 2^18 that agree in every one of the eighteen low bits
/// are the same number.
pub proof fn lemma_bits_equal(x: u32, y: u32)
    requires
        x < 0x40000,
        y < 0x40000,
        forall|i: u32| i < 18 ==> #[trigger] bit(x, i) == bit(y, i),
    ensures
        x == y,
{
    assert(bit(x, 0) == bit(y, 0) && bit(x, 1) == bit(y, 1) && bit(x, 2) == bit(y, 2));
    assert(bit(x, 3) == bit(y, 3) && bit(x, 4) == bit(y, 4) && bit(x, 5) == bit(y, 5));
    assert(bit(x, 6) == bit(y, 6) && bit(x, 7) == bit(y, 7) && bit(x, 8) == bit(y, 8));
    assert(bit(x, 9) == bit(y, 9) && bit(x, 10) == bit(y, 10) && bit(x, 11) == bit(y, 11));
    assert(bit(x, 12) == bit(y, 12) && bit(x, 13) == bit(y, 13) && bit(x, 14) == bit(y, 14));
    assert(bit(x, 15) == bit(y, 15) && bit(x, 16) == bit(y, 16) && bit(x, 17) == bit(y, 17));
    lemma_bit_equal(x, y);
}

/// A grid moved by a symmetry and then by its inverse is the grid.
pub proof fn lemma_mapped_grid_inverse(sym: Symmetry, grid: u32)
    requires
        grid < 0x40000,
    ensures
        mapped_grid(sym, grid) < 0x40000,
        mapped_grid(sym.spec_inverse(), mapped_grid(sym, grid)) == grid,
{
    let inv = sym.spec_inverse();
    let once = mapped_grid(sym, grid);
    let twice = mapped_grid(inv, once);
    lemma_mapped_grid_bits(sym, grid, 9, 0);
    lemma_mapped_grid_bits(inv, once, 9, 0);
    assert forall|j: u32| j < 18 implies #[trigger] bit(twice, j) == bit(grid, j) by {
        let i = if j < 9 {
            j
        } else {
            (j - 9) as u32
        };
        let there = mapped_oo(sym, i as nat) as u32;
        sym.lemma_inverse_oo(i as nat);
        lemma_mapped_grid_bits(sym, grid, 9, i);
        lemma_mapped_grid_bits(inv, once, 9, there);
    }
    lemma_bits_equal(twice, grid);
}

/// A grid moved by the symmetry that leaves everything in place is the
/// grid.
pub proof fn lemma_mapped_grid_identity(grid: u32)
    requires
        grid < 0x40000,
    ensures
        mapped_grid(Symmetry::identity(), grid) == grid,
{
    let id = Symmetry::identity();
    let there = mapped_grid(id, grid);
    lemma_mapped_grid_bits(id, grid, 9, 0);
    assert forall|j: u32| j < 18 implies #[trigger] bit(there, j) == bit(grid, j) by {
        let i = if j < 9 {
            j
        } else {
            (j - 9) as u32
        };
        assert(mapped_oo(id, i as nat) == i) by {
            reveal(mapped_oo);
        }
        lemma_mapped_grid_bits(id, grid, 9, i);
    }
    lemma_bits_equal(there, grid);
}

/// The taken cells of a grid: a cell is taken if either player holds it.
pub proof fn lemma_compact_bits(grid: u32, i: u32)
    requires
        i < 9,
    ensures
        compact(grid) <= 511,
        bit(compact(grid), i) == (bit(grid, i) || bit(grid, (i + 9) as u32)),
{
    lemma_bit_and(grid | grid >> 9, 511, i);
    lemma_bit_consts(i);
    lemma_bit_or(grid, grid >> 9, i);
    lemma_bit_shr(grid, 9, i);
    assert(((grid | grid >> 9) & 511) <= 511) by (bit_vector);
}

impl Symmetry {
    /// Moves the eighteen bits of a grid.
    pub fn map_grid(self, grid: u32) -> (r: u32)
        ensures
            r == mapped_grid(self, grid),
    {
        let mut result: u32 = 0;
        let mut oo_input: u8 = 0;
        while oo_input < 9
            invariant
                oo_input <= 9,
                result == mapped_grid_upto(self, grid, oo_input as nat),
            decreases 9 - oo_input,
        {
            let oo_result = self.map_oo(oo_input);
            let get = (grid >> oo_input) & 0x201;
            result = result | (get << oo_result);
            oo_input += 1;
        }
        result
    }
}

impl Board {
    /// The board moved by a symmetry: every small grid goes where the
    /// symmetry sends it, and so does every tile inside its small grid; the
    /// main grid, the open small grids, the small grids that the next move
    /// may go to and the last move go along.
    pub closed spec fn mapped(&self, sym: Symmetry) -> Board {
        let inv = sym.spec_inverse();
        Board {
            grids: [
                mapped_grid(sym, self.grids@[mapped_oo(inv, 0) as int]),
                mapped_grid(sym, self.grids@[mapped_oo(inv, 1) as int]),
                mapped_grid(sym, self.grids@[mapped_oo(inv, 2) as int]),
                mapped_grid(sym, self.grids@[mapped_oo(inv, 3) as int]),
                mapped_grid(sym, self.grids@[mapped_oo(inv, 4) as int]),
                mapped_grid(sym, self.grids@[mapped_oo(inv, 5) as int]),
                mapped_grid(sym, self.grids@[mapped_oo(inv, 6) as int]),
                mapped_grid(sym, self.grids@[mapped_oo(inv, 7) as int]),
                mapped_grid(sym, self.grids@[mapped_oo(inv, 8) as int]),
            ],
            main_grid: mapped_grid(sym, self.main_grid),
            last_move: match self.last_move {
                Some(c) => Some(Coord(mapped_o(sym, c@) as u8)),
                None => None,
            },
            next_player: self.next_player,
            won_by: self.won_by,
            macro_mask: mapped_grid(sym, self.macro_mask),
            macro_open: mapped_grid(sym, self.macro_open),
        }
    }

    /// The board as the symmetry shows it: every tile, the last move and the
    /// small grids that are won or open are taken to where the symmetry takes
    /// them.
    pub fn map_symmetry(&self, sym: Symmetry) -> (r: Board)
        ensures
            r == self.mapped(sym),
    {
        broadcast use vstd::array::group_array_axioms;

        let mut grids: [u32; 9] = [0;9];
        let mut oo: u8 = 0;
        while oo < 9
            invariant
                oo <= 9,
                forall|k: nat|
                    k < oo ==> #[trigger] grids@[mapped_oo(sym, k) as int] == mapped_grid(
                        sym,
                        self.grids@[k as int],
                    ),
            decreases 9 - oo,
        {
            let to = sym.map_oo(oo);
            let moved = sym.map_grid(self.grids[oo as usize]);
            let ghost prior = grids@;
            grids[to as usize] = moved;
            proof {
                assert forall|k: nat| k < oo + 1 implies #[trigger] grids@[mapped_oo(sym, k) as int]
                    == mapped_grid(sym, self.grids@[k as int]) by {
                    sym.lemma_inverse_oo(k);
                    sym.lemma_inverse_oo(oo as nat);
                    if k < oo {
                        assert(prior[mapped_oo(sym, k) as int] == mapped_grid(sym, self.grids@[k as int]));
                    }
                }
            }
            oo += 1;
        }
        let last_move = match self.last_move {
            Some(c) => {
                proof {
                    use_type_invariant(&c);
                    lemma_mapped_o_parts(sym, c@);
                }
                Some(sym.map_coord(c))
            },
            None => None,
        };
        let r = Board {
            grids,
            main_grid: sym.map_grid(self.main_grid),
            last_move,
            next_player: self.next_player,
            won_by: self.won_by,
            macro_mask: sym.map_grid(self.macro_mask),
            macro_open: sym.map_grid(self.macro_open),
        };
        proof {
            let inv = sym.spec_inverse();
            let want = self.mapped(sym);
            assert forall|j: int| 0 <= j < 9 implies grids@[j] == want.grids@[j] by {
                inv.lemma_inverse_oo(j as nat);
                let k = mapped_oo(inv, j as nat);
                assert(grids@[mapped_oo(sym, k) as int] == mapped_grid(sym, self.grids@[k as int]));
            }
            assert(grids@ =~= want.grids@);
            assert(grids == want.grids);
            assert(r.last_move == want.last_move);
        }
        r
    }

    /// A board moved by a symmetry and then by the inverse of the symmetry
    /// is the board it was.
    pub proof fn lemma_map_inverse(&self, sym: Symmetry)
        requires
            self.wf(),
        ensures
            self.mapped(sym).mapped(sym.spec_inverse()) == *self,
    {
        broadcast use vstd::array::group_array_axioms;

        let inv = sym.spec_inverse();
        let there = self.mapped(sym);
        let back = there.mapped(inv);
        assert(inv.spec_inverse() == sym);
        assert forall|j: int| 0 <= j < 9 implies back.grids@[j] == self.grids@[j] by {
            sym.lemma_inverse_oo(j as nat);
            inv.lemma_inverse_oo(j as nat);
            let k = mapped_oo(sym, j as nat) as int;
            assert(there.grids@[k] == mapped_grid(sym, self.grids@[mapped_oo(inv, k as nat) as int]));
            assert(back.grids@[j] == mapped_grid(inv, there.grids@[k]));
            assert(self.grid(j) < 0x40000);
            lemma_mapped_grid_inverse(sym, self.grids@[j]);
        }
        assert(back.grids@ =~= self.grids@);
        assert(back.grids == self.grids);
        lemma_bit_bound(self.macro_mask);
        lemma_bit_bound(self.macro_open);
        lemma_mapped_grid_inverse(sym, self.main_grid);
        lemma_mapped_grid_inverse(sym, self.macro_mask);
        lemma_mapped_grid_inverse(sym, self.macro_open);
        assert(back.main_grid == self.main_grid);
        assert(back.macro_mask == self.macro_mask);
        assert(back.macro_open == self.macro_open);
        match self.last_move {
            Some(c) => {
                sym.lemma_inverse_o(c@);
                assert(self.last() == Some(c));
                assert(back.last_move == Some(c));
            },
            None => {},
        }
    }

    /// The symmetry that leaves everything in place leaves the board as it
    /// is.
    pub proof fn lemma_map_identity(&self)
        requires
            self.wf(),
        ensures
            self.mapped(Symmetry::identity()) == *self,
    {
        broadcast use vstd::array::group_array_axioms;

        let id = Symmetry::identity();
        let there = self.mapped(id);
        assert(id.spec_inverse() == id);
        assert forall|j: int| 0 <= j < 9 implies there.grids@[j] == self.grids@[j] by {
            assert(mapped_oo(id, j as nat) == j) by {
                reveal(mapped_oo);
            }
            assert(self.grid(j) < 0x40000);
            lemma_mapped_grid_identity(self.grids@[j]);
        }
        assert(there.grids@ =~= self.grids@);
        assert(there.grids == self.grids);
        lemma_bit_bound(self.macro_mask);
        lemma_bit_bound(self.macro_open);
        lemma_mapped_grid_identity(self.main_grid);
        lemma_mapped_grid_identity(self.macro_mask);
        lemma_mapped_grid_identity(self.macro_open);
        match self.last_move {
            Some(c) => {
                assert(self.last() == Some(c));
                id.lemma_group(c@);
                assert(there.last_move == Some(c));
            },
            None => {},
        }
    }

    /// The moves and the tiles of a board moved by a symmetry are the moves
    /// and the tiles of the board, each moved by the symmetry.
    pub proof fn lemma_map_moves(&self, sym: Symmetry, o: nat)
        requires
            self.wf(),
            o < 81,
        ensures
            mapped_o(sym, o) < 81,
            self.mapped(sym).spec_available(mapped_o(sym, o)) == self.spec_available(o),
            self.mapped(sym).spec_tile(mapped_o(sym, o)) == self.spec_tile(o),
    {
        broadcast use vstd::array::group_array_axioms;

        let inv = sym.spec_inverse();
        let there = self.mapped(sym);
        lemma_mapped_o_parts(sym, o);
        let m = (o / 9) as u32;
        let i = (o % 9) as u32;
        sym.lemma_inverse_oo(m as nat);
        sym.lemma_inverse_oo(i as nat);
        let tm = mapped_oo(sym, m as nat) as u32;
        let ti = mapped_oo(sym, i as nat) as u32;
        let from = self.grids@[m as int];
        let to = there.grids@[tm as int];
        assert(to == mapped_grid(sym, self.grids@[mapped_oo(inv, tm as nat) as int]));
        assert(to == mapped_grid(sym, from));
        lemma_mapped_grid_bits(sym, from, 9, i);
        lemma_compact_bits(from, i);
        lemma_compact_bits(to, ti);
        lemma_mapped_grid_bits(sym, self.macro_mask, 9, m);
        assert(there.grid(tm as int) == to);
        assert(self.grid(m as int) == from);
    }

    /// A board of the game moved by a symmetry is a board of the game.
    pub proof fn lemma_map_wf(&self, sym: Symmetry)
        requires
            self.wf(),
        ensures
            self.mapped(sym).wf(),
    {
        broadcast use vstd::array::group_array_axioms;

        let inv = sym.spec_inverse();
        let there = self.mapped(sym);
        lemma_mapped_grid_bits(sym, self.main_grid, 9, 0);
        lemma_mapped_mask(sym, self.macro_mask, 0);
        lemma_mapped_mask(sym, self.macro_open, 0);
        assert forall|m: int| 0 <= m < 9 implies (#[trigger] there.grid(m)) < 0x40000 && there.grid(m)
            & (there.grid(m) >> 9) == 0 by {
            inv.lemma_inverse_oo(m as nat);
            let k = mapped_oo(inv, m as nat);
            let from = self.grids@[k as int];
            let to = there.grids@[m];
            assert(to == mapped_grid(sym, from));
            assert(self.grid(k as int) == from);
            lemma_mapped_planes(sym, from);
        }
        assert forall|m: u32| m < 9 && #[trigger] bit(there.open(), m) implies compact(
            there.grid(m as int),
        ) != 511 by {
            inv.lemma_inverse_oo(m as nat);
            let k = mapped_oo(inv, m as nat) as u32;
            let from = self.grids@[k as int];
            let to = there.grids@[m as int];
            assert(to == mapped_grid(sym, from));
            lemma_mapped_mask(sym, self.macro_open, k);
            assert(bit(self.open(), k));
            assert(compact(self.grid(k as int)) != 511);
            lemma_compact_bits(from, 0);
            lemma_free_cells(compact(from), 0);
            lemma_masks(!compact(from) & 511, 0);
            let free = choose|i: u32| i < 9 && bit(!compact(from) & 511, i);
            lemma_free_cells(compact(from), free);
            lemma_compact_bits(from, free);
            lemma_mapped_grid_bits(sym, from, 9, free);
            let there_free = mapped_oo(sym, free as nat) as u32;
            lemma_compact_bits(to, there_free);
            lemma_bit_consts(there_free);
        }
        assert forall|m: u32| m < 9 && #[trigger] bit(there.mask(), m) implies bit(there.open(), m) by {
            inv.lemma_inverse_oo(m as nat);
            let k = mapped_oo(inv, m as nat) as u32;
            lemma_mapped_mask(sym, self.macro_mask, k);
            lemma_mapped_mask(sym, self.macro_open, k);
            assert(bit(self.mask(), k));
        }
        if self.winner() is None {
            lemma_masks(self.macro_mask, 0);
            let k = choose|k: u32| k < 9 && bit(self.macro_mask, k);
            lemma_mapped_mask(sym, self.macro_mask, k);
            lemma_bit_consts(mapped_oo(sym, k as nat) as u32);
        }
        match self.last_move {
            Some(c) => {
                assert(self.last() == Some(c));
                self.lemma_map_moves(sym, c@);
                let os = (c@ % 9) as u32;
                lemma_mapped_o_parts(sym, c@);
                lemma_mapped_mask(sym, self.macro_open, os);
                lemma_mapped_one(sym, os);
                assert(there.last()->0@ == mapped_o(sym, c@));
            },
            None => {},
        }
    }
}

/// A mask with one bit moved by a symmetry is the mask with the one bit
/// that the symmetry sends it to.
proof fn lemma_mapped_one(sym: Symmetry, os: u32)
    requires
        os < 9,
    ensures
        mapped_oo(sym, os as nat) < 9,
        mapped_grid(sym, 1u32 << os) == 1u32 << (mapped_oo(sym, os as nat) as u32),
{
    let inv = sym.spec_inverse();
    let x = 1u32 << os;
    sym.lemma_inverse_oo(os as nat);
    let m = mapped_oo(sym, os as nat) as u32;
    lemma_masks(0, os);
    lemma_masks(0, m);
    lemma_mapped_mask(sym, x, 0);
    let y = mapped_grid(sym, x);
    let z = 1u32 << m;
    lemma_bit_bound(y);
    lemma_bit_bound(z);
    assert forall|j: u32| j < 9 implies #[trigger] bit(y, j) == bit(z, j) by {
        lemma_bit_one(m, j);
        inv.lemma_inverse_oo(j as nat);
        let i = mapped_oo(inv, j as nat) as u32;
        lemma_mapped_mask(sym, x, i);
        lemma_bit_one(os, i);
    }
    assert(bit(y, 0) == bit(z, 0) && bit(y, 1) == bit(z, 1) && bit(y, 2) == bit(z, 2));
    assert(bit(y, 3) == bit(z, 3) && bit(y, 4) == bit(z, 4) && bit(y, 5) == bit(z, 5));
    assert(bit(y, 6) == bit(z, 6) && bit(y, 7) == bit(z, 7) && bit(y, 8) == bit(z, 8));
    lemma_bit_equal(y, z);
}

/// A mask of nine bits moved by a symmetry is a mask of nine bits, and bit
/// `m` of the mask is found where the symmetry sends it.
proof fn lemma_mapped_mask(sym: Symmetry, x: u32, m: u32)
    requires
        x <= 511,
        m < 9,
    ensures
        mapped_grid(sym, x) <= 511,
        mapped_oo(sym, m as nat) < 9,
        bit(mapped_grid(sym, x), mapped_oo(sym, m as nat) as u32) == bit(x, m),
{
    let inv = sym.spec_inverse();
    let y = mapped_grid(sym, x);
    lemma_mapped_grid_bits(sym, x, 9, m);
    lemma_bit_bound(x);
    assert forall|j: u32| 9 <= j < 18 implies !#[trigger] bit(y, j) by {
        let i = (j - 9) as u32;
        inv.lemma_inverse_oo(i as nat);
        let src = mapped_oo(inv, i as nat) as u32;
        lemma_mapped_grid_bits(sym, x, 9, src);
    }
    lemma_bit_bound(y);
}

/// A moved grid keeps its two planes apart.
proof fn lemma_mapped_planes(sym: Symmetry, grid: u32)
    requires
        grid < 0x40000,
        grid & (grid >> 9) == 0,
    ensures
        mapped_grid(sym, grid) < 0x40000,
        mapped_grid(sym, grid) & (mapped_grid(sym, grid) >> 9) == 0,
{
    let inv = sym.spec_inverse();
    let to = mapped_grid(sym, grid);
    lemma_mapped_grid_bits(sym, grid, 9, 0);
    assert forall|i: u32| i < 9 implies !(#[trigger] bit(to, i) && bit(to, (i + 9) as u32)) by {
        inv.lemma_inverse_oo(i as nat);
        let src = mapped_oo(inv, i as nat) as u32;
        lemma_mapped_grid_bits(sym, grid, 9, src);
        lemma_planes_apart(grid, src);
    }
    assert(!(bit(to, 0) && bit(to, 9)) && !(bit(to, 1) && bit(to, 10)) && !(bit(to, 2) && bit(to, 11)));
    assert(!(bit(to, 3) && bit(to, 12)) && !(bit(to, 4) && bit(to, 13)) && !(bit(to, 5) && bit(to, 14)));
    assert(!(bit(to, 6) && bit(to, 15)) && !(bit(to, 7) && bit(to, 16)) && !(bit(to, 8) && bit(to, 17)));
    lemma_planes_apart_from_bits(to);
}

/// In a grid whose tiles are held by one player each, no cell has both of
/// its bits set, and the other way round.
proof fn lemma_planes_apart(grid: u32, i: u32)
    by (bit_vector)
    requires
        grid & (grid >> 9) == 0,
        i < 9,
    ensures
        !(bit(grid, i) && bit(grid, (i + 9) as u32)),
{
}

proof fn lemma_planes_apart_from_bits(grid: u32)
    by (bit_vector)
    requires
        grid < 0x40000,
        !(bit(grid, 0) && bit(grid, 9)),
        !(bit(grid, 1) && bit(grid, 10)),
        !(bit(grid, 2) && bit(grid, 11)),
        !(bit(grid, 3) && bit(grid, 12)),
        !(bit(grid, 4) && bit(grid, 13)),
        !(bit(grid, 5) && bit(grid, 14)),
        !(bit(grid, 6) && bit(grid, 15)),
        !(bit(grid, 7) && bit(grid, 16)),
        !(bit(grid, 8) && bit(grid, 17)),
    ensures
        grid & (grid >> 9) == 0,
{
}

proof fn lemma_tiles_some(f: spec_fn(nat) -> bool, lo: nat, m: nat)
    requires
        lo <= m < 81,
        f(m),
    ensures
        tiles_from(f, lo).len() > 0,
    decreases m - lo,
{
    if !f(lo) {
        lemma_tiles_some(f, lo + 1, m);
    }
}

proof fn lemma_tiles_member(f: spec_fn(nat) -> bool, lo: nat, k: int)
    requires
        0 <= k < tiles_from(f, lo).len(),
    ensures
        tiles_from(f, lo).len() <= 81 - lo,
        lo <= tiles_from(f, lo)[k] < 81,
        f(tiles_from(f, lo)[k]),
    decreases 81 - lo,
{
    if lo < 81 {
        lemma_tiles_len(f, lo + 1);
        if f(lo) {
            if k > 0 {
                lemma_tiles_member(f, lo + 1, k - 1);
            }
        } else {
            lemma_tiles_member(f, lo + 1, k);
        }
    }
}

proof fn lemma_tiles_len(f: spec_fn(nat) -> bool, lo: nat)
    ensures
        tiles_from(f, lo).len() <= 81 - lo || lo >= 81 && tiles_from(f, lo).len() == 0,
    decreases 81 - lo,
{
    if lo < 81 {
        lemma_tiles_len(f, lo + 1);
    }
}

impl Coord {
    /// The tile with number `o`.
    pub closed spec fn at(o: nat) -> Coord {
        Coord(o as u8)
    }

    /// A tile is known by its number.
    pub proof fn lemma_at(o: nat)
        requires
            o < 81,
        ensures
            Coord::at(o)@ == o,
    {
    }

    /// Two tiles with the same number are the same tile.
    pub proof fn lemma_ext(a: Coord, b: Coord)
        requires
            a@ == b@,
        ensures
            a == b,
    {
    }
}

impl Board {
    /// While the game goes on, there is a move, and there are never more
    /// than 81; every move goes to a tile that the rules allow.
    pub proof fn lemma_moves(&self)
        requires
            self.wf(),
        ensures
            self.tile_moves().len() <= 81,
            self.winner() is None ==> self.tile_moves().len() > 0,
            forall|k: int|
                0 <= k < self.tile_moves().len() ==> (#[trigger] self.tile_moves()[k]) < 81
                    && self.spec_available(self.tile_moves()[k]),
    {
        let allowed = |o: nat| self.spec_available(o);
        lemma_tiles_len(allowed, 0);
        if self.winner() is None {
            lemma_masks(self.mask(), 0);
            let om = choose|om: u32| om < 9 && bit(self.mask(), om);
            assert(bit(self.open(), om));
            let taken = compact(self.grid(om as int));
            lemma_compact_bits(self.grid(om as int), 0);
            lemma_free_cells(taken, 0);
            lemma_masks(!taken & 511, 0);
            let os = choose|os: u32| os < 9 && bit(!taken & 511, os);
            lemma_free_cells(taken, os);
            let o = (9 * om + os) as nat;
            assert(allowed(o));
            lemma_tiles_some(allowed, 0, o);
            assert forall|k: int| 0 <= k < self.tile_moves().len() implies (
            #[trigger] self.tile_moves()[k]) < 81 && self.spec_available(self.tile_moves()[k]) by {
                lemma_tiles_member(allowed, 0, k);
            }
        }
    }
}

impl GameBoard for Board {
    type Move = Coord;

    open spec fn valid(&self) -> bool {
        self.wf()
    }

    open spec fn spec_outcome(&self) -> Option<Outcome> {
        match self.winner() {
            None => None,
            Some(Player::Neutral) => Some(Outcome::Draw),
            Some(player) => Some(Outcome::WonBy(player)),
        }
    }

    open spec fn spec_next_player(&self) -> Player {
        self.mover()
    }

    open spec fn spec_moves(&self) -> Seq<Coord> {
        Seq::new(self.tile_moves().len(), |k: int| Coord::at(self.tile_moves()[k]))
    }

    open spec fn spec_play(&self, mv: Coord) -> Board {
        self.after_move(mv@)
    }

    fn outcome(&self) -> (r: Option<Outcome>) {
        match self.won_by {
            None => None,
            Some(Player::Neutral) => Some(Outcome::Draw),
            Some(player) => Some(Outcome::WonBy(player)),
        }
    }

    fn next_player(&self) -> (r: Player) {
        self.next_player
    }

    fn available_moves(&self) -> (r: Vec<Coord>) {
        let r = Board::available_moves(self);
        proof {
            self.lemma_moves();
            assert forall|k: int| 0 <= k < r@.len() implies r@[k] == self.spec_moves()[k] by {
                Coord::lemma_ext(r@[k], Coord::at(self.tile_moves()[k]));
            }
            assert(r@ =~= self.spec_moves());
        }
        r
    }

    fn play(&mut self, mv: Coord) {
        proof {
            old(self).lemma_moves();
            let k = choose|k: int|
                0 <= k < old(self).spec_moves().len() && old(self).spec_moves()[k] == mv;
            assert(mv@ == old(self).tile_moves()[k]);
        }
        Board::play(self, mv);
    }

    fn duplicate(&self) -> (r: Board) {
        Board::duplicate(self)
    }

    fn same_move(a: Coord, b: Coord) -> (r: bool) {
        a.same(b)
    }
}

impl Board {
    /// The move with number `index` among the moves that the rules allow,
    /// counted from zero in the order of the moves.
    pub fn nth_available_move(&self, index: usize) -> (r: Option<Coord>)
        requires
            self.wf(),
        ensures
            r is Some <==> index < self.tile_moves().len(),
            r matches Some(c) ==> c@ == self.tile_moves()[index as int] && self.spec_available(c@),
    {
        let moves = Board::available_moves(self);
        proof {
            self.lemma_moves();
        }
        if index < moves.len() {
            Some(moves[index])
        } else {
            None
        }
    }

    /// One of the moves that the rules allow, each with the same chance;
    /// nothing once the game is over.
    pub fn random_available_move<R: Rng>(&self, rand: &mut R) -> (r: Option<Coord>)
        requires
            self.wf(),
        ensures
            r is None <==> self.winner() is Some,
            r matches Some(c) ==> self.spec_available(c@) && exists|k: int|
                0 <= k < self.tile_moves().len() && #[trigger] self.tile_moves()[k] == c@,
    {
        if self.is_done() {
            return None;
        }
        let moves = Board::available_moves(self);
        proof {
            self.lemma_moves();
        }
        let index = gen_below(rand, moves.len());
        proof {
            assert(self.tile_moves()[index as int] == moves@[index as int]@);
        }
        Some(moves[index])
    }
}

impl SymmetricBoard for Board {
    type Symmetry = Symmetry;

    open spec fn spec_map(&self, sym: Symmetry) -> Board {
        self.mapped(sym)
    }

    open spec fn spec_map_move(&self, sym: Symmetry, mv: Coord) -> Coord {
        Coord::at(mapped_o(sym, mv@))
    }

    open spec fn spec_symmetries() -> Seq<Symmetry> {
        Symmetry::spec_all()
    }

    fn all_symmetries() -> (r: Vec<Symmetry>) {
        Symmetry::all()
    }

    fn map(&self, sym: Symmetry) -> (r: Board) {
        proof {
            self.lemma_map_wf(sym);
        }
        self.map_symmetry(sym)
    }

    fn map_move(&self, sym: Symmetry, mv: Coord) -> (r: Coord) {
        let r = sym.map_coord(mv);
        proof {
            Coord::lemma_ext(r, Coord::at(mapped_o(sym, mv@)));
        }
        r
    }
}

/// The character that shows a tile: `x` and `o` for the tiles of the
/// players, in capitals for the tile of the last move, a dot for an empty
/// tile that the next move may go to and a blank for any other empty tile.
pub open spec fn tile_symbol(available: bool, is_last: bool, player: Player) -> char {
    match player {
        Player::X => if is_last {
            'X'
        } else {
            'x'
        },
        Player::O => if is_last {
            'O'
        } else {
            'o'
        },
        Player::Neutral => if available {
            '.'
        } else {
            ' '
        },
    }
}

/// What a character of a board written as text says of its tile: whether
/// the next move may go there, whether the last move went there, and who
/// holds it. Here the small letters mark the last move.
pub open spec fn symbol_tile(c: char) -> (bool, bool, Player) {
    if c == 'X' {
        (false, false, Player::X)
    } else if c == 'x' {
        (false, true, Player::X)
    } else if c == 'O' {
        (false, false, Player::O)
    } else if c == 'o' {
        (false, true, Player::O)
    } else if c == ' ' {
        (false, false, Player::Neutral)
    } else {
        (true, false, Player::Neutral)
    }
}

/// Whether a character stands for a tile.
pub open spec fn is_symbol(c: char) -> bool {
    c == 'X' || c == 'x' || c == 'O' || c == 'o' || c == ' ' || c == '.'
}

impl Board {
    /// The character that shows tile `o` of the board.
    pub open spec fn spec_symbol(&self, o: nat) -> char {
        tile_symbol(
            self.spec_available(o),
            self.last() is Some && self.last()->0@ == o,
            self.spec_tile(o),
        )
    }

    /// The board with the tiles of the first `n` characters of `s` set, in
    /// the order of the characters.
    pub open spec fn spec_placed(s: Seq<char>, n: nat) -> Board
        decreases n,
    {
        if n == 0 {
            Board::spec_new()
        } else {
            let before = Board::spec_placed(s, (n - 1) as nat);
            let player = symbol_tile(s[n - 1]).2;
            if player != Player::Neutral {
                before.spec_set_tile(player, (n - 1) as nat)
            } else {
                before
            }
        }
    }

    /// The last of the first `n` characters of `s` that marks the last
    /// move, with the player it stands for.
    pub open spec fn spec_marked(s: Seq<char>, n: nat) -> Option<(Player, nat)>
        decreases n,
    {
        if n == 0 {
            None
        } else if symbol_tile(s[n - 1]).1 {
            Some((symbol_tile(s[n - 1]).2, (n - 1) as nat))
        } else {
            Board::spec_marked(s, (n - 1) as nat)
        }
    }

    /// The empty board.
    pub closed spec fn spec_new() -> Board {
        Board {
            grids: [0u32, 0u32, 0u32, 0u32, 0u32, 0u32, 0u32, 0u32, 0u32],
            main_grid: 0,
            last_move: None,
            next_player: Player::X,
            won_by: None,
            macro_mask: 511,
            macro_open: 511,
        }
    }

    /// The board with the given last move and the given player to move.
    pub closed spec fn spec_turn(&self, last: Coord, next: Player) -> Board {
        Board {
            grids: self.grids,
            main_grid: self.main_grid,
            last_move: Some(last),
            next_player: next,
            won_by: self.won_by,
            macro_mask: self.macro_mask,
            macro_open: self.macro_open,
        }
    }

    /// The board that 81 characters stand for: all tiles are set in the
    /// order of the characters; then the tile of the last move is set once
    /// more, so that what follows from it for the next move holds, and the
    /// turn passes to the other player.
    pub open spec fn spec_from_compact(s: Seq<char>) -> Board {
        let placed = Board::spec_placed(s, 81);
        match Board::spec_marked(s, 81) {
            Some((player, o)) => placed.spec_set_tile(player, o).spec_turn(
                Coord::at(o),
                player.spec_other(),
            ),
            None => placed,
        }
    }
}

impl Board {
    /// Setting a tile changes its small grid by that tile and no other
    /// small grid.
    pub proof fn lemma_set_tile_grids(&self, player: Player, o: nat)
        requires
            o < 81,
        ensures
            forall|m: int|
                0 <= m < 9 ==> #[trigger] self.spec_set_tile(player, o).grid(m) == if m == o / 9 {
                    placed(self.grid(m), player, (o % 9) as u32)
                } else {
                    self.grid(m)
                },
    {
        broadcast use vstd::array::group_array_axioms;

    }

    /// The character that marks the last move stands for a tile of a
    /// player.
    pub proof fn lemma_marked(s: Seq<char>, n: nat)
        ensures
            Board::spec_marked(s, n) matches Some((player, o)) ==> o < n && player == symbol_tile(
                s[o as int],
            ).2 && player != Player::Neutral,
        decreases n,
    {
        if n > 0 && !symbol_tile(s[n - 1]).1 {
            Board::lemma_marked(s, (n - 1) as nat);
        }
    }

    /// The bits of a grid with a tile set.
    proof fn lemma_placed_bits(grid: u32, player: Player, os: u32, j: u32)
        requires
            os < 9,
            j < 18,
        ensures
            bit(placed(grid, player, os), j) == (bit(grid, j) || j == os + 9 * player.spec_index()),
    {
        let k = (os + 9 * player.spec_index()) as u32;
        lemma_bit_or(grid, 1u32 << k, j);
        lemma_bit_one(k, j);
    }

    /// After the tiles of the first `n` characters have been set, tile `t`
    /// is held by the player that its character stands for, if it is one
    /// of them, and by nobody otherwise.
    pub proof fn lemma_placed_tiles(s: Seq<char>, n: nat, t: nat)
        requires
            n <= 81,
            t < 81,
        ensures
            bit(Board::spec_placed(s, n).grid(t as int / 9), (t % 9) as u32) == (t < n && symbol_tile(
                s[t as int],
            ).2 == Player::X),
            bit(Board::spec_placed(s, n).grid(t as int / 9), (t % 9 + 9) as u32) == (t < n
                && symbol_tile(s[t as int]).2 == Player::O),
        decreases n,
    {
        broadcast use vstd::array::group_array_axioms;

        if n == 0 {
            lemma_bit_consts((t % 9) as u32);
            lemma_bit_consts((t % 9 + 9) as u32);
            assert(Board::spec_placed(s, 0).grid(t as int / 9) == 0);
        } else {
            let before = Board::spec_placed(s, (n - 1) as nat);
            let player = symbol_tile(s[n - 1]).2;
            Board::lemma_placed_tiles(s, (n - 1) as nat, t);
            if player != Player::Neutral {
                let o = (n - 1) as nat;
                before.lemma_set_tile_grids(player, o);
                let after = before.spec_set_tile(player, o);
                assert(after.grid(t as int / 9) == if t / 9 == o / 9 {
                    placed(before.grid(t as int / 9), player, (o % 9) as u32)
                } else {
                    before.grid(t as int / 9)
                });
                Board::lemma_placed_bits(
                    before.grid(t as int / 9),
                    player,
                    (o % 9) as u32,
                    (t % 9) as u32,
                );
                Board::lemma_placed_bits(
                    before.grid(t as int / 9),
                    player,
                    (o % 9) as u32,
                    (t % 9 + 9) as u32,
                );
            }
        }
    }

    /// A move must go to the small grid that the place of the last move
    /// points to, if that small grid is open.
    pub proof fn lemma_move_follows_last(&self, o: nat)
        requires
            self.wf(),
            o < 81,
            self.spec_available(o),
            self.last() is Some,
            bit(self.open(), (self.last()->0@ % 9) as u32),
        ensures
            o / 9 == self.last()->0@ % 9,
            self.spec_tile(o) == Player::Neutral,
    {
        lemma_bit_one((self.last()->0@ % 9) as u32, (o / 9) as u32);
        lemma_compact_bits(self.grid(o as int / 9), (o % 9) as u32);
    }

    /// A text without a tile of a player stands for the empty board.
    pub proof fn lemma_empty_text(s: Seq<char>, n: nat)
        requires
            n <= s.len(),
            forall|i: int| 0 <= i < n ==> symbol_tile(#[trigger] s[i]).2 == Player::Neutral,
        ensures
            Board::spec_placed(s, n) == Board::spec_new(),
            Board::spec_marked(s, n) is None,
            n == 81 ==> Board::spec_from_compact(s) == Board::spec_new(),
        decreases n,
    {
        if n > 0 {
            Board::lemma_empty_text(s, (n - 1) as nat);
            assert(symbol_tile(s[n - 1]).2 == Player::Neutral);
        }
    }

    /// Every tile of the board that 81 characters stand for is held by the
    /// player that its character stands for, and by nobody where the
    /// character stands for an empty tile.
    pub proof fn lemma_from_compact_tiles(s: Seq<char>, t: nat)
        requires
            s.len() == 81,
            t < 81,
        ensures
            Board::spec_from_compact(s).spec_tile(t) == symbol_tile(s[t as int]).2,
    {
        let all = Board::spec_placed(s, 81);
        Board::lemma_placed_tiles(s, 81, t);
        Board::lemma_marked(s, 81);
        match Board::spec_marked(s, 81) {
            Some((player, o)) => {
                let set = all.spec_set_tile(player, o);
                let board = set.spec_turn(Coord::at(o), player.spec_other());
                assert(board.grid(t as int / 9) == set.grid(t as int / 9));
                all.lemma_set_tile_grids(player, o);
                assert(set.grid(t as int / 9) == if t / 9 == o / 9 {
                    placed(all.grid(t as int / 9), player, (o % 9) as u32)
                } else {
                    all.grid(t as int / 9)
                });
                Board::lemma_placed_tiles(s, 81, o);
                Board::lemma_placed_bits(all.grid(t as int / 9), player, (o % 9) as u32, (t % 9) as u32);
                Board::lemma_placed_bits(
                    all.grid(t as int / 9),
                    player,
                    (o % 9) as u32,
                    (t % 9 + 9) as u32,
                );
            },
            None => {},
        }
    }
}

/// The character that shows the tile at `coord`.
pub fn symbol_from_tile(board: &Board, coord: Coord) -> (r: char)
    requires
        board.wf(),
    ensures
        r == board.spec_symbol(coord@),
{
    let is_last = match board.last_move {
        Some(last) => last.same(coord),
        None => false,
    };
    let is_available = board.is_available_move(coord);
    let player = board.tile(coord);
    proof {
        use_type_invariant(&coord);
        assert(board.last() == board.last_move);
        lemma_compact_bits(board.grid(coord@ as int / 9), (coord@ % 9) as u32);
    }
    match player {
        Player::X => if is_last {
            'X'
        } else {
            'x'
        },
        Player::O => if is_last {
            'O'
        } else {
            'o'
        },
        Player::Neutral => if is_available {
            '.'
        } else {
            ' '
        },
    }
}

/// What a character of a board written as text says of its tile.
pub fn symbol_to_tile(c: char) -> (r: (bool, bool, Player))
    requires
        is_symbol(c),
    ensures
        r == symbol_tile(c),
{
    if c == 'X' {
        (false, false, Player::X)
    } else if c == 'x' {
        (false, true, Player::X)
    } else if c == 'O' {
        (false, false, Player::O)
    } else if c == 'o' {
        (false, true, Player::O)
    } else if c == ' ' {
        (false, false, Player::Neutral)
    } else {
        (true, false, Player::Neutral)
    }
}

/// The board as 81 characters, one per tile in the order of the tile
/// numbers.
pub fn board_to_compact_string(board: &Board) -> (r: String)
    requires
        board.wf(),
    ensures
        r@ == Seq::new(81, |o: int| board.spec_symbol(o as nat)),
{
    let mut out = String::new();
    let mut o: u8 = 0;
    while o < 81
        invariant
            o <= 81,
            board.wf(),
            out@ == Seq::new(o as nat, |i: int| board.spec_symbol(i as nat)),
        decreases 81 - o,
    {
        let c = symbol_from_tile(board, Coord::from_o(o));
        push_char(&mut out, c);
        o += 1;
    }
    out
}

/// The board that 81 characters stand for. Every character must be one
/// that stands for a tile.
pub fn board_from_compact_string(s: &str) -> (r: Board)
    requires
        s@.len() == 81,
        forall|i: int| 0 <= i < 81 ==> is_symbol(#[trigger] s@[i]),
    ensures
        r == Board::spec_from_compact(s@),
{
    let mut board = Board::new();
    let mut last_move: Option<(Player, Coord)> = None;
    let mut o: u8 = 0;
    while o < 81
        invariant
            o <= 81,
            s@.len() == 81,
            forall|i: int| 0 <= i < 81 ==> is_symbol(#[trigger] s@[i]),
            board == Board::spec_placed(s@, o as nat),
            match last_move {
                Some((player, coord)) => player != Player::Neutral && Board::spec_marked(
                    s@,
                    o as nat,
                ) == Some((player, coord@)),
                None => Board::spec_marked(s@, o as nat) is None,
            },
        decreases 81 - o,
    {
        let c = s.get_char(o as usize);
        let coord = Coord::from_o(o);
        let (_, last, player) = symbol_to_tile(c);
        if last {
            last_move = Some((player, coord));
        }
        if player != Player::Neutral {
            board.set_tile_and_update(player, coord);
        }
        o += 1;
    }
    if let Some((last_player, last_coord)) = last_move {
        proof {
            Coord::lemma_ext(last_coord, Coord::at(last_coord@));
        }
        board.set_tile_and_update(last_player, last_coord);
        board.last_move = Some(last_coord);
        board.next_player = last_player.other();
    }
    board
}

/// Place `i` of the board drawn as text: nine rows of nine tiles, the small
/// grids set apart by bars and by rules of dashes and crosses. A row takes
/// twelve characters, a rule as many.
pub open spec fn picture_char(board: Board, i: int) -> char {
    let line = i / 12;
    let col = i % 12;
    if col == 11 {
        '\n'
    } else if line == 3 || line == 7 {
        if col == 3 || col == 7 {
            '+'
        } else {
            '-'
        }
    } else if col == 3 || col == 7 {
        '|'
    } else {
        let y = if line < 3 {
            line
        } else if line < 7 {
            line - 1
        } else {
            line - 2
        };
        let x = if col < 3 {
            col
        } else if col < 7 {
            col - 1
        } else {
            col - 2
        };
        board.spec_symbol(o_of_xy(x as nat, y as nat))
    }
}

impl Board {
    /// The board drawn as text, see [`picture_char`].
    pub fn to_text(&self) -> (r: String)
        requires
            self.wf(),
        ensures
            r@ == Seq::new(132, |i: int| picture_char(*self, i)),
    {
        let mut out = String::new();
        let mut y: u8 = 0;
        while y < 9
            invariant
                y <= 9,
                self.wf(),
                out@ == Seq::new(
                    (12 * y + if y > 6 {
                        24int
                    } else if y > 3 {
                        12int
                    } else {
                        0int
                    }) as nat,
                    |i: int| picture_char(*self, i),
                ),
            decreases 9 - y,
        {
            let ghost line = if y >= 6 {
                y + 2
            } else if y >= 3 {
                y + 1
            } else {
                y as int
            };
            if y == 3 || y == 6 {
                let ghost before = out@;
                push_text(&mut out, "---+---+---\n");
                proof {
                    reveal_strlit("---+---+---\n");
                    let rule = "---+---+---\n"@;
                    assert(rule.len() == 12);
                    assert(out@ =~= Seq::new((12 * line) as nat, |i: int| picture_char(*self, i))) by {
                        assert forall|i: int| 0 <= i < 12 * line implies out@[i] == picture_char(
                            *self,
                            i,
                        ) by {
                            if i >= before.len() {
                                let col = i - before.len();
                                assert(i / 12 == line - 1 && i % 12 == col);
                                assert(out@[i] == rule[col]);
                            }
                        }
                    }
                }
            }
            let mut x: u8 = 0;
            let ghost row_start = out@.len();
            while x < 9
                invariant
                    x <= 9,
                    y < 9,
                    self.wf(),
                    row_start == 12 * line,
                    line == if y >= 6 {
                        y + 2
                    } else if y >= 3 {
                        y + 1
                    } else {
                        y as int
                    },
                    out@ == Seq::new(
                        (row_start + x + if x > 6 {
                            2int
                        } else if x > 3 {
                            1int
                        } else {
                            0int
                        }) as nat,
                        |i: int| picture_char(*self, i),
                    ),
                decreases 9 - x,
            {
                if x == 3 || x == 6 {
                    let ghost before = out@;
                    push_char(&mut out, '|');
                    proof {
                        let at = before.len() as int;
                        assert(at / 12 == line && at % 12 == (if x == 3 {
                            3int
                        } else {
                            7int
                        }));
                        assert(out@ =~= Seq::new((at + 1) as nat, |i: int| picture_char(*self, i)));
                    }
                }
                let ghost before = out@;
                let c = symbol_from_tile(self, Coord::from_xy(x, y));
                push_char(&mut out, c);
                proof {
                    let at = before.len() as int;
                    let col = if x >= 6 {
                        x + 2
                    } else if x >= 3 {
                        x + 1
                    } else {
                        x as int
                    };
                    assert(at == row_start + col);
                    assert(at / 12 == line && at % 12 == col);
                    assert(out@ =~= Seq::new((at + 1) as nat, |i: int| picture_char(*self, i)));
                }
                x += 1;
            }
            let ghost before = out@;
            push_char(&mut out, '\n');
            proof {
                let at = before.len() as int;
                assert(at == row_start + 11);
                assert(at / 12 == line && at % 12 == 11);
                assert(out@ =~= Seq::new((at + 1) as nat, |i: int| picture_char(*self, i)));
            }
            y += 1;
        }
        out
    }
}

/// The number of set bits of `x` below place `b`.
pub open spec fn bits_below(x: u32, b: nat) -> nat
    decreases b,
{
    if b == 0 {
        0
    } else {
        bits_below(x, (b - 1) as nat) + if bit(x, (b - 1) as u32) {
            1nat
        } else {
            0nat
        }
    }
}

/// Whether `r` is the place of the set bit of `x` that has `n` set bits
/// below it, or 32 where `x` has no such bit.
pub open spec fn is_nth_set_bit(x: u32, n: nat, r: u32) -> bool {
    if bits_below(x, 32) > n {
        r < 32 && bit(x, r) && bits_below(x, r as nat) == n
    } else {
        r == 32
    }
}

proof fn lemma_bits_below_cleared(x: u32, y: u32, t: u32, b: nat)
    requires
        t < 32,
        b <= 32,
        bit(x, t),
        forall|j: u32| j < 32 ==> #[trigger] bit(y, j) == (bit(x, j) && j != t),
    ensures
        bits_below(y, b) == bits_below(x, b) - if t < b {
            1int
        } else {
            0int
        },
    decreases b,
{
    if b > 0 {
        lemma_bits_below_cleared(x, y, t, (b - 1) as nat);
        assert(bit(y, (b - 1) as u32) == (bit(x, (b - 1) as u32) && (b - 1) as u32 != t));
    }
}

proof fn lemma_bits_below_none(x: u32, b: nat)
    requires
        b <= 32,
        forall|j: u32| j < b ==> !#[trigger] bit(x, j),
    ensures
        bits_below(x, b) == 0,
    decreases b,
{
    if b > 0 {
        lemma_bits_below_none(x, (b - 1) as nat);
    }
}

proof fn lemma_bits_below_grows(x: u32, a: nat, b: nat)
    requires
        a <= b <= 32,
    ensures
        bits_below(x, a) <= bits_below(x, b),
    decreases b,
{
    if a < b {
        lemma_bits_below_grows(x, a, (b - 1) as nat);
    }
}

/// The place of the set bit of `x` that has `n` set bits below it; 32 where
/// `x` has no more than `n` set bits.
pub fn get_nth_set_bit(x: u32, n: u32) -> (r: u32)
    ensures
        is_nth_set_bit(x, n as nat, r),
{
    let mut rest: u32 = x;
    let mut i: u32 = 0;
    let ghost mut left: nat = n as nat;
    while i < n
        invariant
            i <= n,
            left == n - i,
            forall|r: u32| #[trigger] is_nth_set_bit(rest, left, r) ==> is_nth_set_bit(x, n as nat, r),
        decreases n - i,
    {
        let ghost before = rest;
        let ghost before_left = left;
        if rest != 0 {
            rest = rest & (rest - 1);
        }
        proof {
            left = (left - 1) as nat;
            assert forall|r: u32| #[trigger] is_nth_set_bit(rest, left, r) implies is_nth_set_bit(
                before,
                before_left,
                r,
            ) by {
                if before == 0 {
                    assert forall|j: u32| j < 32 implies !#[trigger] bit(0u32, j) by {
                        lemma_bit_consts(j);
                    }
                    lemma_bits_below_none(0u32, 32);
                } else {
                    lemma_lowest_bit(before);
                    let t = before.trailing_zeros();
                    lemma_bits_below_cleared(before, rest, t, 32);
                    if r < 32 {
                        lemma_bits_below_cleared(before, rest, t, r as nat);
                        if bits_below(rest, 32) > left {
                            assert(bit(rest, r) == (bit(before, r) && r != t));
                            assert(r > t) by {
                                if r < t {
                                    assert(!bit(before, r));
                                }
                            }
                        }
                    }
                }
            }
        }
        i += 1;
    }
    let r = rest.trailing_zeros();
    proof {
        vstd::std_specs::bits::axiom_u32_trailing_zeros(rest);
        if rest == 0 {
            assert forall|j: u32| j < 32 implies !#[trigger] bit(0u32, j) by {
                lemma_bit_consts(j);
            }
            lemma_bits_below_none(0u32, 32);
        } else {
            lemma_lowest_bit(rest);
            lemma_bits_below_none(rest, r as nat);
            lemma_bits_below_grows(rest, (r + 1) as nat, 32);
            assert(bits_below(rest, (r + 1) as nat) == bits_below(rest, r as nat) + 1);
        }
        assert(is_nth_set_bit(rest, 0, r));
    }
    r
}

} // verus!
