//! The policy head of chess: 73 planes of 64 squares, seen from the side
//! that is about to move.

use crate::mapping::mapper::PolicyMapper;
use vstd::prelude::*;

verus! {

/// A side.
#[derive(Debug, Copy, Clone, PartialEq, Eq, Hash, Structural)]
pub enum Color {
    White,
    Black,
}

/// A kind of piece.
#[derive(Debug, Copy, Clone, PartialEq, Eq, Hash, Structural)]
pub enum Piece {
    Pawn,
    Knight,
    Bishop,
    Rook,
    Queen,
    King,
}

/// A square of the chess board; its number is `rank * 8 + file`.
#[derive(Debug, Copy, Clone, PartialEq, Eq, Hash, Structural)]
pub struct Square {
    index: u8,
}

/// A move: where from, where to, and what a pawn becomes on the last rank.
#[derive(Debug, Copy, Clone, PartialEq, Eq, Hash)]
pub struct ChessMove {
    source: Square,
    dest: Square,
    promotion: Option<Piece>,
}

/// The number of planes for moves along a rank, a file or a diagonal.
pub const QUEEN_CHANNELS: usize = 56;

/// The number of planes for knight moves.
pub const KNIGHT_CHANNELS: usize = 8;

/// The number of planes for promotions to less than a queen.
pub const UNDERPROMOTION_CHANNELS: usize = 9;

/// The number of planes of the policy head.
pub const POLICY_CHANNELS: usize = 73;

/// The number of entries of the policy head.
pub const POLICY_SIZE: usize = 4672;

impl View for Square {
    type V = nat;

    closed spec fn view(&self) -> nat {
        self.index as nat
    }
}

impl Square {
    #[verifier::type_invariant]
    closed spec fn inv(self) -> bool {
        self.index < 64
    }

    /// Whether the square lies on the board; every square that a program
    /// holds does.
    pub open spec fn valid(self) -> bool {
        self@ < 64
    }

    /// The square with the given number.
    pub closed spec fn at(index: nat) -> Square {
        Square { index: index as u8 }
    }

    /// The rank of the square, from 0 for the first rank.
    pub open spec fn rank(self) -> int {
        self@ as int / 8
    }

    /// The file of the square, from 0 for the a-file.
    pub open spec fn file(self) -> int {
        self@ as int % 8
    }

    /// The square on the given rank and file.
    pub open spec fn on(rank: int, file: int) -> Square {
        Square::at((rank * 8 + file) as nat)
    }

    /// A square is known by its number.
    pub broadcast proof fn lemma_at(index: nat)
        requires
            index < 64,
        ensures
            (#[trigger] Square::at(index))@ == index,
    {
    }

    /// Two squares with the same number are the same square.
    pub proof fn lemma_ext(a: Square, b: Square)
        requires
            a@ == b@,
        ensures
            a == b,
    {
    }

    /// The square on the given rank and file.
    pub fn make_square(rank: usize, file: usize) -> (r: Square)
        requires
            rank < 8,
            file < 8,
        ensures
            r == Square::on(rank as int, file as int),
            r@ == rank * 8 + file,
            r.valid(),
    {
        Square { index: (rank * 8 + file) as u8 }
    }

    /// The number of the square.
    pub fn to_index(self) -> (r: usize)
        ensures
            r == self@,
            self.valid(),
    {
        proof {
            use_type_invariant(&self);
        }
        self.index as usize
    }

    /// The rank of the square, from 0 for the first rank.
    pub fn get_rank(self) -> (r: usize)
        ensures
            r == self.rank(),
            r < 8,
            self.valid(),
    {
        proof {
            use_type_invariant(&self);
        }
        (self.index / 8) as usize
    }

    /// The file of the square, from 0 for the a-file.
    pub fn get_file(self) -> (r: usize)
        ensures
            r == self.file(),
            r < 8,
    {
        (self.index % 8) as usize
    }
}

impl ChessMove {
    /// The move with the given parts.
    pub closed spec fn of(source: Square, dest: Square, promotion: Option<Piece>) -> ChessMove {
        ChessMove { source, dest, promotion }
    }

    /// Where the move starts.
    pub closed spec fn source(self) -> Square {
        self.source
    }

    /// Where the move ends.
    pub closed spec fn dest(self) -> Square {
        self.dest
    }

    /// What a pawn becomes, for a move that promotes one.
    pub closed spec fn promotion(self) -> Option<Piece> {
        self.promotion
    }

    /// A move is known by its three parts.
    pub broadcast proof fn lemma_of(source: Square, dest: Square, promotion: Option<Piece>)
        ensures
            (#[trigger] ChessMove::of(source, dest, promotion)).source() == source,
            ChessMove::of(source, dest, promotion).dest() == dest,
            ChessMove::of(source, dest, promotion).promotion() == promotion,
    {
    }

    /// Two moves with the same parts are the same move.
    pub proof fn lemma_ext(a: ChessMove, b: ChessMove)
        requires
            a.source() == b.source(),
            a.dest() == b.dest(),
            a.promotion() == b.promotion(),
        ensures
            a == b,
    {
    }

    /// The move with the given parts.
    pub fn new(source: Square, dest: Square, promotion: Option<Piece>) -> (r: ChessMove)
        ensures
            r == ChessMove::of(source, dest, promotion),
    {
        ChessMove { source, dest, promotion }
    }

    /// Where the move starts.
    pub fn get_source(&self) -> (r: Square)
        ensures
            r == self.source(),
    {
        self.source
    }

    /// Where the move ends.
    pub fn get_dest(&self) -> (r: Square)
        ensures
            r == self.dest(),
    {
        self.dest
    }

    /// What a pawn becomes, for a move that promotes one.
    pub fn get_promotion(&self) -> (r: Option<Piece>)
        ensures
            r == self.promotion(),
    {
        self.promotion
    }
}

/// The step of queen direction `d`, as (ranks, files); the directions run
/// clockwise from north.
pub open spec fn queen_step(d: int) -> (int, int) {
    if d == 0 {
        (1, 0)
    } else if d == 1 {
        (1, 1)
    } else if d == 2 {
        (0, 1)
    } else if d == 3 {
        (-1, 1)
    } else if d == 4 {
        (-1, 0)
    } else if d == 5 {
        (-1, -1)
    } else if d == 6 {
        (0, -1)
    } else {
        (1, -1)
    }
}

/// The jump of knight direction `d`, as (ranks, files); the directions run
/// clockwise from north-north-east.
pub open spec fn knight_jump(d: int) -> (int, int) {
    if d == 0 {
        (2, 1)
    } else if d == 1 {
        (1, 2)
    } else if d == 2 {
        (-1, 2)
    } else if d == 3 {
        (-2, 1)
    } else if d == 4 {
        (-2, -1)
    } else if d == 5 {
        (-1, -2)
    } else if d == 6 {
        (1, -2)
    } else {
        (2, -1)
    }
}

/// The piece of underpromotion choice `i`.
pub open spec fn underpromotion_piece(i: int) -> Piece {
    if i == 0 {
        Piece::Rook
    } else if i == 1 {
        Piece::Bishop
    } else {
        Piece::Knight
    }
}

/// The sign of a number: -1, 0 or 1.
pub open spec fn sign(v: int) -> int {
    if v < 0 {
        -1
    } else if v == 0 {
        0
    } else {
        1
    }
}

/// The distance of a number from zero.
pub open spec fn magnitude(v: int) -> int {
    if v < 0 {
        -v
    } else {
        v
    }
}

/// The larger of the two distances from zero.
pub open spec fn reach(dr: int, df: int) -> int {
    if magnitude(dr) >= magnitude(df) {
        magnitude(dr)
    } else {
        magnitude(df)
    }
}

/// Whether a displacement runs along a rank, a file or a diagonal.
pub open spec fn is_queen_line(dr: int, df: int) -> bool {
    &&& (dr != 0 || df != 0)
    &&& (dr == 0 || df == 0 || magnitude(dr) == magnitude(df))
}

/// Whether a displacement is a knight's jump.
pub open spec fn is_knight_jump(dr: int, df: int) -> bool {
    (magnitude(dr) == 2 && magnitude(df) == 1) || (magnitude(dr) == 1 && magnitude(df) == 2)
}

/// The queen direction whose step has the given signs.
pub open spec fn queen_direction_of(sr: int, sf: int) -> int {
    if sr == 1 && sf == 0 {
        0
    } else if sr == 1 && sf == 1 {
        1
    } else if sr == 0 && sf == 1 {
        2
    } else if sr == -1 && sf == 1 {
        3
    } else if sr == -1 && sf == 0 {
        4
    } else if sr == -1 && sf == -1 {
        5
    } else if sr == 0 && sf == -1 {
        6
    } else {
        7
    }
}

/// The knight direction with the given jump.
pub open spec fn knight_direction_of(dr: int, df: int) -> int {
    if dr == 2 && df == 1 {
        0
    } else if dr == 1 && df == 2 {
        1
    } else if dr == -1 && df == 2 {
        2
    } else if dr == -2 && df == 1 {
        3
    } else if dr == -2 && df == -1 {
        4
    } else if dr == -1 && df == -2 {
        5
    } else if dr == 1 && df == -2 {
        6
    } else {
        7
    }
}

/// The underpromotion choice of a piece.
pub open spec fn underpromotion_choice_of(promotion: Option<Piece>) -> int {
    if promotion == Some(Piece::Rook) {
        0
    } else if promotion == Some(Piece::Bishop) {
        1
    } else {
        2
    }
}

/// Whether a promotion is one to less than a queen.
pub open spec fn is_underpromotion(promotion: Option<Piece>) -> bool {
    promotion == Some(Piece::Rook) || promotion == Some(Piece::Bishop) || promotion == Some(
        Piece::Knight,
    )
}

fn queen_direction(d: usize) -> (r: (isize, isize))
    requires
        d < 8,
    ensures
        (r.0 as int, r.1 as int) == queen_step(d as int),
{
    match d {
        0 => (1, 0),
        1 => (1, 1),
        2 => (0, 1),
        3 => (-1, 1),
        4 => (-1, 0),
        5 => (-1, -1),
        6 => (0, -1),
        _ => (1, -1),
    }
}

fn knight_delta(d: usize) -> (r: (isize, isize))
    requires
        d < 8,
    ensures
        (r.0 as int, r.1 as int) == knight_jump(d as int),
{
    match d {
        0 => (2, 1),
        1 => (1, 2),
        2 => (-1, 2),
        3 => (-2, 1),
        4 => (-2, -1),
        5 => (-1, -2),
        6 => (1, -2),
        _ => (2, -1),
    }
}

fn underpromotion_choice(i: usize) -> (r: Piece)
    requires
        i < 3,
    ensures
        r == underpromotion_piece(i as int),
{
    match i {
        0 => Piece::Rook,
        1 => Piece::Bishop,
        _ => Piece::Knight,
    }
}

fn underpromotion_index(piece: Piece) -> (r: Option<usize>)
    ensures
        r is Some <==> is_underpromotion(Some(piece)),
        r matches Some(i) ==> i < 3 && underpromotion_piece(i as int) == piece && i
            == underpromotion_choice_of(Some(piece)),
{
    match piece {
        Piece::Rook => Some(0),
        Piece::Bishop => Some(1),
        Piece::Knight => Some(2),
        _ => None,
    }
}

fn signum(v: isize) -> (r: isize)
    ensures
        r == sign(v as int),
{
    if v < 0 {
        -1
    } else if v == 0 {
        0
    } else {
        1
    }
}

fn queen_direction_index(sr: isize, sf: isize) -> (r: Option<usize>)
    ensures
        r matches Some(d) ==> d < 8 && queen_step(d as int) == (sr as int, sf as int) && d
            == queen_direction_of(sr as int, sf as int),
        r is None ==> forall|d: int| 0 <= d < 8 ==> #[trigger] queen_step(d) != (sr as int, sf as int),
{
    let mut d: usize = 0;
    while d < 8
        invariant
            d <= 8,
            forall|k: int| 0 <= k < d ==> #[trigger] queen_step(k) != (sr as int, sf as int),
        decreases 8 - d,
    {
        let step = queen_direction(d);
        if step.0 == sr && step.1 == sf {
            return Some(d);
        }
        d += 1;
    }
    None
}

fn knight_direction_index(dr: isize, df: isize) -> (r: Option<usize>)
    ensures
        r is Some <==> is_knight_jump(dr as int, df as int),
        r matches Some(d) ==> d == knight_direction_of(dr as int, df as int),
{
    let mut d: usize = 0;
    while d < 8
        invariant
            d <= 8,
            forall|k: int| 0 <= k < d ==> #[trigger] knight_jump(k) != (dr as int, df as int),
        decreases 8 - d,
    {
        let jump = knight_delta(d);
        if jump.0 == dr && jump.1 == df {
            return Some(d);
        }
        d += 1;
    }
    proof {
        let here = (dr as int, df as int);
        assert(knight_jump(0) != here && knight_jump(1) != here && knight_jump(2) != here
            && knight_jump(3) != here);
        assert(knight_jump(4) != here && knight_jump(5) != here && knight_jump(6) != here
            && knight_jump(7) != here);
    }
    None
}

/// A move as the policy head sees it, from the point of view of the side
/// that moves.
#[derive(Debug, Copy, Clone, PartialEq, Eq, Structural)]
pub enum ClassifiedPovMove {
    Queen { direction: usize, distance_m1: usize },
    Knight { direction: usize },
    UnderPromotion { direction: usize, piece: usize },
}

/// The square at the given rank and file, where that is on the board.
pub open spec fn square_at(rank: int, file: int) -> Option<Square> {
    if 0 <= rank < 8 && 0 <= file < 8 {
        Some(Square::on(rank, file))
    } else {
        None
    }
}

/// The square seen from the other end of the board when black looks at it.
pub open spec fn pov_square(pov: Color, sq: Square) -> Square {
    match pov {
        Color::White => sq,
        Color::Black => Square::on(7 - sq.rank(), sq.file()),
    }
}

/// The move with both of its squares seen from the given side.
pub open spec fn pov_move(pov: Color, mv: ChessMove) -> ChessMove {
    ChessMove::of(pov_square(pov, mv.source()), pov_square(pov, mv.dest()), mv.promotion())
}

impl ClassifiedPovMove {
    /// Whether every number of the move is one the policy head has a plane for.
    pub open spec fn wf(self) -> bool {
        match self {
            ClassifiedPovMove::Queen { direction, distance_m1 } => direction < 8 && distance_m1 < 7,
            ClassifiedPovMove::Knight { direction } => direction < 8,
            ClassifiedPovMove::UnderPromotion { direction, piece } => direction < 3 && piece < 3,
        }
    }

    /// The move that starts at `from`, if it ends on the board. A pawn that
    /// reaches the last rank along a queen direction becomes a queen.
    pub open spec fn spec_to_move(self, moving_pawn: bool, from: Square) -> Option<ChessMove> {
        match self {
            ClassifiedPovMove::Queen { direction, distance_m1 } => {
                let step = queen_step(direction as int);
                let rank = from.rank() + (distance_m1 + 1) * step.0;
                let file = from.file() + (distance_m1 + 1) * step.1;
                match square_at(rank, file) {
                    Some(to) => Some(
                        ChessMove::of(
                            from,
                            to,
                            if moving_pawn && rank == 7 {
                                Some(Piece::Queen)
                            } else {
                                None
                            },
                        ),
                    ),
                    None => None,
                }
            },
            ClassifiedPovMove::Knight { direction } => {
                let jump = knight_jump(direction as int);
                match square_at(from.rank() + jump.0, from.file() + jump.1) {
                    Some(to) => Some(ChessMove::of(from, to, None)),
                    None => None,
                }
            },
            ClassifiedPovMove::UnderPromotion { direction, piece } => {
                match square_at(7, from.file() + direction - 1) {
                    Some(to) => Some(
                        ChessMove::of(from, to, Some(underpromotion_piece(piece as int))),
                    ),
                    None => None,
                }
            },
        }
    }

    /// Whether the policy head has a plane for a move of this shape.
    pub open spec fn classifiable(mv: ChessMove) -> bool {
        let dr = mv.dest().rank() - mv.source().rank();
        let df = mv.dest().file() - mv.source().file();
        is_underpromotion(mv.promotion()) || is_queen_line(dr, df) || is_knight_jump(dr, df)
    }

    /// How the policy head sees a move: an underpromotion first, then a move
    /// along a line, then a knight's jump.
    pub open spec fn spec_from_move(mv: ChessMove) -> ClassifiedPovMove {
        let dr = mv.dest().rank() - mv.source().rank();
        let df = mv.dest().file() - mv.source().file();
        if is_underpromotion(mv.promotion()) {
            ClassifiedPovMove::UnderPromotion {
                direction: (sign(df) + 1) as usize,
                piece: underpromotion_choice_of(mv.promotion()) as usize,
            }
        } else if is_queen_line(dr, df) {
            ClassifiedPovMove::Queen {
                direction: queen_direction_of(sign(dr), sign(df)) as usize,
                distance_m1: (reach(dr, df) - 1) as usize,
            }
        } else {
            ClassifiedPovMove::Knight { direction: knight_direction_of(dr, df) as usize }
        }
    }

    /// The plane of the move: 56 planes of queen moves, direction by
    /// direction, then 8 of knight moves, then 9 of underpromotions.
    pub open spec fn spec_to_channel(self) -> nat {
        match self {
            ClassifiedPovMove::Queen { direction, distance_m1 } => (direction * 7 + distance_m1) as nat,
            ClassifiedPovMove::Knight { direction } => (56 + direction) as nat,
            ClassifiedPovMove::UnderPromotion { direction, piece } => (64 + direction * 3
                + piece) as nat,
        }
    }

    /// The move of a plane.
    pub open spec fn spec_from_channel(channel: nat) -> ClassifiedPovMove {
        if channel < 56 {
            ClassifiedPovMove::Queen {
                direction: (channel / 7) as usize,
                distance_m1: (channel % 7) as usize,
            }
        } else if channel < 64 {
            ClassifiedPovMove::Knight { direction: (channel - 56) as usize }
        } else {
            ClassifiedPovMove::UnderPromotion {
                direction: ((channel - 64) / 3) as usize,
                piece: ((channel - 64) % 3) as usize,
            }
        }
    }

    /// The move that this plane stands for when it starts at `from`, if it
    /// stays on the board. A pawn that reaches the last rank along a queen
    /// direction becomes a queen.
    pub fn to_move(self, moving_pawn: bool, from: Square) -> (r: Option<ChessMove>)
        requires
            self.wf(),
        ensures
            r == self.spec_to_move(moving_pawn, from),
    {
        match self {
            ClassifiedPovMove::Queen { direction, distance_m1 } => {
                let (rank_dir, file_dir) = queen_direction(direction);
                let distance = distance_m1 + 1;
                let to = square(
                    from.get_rank() as isize + distance as isize * rank_dir,
                    from.get_file() as isize + distance as isize * file_dir,
                );
                match to {
                    Some(to) => {
                        let to_backrank = to.get_rank() == 7;
                        let promotion = if moving_pawn && to_backrank {
                            Some(Piece::Queen)
                        } else {
                            None
                        };
                        proof {
                            let step = queen_step(direction as int);
                            let rank = from.rank() + (distance_m1 + 1) * step.0;
                            let file = from.file() + (distance_m1 + 1) * step.1;
                            Square::lemma_at((rank * 8 + file) as nat);
                        }
                        Some(ChessMove::new(from, to, promotion))
                    },
                    None => None,
                }
            },
            ClassifiedPovMove::Knight { direction } => {
                let (rank_delta, file_delta) = knight_delta(direction);
                let to = square(
                    from.get_rank() as isize + rank_delta,
                    from.get_file() as isize + file_delta,
                );
                match to {
                    Some(to) => Some(ChessMove::new(from, to, None)),
                    None => None,
                }
            },
            ClassifiedPovMove::UnderPromotion { direction, piece } => {
                let to = square(7, from.get_file() as isize + (direction as isize - 1));
                let promotion = underpromotion_choice(piece);
                match to {
                    Some(to) => Some(ChessMove::new(from, to, Some(promotion))),
                    None => None,
                }
            },
        }
    }

    /// The plane of a move as its mover sees it.
    pub fn from_move(mv: ChessMove) -> (r: ClassifiedPovMove)
        requires
            ClassifiedPovMove::classifiable(mv),
        ensures
            r == ClassifiedPovMove::spec_from_move(mv),
            r.wf(),
    {
        let from = mv.get_source();
        let to = mv.get_dest();

        let rank_delta: isize = (to.get_rank() as isize) - (from.get_rank() as isize);
        let file_delta: isize = (to.get_file() as isize) - (from.get_file() as isize);

        if let Some(piece) = mv.get_promotion() {
            if let Some(piece) = underpromotion_index(piece) {
                let direction = (signum(file_delta) + 1) as usize;
                return ClassifiedPovMove::UnderPromotion { direction, piece };
            }
        }
        if let Some(direction) = queen_direction_index(signum(rank_delta), signum(file_delta)) {
            let rank_reach: isize = if rank_delta < 0 {
                -rank_delta
            } else {
                rank_delta
            };
            let file_reach: isize = if file_delta < 0 {
                -file_delta
            } else {
                file_delta
            };
            let distance: isize = if rank_reach >= file_reach {
                rank_reach
            } else {
                file_reach
            };

            let (rank_dir, file_dir) = queen_direction(direction);
            proof {
                lemma_unit_product(rank_dir as int, distance as int);
                lemma_unit_product(file_dir as int, distance as int);
            }
            if rank_delta == rank_dir * distance && file_delta == file_dir * distance {
                let distance_m1 = (distance - 1) as usize;
                return ClassifiedPovMove::Queen { direction, distance_m1 };
            }
        }
        match knight_direction_index(rank_delta, file_delta) {
            Some(direction) => ClassifiedPovMove::Knight { direction },
            None => {
                proof {
                    let dr = rank_delta as int;
                    let df = file_delta as int;
                    assert(is_queen_line(dr, df));
                    assert(queen_step(queen_direction_of(sign(dr), sign(df))) == (sign(dr), sign(df)));
                    assert(false);
                }
                ClassifiedPovMove::Knight { direction: 0 }
            },
        }
    }

    /// The number of the plane.
    pub fn to_channel(self) -> (r: usize)
        requires
            self.wf(),
        ensures
            r == self.spec_to_channel(),
            r < POLICY_CHANNELS,
    {
        match self {
            ClassifiedPovMove::Queen { direction, distance_m1 } => direction * 7 + distance_m1,
            ClassifiedPovMove::Knight { direction } => QUEEN_CHANNELS + direction,
            ClassifiedPovMove::UnderPromotion { direction, piece } => QUEEN_CHANNELS
                + KNIGHT_CHANNELS + direction * 3 + piece,
        }
    }

    /// The plane with the given number.
    pub fn from_channel(channel: usize) -> (r: ClassifiedPovMove)
        requires
            channel < POLICY_CHANNELS,
        ensures
            r == ClassifiedPovMove::spec_from_channel(channel as nat),
            r.wf(),
    {
        if channel < QUEEN_CHANNELS {
            let direction = channel / 7;
            let distance_m1 = channel % 7;
            ClassifiedPovMove::Queen { direction, distance_m1 }
        } else if channel < QUEEN_CHANNELS + KNIGHT_CHANNELS {
            let direction = channel - QUEEN_CHANNELS;
            ClassifiedPovMove::Knight { direction }
        } else {
            let left = channel - (QUEEN_CHANNELS + KNIGHT_CHANNELS);
            let direction = left / 3;
            let piece = left % 3;
            ClassifiedPovMove::UnderPromotion { direction, piece }
        }
    }

    /// A move and its plane stand for each other.
    pub proof fn lemma_channel_round_trip(self, channel: nat)
        requires
            self.wf(),
            channel < 73,
        ensures
            self.spec_to_channel() < 73,
            ClassifiedPovMove::spec_from_channel(self.spec_to_channel()) == self,
            ClassifiedPovMove::spec_from_channel(channel).wf(),
            ClassifiedPovMove::spec_from_channel(channel).spec_to_channel() == channel,
    {
    }
}

/// A product with -1, 0 or 1.
proof fn lemma_unit_product(unit: int, v: int)
    requires
        -1 <= unit <= 1,
    ensures
        unit * v == if unit == 1 {
            v
        } else if unit == 0 {
            0
        } else {
            -v
        },
{
    assert(unit * v == if unit == 1 {
        v
    } else if unit == 0 {
        0
    } else {
        -v
    }) by (nonlinear_arith)
        requires
            -1 <= unit <= 1,
    ;
}

/// The square with the given number.
pub fn square_from_index(index: usize) -> (r: Square)
    requires
        index < 64,
    ensures
        r@ == index,
{
    Square::make_square(index / 8, index % 8)
}

/// The square on the given rank and file, if they lie on the board.
pub fn square(rank: isize, file: isize) -> (r: Option<Square>)
    ensures
        r == square_at(rank as int, file as int),
{
    if 0 <= rank && rank < 8 && 0 <= file && file < 8 {
        Some(Square::make_square(rank as usize, file as usize))
    } else {
        None
    }
}

/// View a square from the given side. The same function takes a square from
/// the board to that view and back.
pub fn square_pov(pov: Color, sq: Square) -> (r: Square)
    ensures
        r == pov_square(pov, sq),
{
    match pov {
        Color::White => sq,
        Color::Black => Square::make_square(7 - sq.get_rank(), sq.get_file()),
    }
}

/// View a move from the given side.
pub fn move_pov(pov: Color, mv: ChessMove) -> (r: ChessMove)
    ensures
        r == pov_move(pov, mv),
{
    ChessMove::new(
        square_pov(pov, mv.get_source()),
        square_pov(pov, mv.get_dest()),
        mv.get_promotion(),
    )
}

/// What the mapper reads of a chess position.
#[derive(Debug, Clone, PartialEq, Eq)]
pub struct ChessPosition {
    pub side_to_move: Color,
    /// What stands on each square, by the number of the square.
    pub squares: [Option<(Color, Piece)>; 64],
    /// The square behind a pawn that has just moved two ranks.
    pub en_passant: Option<Square>,
    /// Whether white and black, in that order, may still castle on the king's side.
    pub castle_kingside: [bool; 2],
    /// Whether white and black, in that order, may still castle on the queen's side.
    pub castle_queenside: [bool; 2],
    /// How often this position has occurred before.
    pub repetitions: u32,
    /// The number of half-moves played in the game.
    pub game_length: u32,
    /// The number of half-moves since a pawn moved or a piece was taken.
    pub non_pawn_or_capture_moves: u32,
}

/// The number of input planes.
pub const INPUT_CHANNELS: usize = 21;

/// The opponent of a colour.
pub open spec fn opponent(color: Color) -> Color {
    match color {
        Color::White => Color::Black,
        Color::Black => Color::White,
    }
}

/// The place of a colour in the castling tables.
pub open spec fn color_index(color: Color) -> int {
    match color {
        Color::White => 0,
        Color::Black => 1,
    }
}

/// The piece of each of the six piece planes of a side.
pub open spec fn plane_piece(i: int) -> Piece {
    if i == 0 {
        Piece::Pawn
    } else if i == 1 {
        Piece::Knight
    } else if i == 2 {
        Piece::Bishop
    } else if i == 3 {
        Piece::Rook
    } else if i == 4 {
        Piece::Queen
    } else {
        Piece::King
    }
}

/// The number of the square that entry `cell` of a plane shows: the planes
/// are laid out row by row from the mover's own back rank.
pub open spec fn plane_square(side: Color, cell: int) -> int {
    match side {
        Color::White => cell,
        Color::Black => (7 - cell / 8) * 8 + cell % 8,
    }
}

/// One for true, zero for false.
pub open spec fn flag(b: bool) -> u32 {
    if b {
        1
    } else {
        0
    }
}

impl ChessPosition {
    /// Entry `cell` of input plane `plane`. From the mover's point of view:
    /// six planes of the mover's pieces, six of the opponent's, the
    /// en-passant square, the castling rights of the mover and of the
    /// opponent (king's side first), the repetition count as two bits, the
    /// game length and the half-moves since a pawn moved or a piece was
    /// taken.
    pub open spec fn plane_entry(&self, plane: int, cell: int) -> u32 {
        let us = self.side_to_move;
        let sq = plane_square(us, cell);
        if plane < 12 {
            let color = if plane < 6 {
                us
            } else {
                opponent(us)
            };
            flag(self.squares@[sq] == Some((color, plane_piece(plane % 6))))
        } else if plane == 12 {
            flag(self.en_passant is Some && self.en_passant->Some_0@ == sq)
        } else if plane == 13 {
            flag(self.castle_kingside@[color_index(us)])
        } else if plane == 14 {
            flag(self.castle_queenside@[color_index(us)])
        } else if plane == 15 {
            flag(self.castle_kingside@[color_index(opponent(us))])
        } else if plane == 16 {
            flag(self.castle_queenside@[color_index(opponent(us))])
        } else if plane == 17 {
            self.repetitions % 2
        } else if plane == 18 {
            self.repetitions / 2
        } else if plane == 19 {
            self.game_length
        } else {
            self.non_pawn_or_capture_moves
        }
    }

    /// The input tensor of the position, plane after plane.
    pub open spec fn encoded(&self) -> Seq<u32> {
        Seq::new(21 * 64, |i: int| self.plane_entry(i / 64, i % 64))
    }

    /// The piece on a square, whatever its colour.
    pub open spec fn spec_piece_on(&self, sq: Square) -> Option<Piece> {
        match self.squares@[sq@ as int] {
            Some(occupant) => Some(occupant.1),
            None => None,
        }
    }

    /// The kind of piece on a square, if there is one.
    pub fn piece_on(&self, sq: Square) -> (r: Option<Piece>)
        ensures
            r == self.spec_piece_on(sq),
    {
        match self.squares[sq.to_index()] {
            Some(occupant) => Some(occupant.1),
            None => None,
        }
    }

    /// The slot of the policy head that stands for a move.
    pub open spec fn policy_index(&self, mv: ChessMove) -> nat {
        let pov = pov_move(self.side_to_move, mv);
        ClassifiedPovMove::spec_from_move(pov).spec_to_channel() * 64 + pov.source()@
    }

    /// The move that a slot of the policy head stands for, if it stays on
    /// the board.
    pub open spec fn policy_move(&self, index: nat) -> Option<ChessMove> {
        let classified = ClassifiedPovMove::spec_from_channel(index / 64);
        let from = Square::at(index % 64);
        let from_abs = pov_square(self.side_to_move, from);
        let moving_pawn = self.spec_piece_on(from_abs) == Some(Piece::Pawn);
        match classified.spec_to_move(moving_pawn, from) {
            Some(mv) => Some(pov_move(self.side_to_move, mv)),
            None => None,
        }
    }

    /// What holds of every legal move and makes it one that the policy head
    /// can name; see [`nameable`].
    pub open spec fn encodable(&self, mv: ChessMove) -> bool {
        &&& mv.source().valid()
        &&& mv.dest().valid()
        &&& nameable(
            pov_move(self.side_to_move, mv),
            self.spec_piece_on(mv.source()) == Some(Piece::Pawn),
        )
    }

    /// Every move that the policy head can name is found again from its
    /// slot: the slot of a move is one of the 4672, and the move of that
    /// slot is the move.
    pub proof fn lemma_policy_round_trip(&self, mv: ChessMove)
        requires
            self.encodable(mv),
        ensures
            ClassifiedPovMove::classifiable(pov_move(self.side_to_move, mv)),
            self.policy_index(mv) < POLICY_SIZE,
            self.policy_move(self.policy_index(mv)) == Some(mv),
    {
        let side = self.side_to_move;
        let pov = pov_move(side, mv);
        let moving_pawn = self.spec_piece_on(mv.source()) == Some(Piece::Pawn);
        lemma_pov_move(side, mv);
        lemma_move_round_trip(pov, moving_pawn);
        let from = pov.source();
        let classified = ClassifiedPovMove::spec_from_move(pov);
        let channel = classified.spec_to_channel();
        classified.lemma_channel_round_trip(0);
        let index = channel * 64 + from@;
        assert(index / 64 == channel && index % 64 == from@);
        Square::lemma_at(from@);
        Square::lemma_ext(Square::at(from@), from);
        lemma_pov_square(side, mv.source());
    }
}

/// What holds of every legal move, seen from the side that moves, and makes
/// it one that the policy head can name: a move along a line promotes to a
/// queen exactly when it takes a pawn to the last rank, a knight's jump
/// promotes to nothing, and a promotion to less than a queen ends on the
/// last rank at most one file to the side.
pub open spec fn nameable(pov: ChessMove, moving_pawn: bool) -> bool {
    let dr = pov.dest().rank() - pov.source().rank();
    let df = pov.dest().file() - pov.source().file();
    &&& pov.source().valid()
    &&& pov.dest().valid()
    &&& if is_underpromotion(pov.promotion()) {
        pov.dest().rank() == 7 && -1 <= df <= 1
    } else if is_queen_line(dr, df) {
        pov.promotion() == if moving_pawn && pov.dest().rank() == 7 {
            Some(Piece::Queen)
        } else {
            None
        }
    } else {
        is_knight_jump(dr, df) && pov.promotion() is None
    }
}

/// From the way the policy head sees a move, the move is found again.
pub proof fn lemma_move_round_trip(pov: ChessMove, moving_pawn: bool)
    requires
        nameable(pov, moving_pawn),
    ensures
        ClassifiedPovMove::classifiable(pov),
        ClassifiedPovMove::spec_from_move(pov).wf(),
        ClassifiedPovMove::spec_from_move(pov).spec_to_move(moving_pawn, pov.source()) == Some(
            pov,
        ),
{
    let from = pov.source();
    let to = pov.dest();
    let dr = to.rank() - from.rank();
    let df = to.file() - from.file();
    lemma_square_on(to);
    lemma_square_on(from);
    let classified = ClassifiedPovMove::spec_from_move(pov);
    if is_underpromotion(pov.promotion()) {
        let back = ChessMove::of(from, to, pov.promotion());
        ChessMove::lemma_of(from, to, pov.promotion());
        ChessMove::lemma_ext(back, pov);
        assert(square_at(7, from.file() + (sign(df) + 1) - 1) == Some(to));
    } else if is_queen_line(dr, df) {
        let d = queen_direction_of(sign(dr), sign(df));
        let step = queen_step(d);
        assert(step == (sign(dr), sign(df)));
        let dist = reach(dr, df);
        lemma_unit_product(step.0, dist);
        lemma_unit_product(step.1, dist);
        assert(dist * step.0 == dr) by (nonlinear_arith)
            requires
                step.0 * dist == dr,
        ;
        assert(dist * step.1 == df) by (nonlinear_arith)
            requires
                step.1 * dist == df,
        ;
        assert(square_at(from.rank() + dist * step.0, from.file() + dist * step.1) == Some(to));
        let back = ChessMove::of(from, to, pov.promotion());
        ChessMove::lemma_of(from, to, pov.promotion());
        ChessMove::lemma_ext(back, pov);
    } else {
        let d = knight_direction_of(dr, df);
        assert(knight_jump(d) == (dr, df));
        let back = ChessMove::of(from, to, None);
        ChessMove::lemma_of(from, to, None);
        ChessMove::lemma_ext(back, pov);
    }
}

/// Seen twice from the same side, a move is what it was.
pub proof fn lemma_pov_move(pov: Color, mv: ChessMove)
    requires
        mv.source().valid(),
        mv.dest().valid(),
    ensures
        pov_move(pov, mv).source() == pov_square(pov, mv.source()),
        pov_move(pov, mv).dest() == pov_square(pov, mv.dest()),
        pov_move(pov, mv).promotion() == mv.promotion(),
        pov_move(pov, pov_move(pov, mv)) == mv,
{
    lemma_pov_square(pov, mv.source());
    lemma_pov_square(pov, mv.dest());
    ChessMove::lemma_of(pov_square(pov, mv.source()), pov_square(pov, mv.dest()), mv.promotion());
    let once = pov_move(pov, mv);
    ChessMove::lemma_of(pov_square(pov, once.source()), pov_square(pov, once.dest()), once.promotion());
    ChessMove::lemma_ext(pov_move(pov, once), mv);
}

/// A square on the board is the square on its rank and file.
proof fn lemma_square_on(sq: Square)
    requires
        sq.valid(),
    ensures
        0 <= sq.rank() < 8,
        0 <= sq.file() < 8,
        Square::on(sq.rank(), sq.file()) == sq,
        square_at(sq.rank(), sq.file()) == Some(sq),
{
    Square::lemma_at(sq@);
    Square::lemma_ext(Square::at(sq@), sq);
}

/// Seen twice from the same side, a square is where it was; its file stays
/// and its rank is counted from the other end for black.
pub proof fn lemma_pov_square(pov: Color, sq: Square)
    requires
        sq.valid(),
    ensures
        pov_square(pov, sq).valid(),
        pov_square(pov, sq).file() == sq.file(),
        pov_square(pov, sq).rank() == if pov == Color::White {
            sq.rank()
        } else {
            7 - sq.rank()
        },
        pov_square(pov, pov_square(pov, sq)) == sq,
{
    lemma_square_on(sq);
    let once = pov_square(pov, sq);
    if pov == Color::Black {
        Square::lemma_at(((7 - sq.rank()) * 8 + sq.file()) as nat);
        lemma_square_on(once);
    }
}

/// The mapper for chess: 21 input planes of eight by eight squares, and the
/// policy head of 73 planes.
#[derive(Debug, Copy, Clone)]
pub struct ChessStdMapper;

fn color_place(color: Color) -> (r: usize)
    ensures
        r == color_index(color),
{
    match color {
        Color::White => 0,
        Color::Black => 1,
    }
}

fn other_color(color: Color) -> (r: Color)
    ensures
        r == opponent(color),
{
    match color {
        Color::White => Color::Black,
        Color::Black => Color::White,
    }
}

fn piece_of_plane(i: usize) -> (r: Piece)
    requires
        i < 6,
    ensures
        r == plane_piece(i as int),
{
    match i {
        0 => Piece::Pawn,
        1 => Piece::Knight,
        2 => Piece::Bishop,
        3 => Piece::Rook,
        4 => Piece::Queen,
        _ => Piece::King,
    }
}

fn same_color(a: Color, b: Color) -> (r: bool)
    ensures
        r == (a == b),
{
    color_place(a) == color_place(b)
}

fn same_piece(a: Piece, b: Piece) -> (r: bool)
    ensures
        r == (a == b),
{
    match (a, b) {
        (Piece::Pawn, Piece::Pawn) => true,
        (Piece::Knight, Piece::Knight) => true,
        (Piece::Bishop, Piece::Bishop) => true,
        (Piece::Rook, Piece::Rook) => true,
        (Piece::Queen, Piece::Queen) => true,
        (Piece::King, Piece::King) => true,
        _ => false,
    }
}

fn bit(b: bool) -> (r: u32)
    ensures
        r == flag(b),
{
    if b {
        1
    } else {
        0
    }
}

impl ChessStdMapper {
    /// The shape of the input tensor of one board.
    pub fn input_shape(&self) -> (r: [usize; 3])
        ensures
            r@ == seq![21usize, 8, 8],
    {
        [INPUT_CHANNELS, 8, 8]
    }

    /// What plane `plane` holds at entry `cell`.
    fn entry(&self, board: &ChessPosition, plane: usize, cell: usize) -> (r: u32)
        requires
            plane < 21,
            cell < 64,
        ensures
            r == board.plane_entry(plane as int, cell as int),
    {
        let us = board.side_to_move;
        let index = match us {
            Color::White => cell,
            Color::Black => (7 - cell / 8) * 8 + cell % 8,
        };
        if plane < 12 {
            let color = if plane < 6 {
                us
            } else {
                other_color(us)
            };
            let piece = piece_of_plane(plane % 6);
            match board.squares[index] {
                Some(occupant) => bit(same_color(occupant.0, color) && same_piece(occupant.1, piece)),
                None => 0,
            }
        } else if plane == 12 {
            match board.en_passant {
                Some(sq) => bit(sq.to_index() == index),
                None => 0,
            }
        } else if plane == 13 {
            bit(board.castle_kingside[color_place(us)])
        } else if plane == 14 {
            bit(board.castle_queenside[color_place(us)])
        } else if plane == 15 {
            bit(board.castle_kingside[color_place(other_color(us))])
        } else if plane == 16 {
            bit(board.castle_queenside[color_place(other_color(us))])
        } else if plane == 17 {
            board.repetitions % 2
        } else if plane == 18 {
            board.repetitions / 2
        } else if plane == 19 {
            board.game_length
        } else {
            board.non_pawn_or_capture_moves
        }
    }

    /// Appends the input tensor of `board` to `result`, plane after plane and
    /// each plane row by row.
    pub fn append_board_to(&self, result: &mut Vec<u32>, board: &ChessPosition)
        ensures
            final(result)@ == old(result)@ + board.encoded(),
    {
        let ghost before = result@;
        let mut plane: usize = 0;
        while plane < 21
            invariant
                plane <= 21,
                result@.len() == before.len() + plane * 64,
                result@.subrange(0, before.len() as int) == before,
                forall|i: int|
                    0 <= i < plane * 64 ==> #[trigger] result@[before.len() + i] == board.plane_entry(
                        i / 64,
                        i % 64,
                    ),
            decreases 21 - plane,
        {
            let mut cell: usize = 0;
            while cell < 64
                invariant
                    plane < 21,
                    cell <= 64,
                    result@.len() == before.len() + plane * 64 + cell,
                    result@.subrange(0, before.len() as int) == before,
                    forall|i: int|
                        0 <= i < plane * 64 + cell ==> #[trigger] result@[before.len() + i]
                            == board.plane_entry(i / 64, i % 64),
                decreases 64 - cell,
            {
                let value = self.entry(board, plane, cell);
                let ghost prior = result@;
                result.push(value);
                assert(result@.subrange(0, before.len() as int) == prior.subrange(
                    0,
                    before.len() as int,
                ));
                assert forall|i: int| 0 <= i < plane * 64 + cell + 1 implies #[trigger] result@[before.len()
                    + i] == board.plane_entry(i / 64, i % 64) by {
                    if i < plane * 64 + cell {
                        assert(result@[before.len() + i] == prior[before.len() + i]);
                    } else {
                        assert(i / 64 == plane && i % 64 == cell);
                    }
                }
                cell += 1;
            }
            plane += 1;
        }
        assert forall|j: int| 0 <= j < result@.len() implies result@[j] == (before
            + board.encoded())[j] by {
            if j < before.len() {
                assert(result@.subrange(0, before.len() as int)[j] == before[j]);
            } else {
                let i = j - before.len();
                assert(result@[before.len() + i] == board.plane_entry(i / 64, i % 64));
            }
        }
        assert(result@ =~= before + board.encoded());
    }

    /// The slot of the policy head that stands for a move of this position;
    /// nothing for a move of a shape that the policy head has no plane for.
    pub fn move_to_index(&self, board: &ChessPosition, mv_abs: ChessMove) -> (r: Option<usize>)
        ensures
            r == if ClassifiedPovMove::classifiable(pov_move(board.side_to_move, mv_abs)) {
                Some(board.policy_index(mv_abs) as usize)
            } else {
                None
            },
            r is Some ==> board.policy_index(mv_abs) < POLICY_SIZE,
    {
        let mv = move_pov(board.side_to_move, mv_abs);
        if !is_classifiable(mv) {
            return None;
        }

        let classified = ClassifiedPovMove::from_move(mv);
        let channel = classified.to_channel();

        let from_index = mv.get_source().to_index();
        let index = channel * 8 * 8 + from_index;

        Some(index)
    }

    /// The move that a slot of the policy head stands for in this position,
    /// or nothing where the move of that slot would leave the board or the
    /// policy head has no such slot.
    pub fn index_to_move(&self, board: &ChessPosition, index: usize) -> (r: Option<ChessMove>)
        ensures
            r == if index < POLICY_SIZE {
                board.policy_move(index as nat)
            } else {
                None
            },
    {
        if index >= POLICY_SIZE {
            return None;
        }
        let channel = index / (8 * 8);
        let from_index = index % (8 * 8);

        let classified = ClassifiedPovMove::from_channel(channel);
        let from = square_from_index(from_index);
        proof {
            Square::lemma_at(from_index as nat);
            Square::lemma_ext(from, Square::at(from_index as nat));
        }

        let pov = board.side_to_move;
        let from_abs = square_pov(pov, from);
        let moving_pawn = match board.piece_on(from_abs) {
            Some(piece) => same_piece(piece, Piece::Pawn),
            None => false,
        };

        match classified.to_move(moving_pawn, from) {
            Some(mv_pov) => Some(move_pov(pov, mv_pov)),
            None => None,
        }
    }
}

/// Whether the policy head has a plane for a move of this shape.
pub fn is_classifiable(mv: ChessMove) -> (r: bool)
    ensures
        r == ClassifiedPovMove::classifiable(mv),
{
    let from = mv.get_source();
    let to = mv.get_dest();
    let dr: isize = (to.get_rank() as isize) - (from.get_rank() as isize);
    let df: isize = (to.get_file() as isize) - (from.get_file() as isize);
    let underpromotion = match mv.get_promotion() {
        Some(piece) => underpromotion_index(piece).is_some(),
        None => false,
    };
    let rank_reach: isize = if dr < 0 {
        -dr
    } else {
        dr
    };
    let file_reach: isize = if df < 0 {
        -df
    } else {
        df
    };
    let queen_line = (dr != 0 || df != 0) && (dr == 0 || df == 0 || rank_reach == file_reach);
    let knight_jump = (rank_reach == 2 && file_reach == 1) || (rank_reach == 1 && file_reach == 2);
    underpromotion || queen_line || knight_jump
}

impl PolicyMapper<ChessPosition, ChessMove> for ChessStdMapper {
    open spec fn spec_policy_len(&self) -> nat {
        4672
    }

    fn policy_shape(&self) -> (r: [usize; 3]) {
        let r: [usize; 3] = [POLICY_CHANNELS, 8, 8];
        assert(r@[0] == 73 && r@[1] == 8 && r@[2] == 8);
        r
    }

    fn policy_len(&self) -> (r: usize) {
        POLICY_SIZE
    }

    open spec fn spec_index(&self, board: ChessPosition, mv: ChessMove) -> Option<usize> {
        if ClassifiedPovMove::classifiable(pov_move(board.side_to_move, mv)) {
            Some(board.policy_index(mv) as usize)
        } else {
            None
        }
    }

    open spec fn spec_move(&self, board: ChessPosition, index: usize) -> Option<ChessMove> {
        if index < POLICY_SIZE {
            board.policy_move(index as nat)
        } else {
            None
        }
    }

    fn move_to_index(&self, board: &ChessPosition, mv: ChessMove) -> (r: Option<usize>) {
        ChessStdMapper::move_to_index(self, board, mv)
    }

    fn index_to_move(&self, board: &ChessPosition, index: usize) -> (r: Option<ChessMove>) {
        ChessStdMapper::index_to_move(self, board, index)
    }
}

} // verus!
