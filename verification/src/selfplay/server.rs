//! The games that a session can play, by their names.

use crate::text::{
    decimal_text, lemma_decimal_round_trip, number_value, parse_number, push_decimal, push_text,
    text_is, text_starts_with,
};
use vstd::prelude::*;

verus! {

/// A game, and what it needs beside its name.
#[derive(Debug, Copy, Clone, PartialEq, Eq, Structural)]
pub enum Game {
    TTT,
    STTT,
    Chess,
    ChessHist { length: usize },
    Ataxx { size: u8 },
}

/// The game that a name stands for: `ttt`, `sttt`, `chess`, `ataxx` for
/// the board of seven by seven, `ataxx-` and a size, or `chess-hist-` and a
/// length.
pub open spec fn spec_parse(name: Seq<char>) -> Option<Game> {
    if name == "ttt"@ {
        Some(Game::TTT)
    } else if name == "sttt"@ {
        Some(Game::STTT)
    } else if name == "chess"@ {
        Some(Game::Chess)
    } else if name == "ataxx"@ {
        Some(Game::Ataxx { size: 7 })
    } else if name.len() >= 6 && name.subrange(0, 6) == "ataxx-"@ {
        match number_value(name.subrange(6, name.len() as int), 255) {
            Some(size) => Some(Game::Ataxx { size: size as u8 }),
            None => None,
        }
    } else if name.len() >= 11 && name.subrange(0, 11) == "chess-hist-"@ {
        match number_value(name.subrange(11, name.len() as int), usize::MAX as nat) {
            Some(length) => Some(Game::ChessHist { length: length as usize }),
            None => None,
        }
    } else {
        None
    }
}

/// The name of a game; it says all there is to the game.
pub open spec fn spec_name(game: Game) -> Seq<char> {
    match game {
        Game::TTT => "ttt"@,
        Game::STTT => "sttt"@,
        Game::Chess => "chess"@,
        Game::ChessHist { length } => "chess-hist-"@ + decimal_text(length as nat),
        Game::Ataxx { size } => "ataxx-"@ + decimal_text(size as nat),
    }
}

proof fn lemma_words()
    ensures
        "ttt"@ == seq!['t', 't', 't'],
        "sttt"@ == seq!['s', 't', 't', 't'],
        "chess"@ == seq!['c', 'h', 'e', 's', 's'],
        "ataxx"@ == seq!['a', 't', 'a', 'x', 'x'],
        "ataxx-"@ == seq!['a', 't', 'a', 'x', 'x', '-'],
        "chess-hist-"@ == seq!['c', 'h', 'e', 's', 's', '-', 'h', 'i', 's', 't', '-'],
{
    reveal_strlit("ttt");
    reveal_strlit("sttt");
    reveal_strlit("chess");
    reveal_strlit("ataxx");
    reveal_strlit("ataxx-");
    reveal_strlit("chess-hist-");
    assert("ttt"@ =~= seq!['t', 't', 't']);
    assert("sttt"@ =~= seq!['s', 't', 't', 't']);
    assert("chess"@ =~= seq!['c', 'h', 'e', 's', 's']);
    assert("ataxx"@ =~= seq!['a', 't', 'a', 'x', 'x']);
    assert("ataxx-"@ =~= seq!['a', 't', 'a', 'x', 'x', '-']);
    assert("chess-hist-"@ =~= seq!['c', 'h', 'e', 's', 's', '-', 'h', 'i', 's', 't', '-']);
}

impl Game {
    /// The game with the given name, if there is one.
    pub fn parse(str: &str) -> (r: Option<Game>)
        ensures
            r == spec_parse(str@),
    {
        proof {
            lemma_words();
            assert(str@.subrange(0, str@.len() as int) =~= str@);
        }
        if text_is(str, 0, "ttt") {
            return Some(Game::TTT);
        }
        if text_is(str, 0, "sttt") {
            return Some(Game::STTT);
        }
        if text_is(str, 0, "chess") {
            return Some(Game::Chess);
        }
        if text_is(str, 0, "ataxx") {
            return Some(Game::Ataxx { size: 7 });
        }
        if text_starts_with(str, "ataxx-") {
            return match parse_number(str, 6, 255) {
                Some(size) => Some(Game::Ataxx { size: size as u8 }),
                None => None,
            };
        }
        if text_starts_with(str, "chess-hist-") {
            return match parse_number(str, 11, usize::MAX as u64) {
                Some(length) => Some(Game::ChessHist { length: length as usize }),
                None => None,
            };
        }
        None
    }

    /// The name of the game, from which [`Game::parse`] finds it again.
    pub fn name(&self) -> (r: String)
        ensures
            r@ == spec_name(*self),
    {
        let mut out = String::new();
        proof {
            assert(Seq::<char>::empty() + "ttt"@ =~= "ttt"@);
            assert(Seq::<char>::empty() + "sttt"@ =~= "sttt"@);
            assert(Seq::<char>::empty() + "chess"@ =~= "chess"@);
            assert(Seq::<char>::empty() + "chess-hist-"@ =~= "chess-hist-"@);
            assert(Seq::<char>::empty() + "ataxx-"@ =~= "ataxx-"@);
        }
        match self {
            Game::TTT => {
                push_text(&mut out, "ttt");
            },
            Game::STTT => {
                push_text(&mut out, "sttt");
            },
            Game::Chess => {
                push_text(&mut out, "chess");
            },
            Game::ChessHist { length } => {
                push_text(&mut out, "chess-hist-");
                push_decimal(&mut out, *length as u64);
            },
            Game::Ataxx { size } => {
                push_text(&mut out, "ataxx-");
                push_decimal(&mut out, *size as u64);
            },
        }
        out
    }

    /// A game is found again from its name.
    pub proof fn lemma_name_round_trip(self)
        ensures
            spec_parse(spec_name(self)) == Some(self),
    {
        lemma_words();
        let name = spec_name(self);
        match self {
            Game::TTT => {},
            Game::STTT => {},
            Game::Chess => {},
            Game::ChessHist { length } => {
                let digits = decimal_text(length as nat);
                lemma_decimal_round_trip(length as nat, usize::MAX as nat);
                assert(name.len() >= 12);
                assert(name[5] == '-');
                assert(name.subrange(0, 6) != "ataxx-"@) by {
                    assert(name.subrange(0, 6)[0] == 'c');
                }
                assert(name.subrange(0, 11) =~= "chess-hist-"@);
                assert(name.subrange(11, name.len() as int) =~= digits);
            },
            Game::Ataxx { size } => {
                let digits = decimal_text(size as nat);
                lemma_decimal_round_trip(size as nat, 255);
                assert(name.len() >= 7);
                assert(name[5] == '-');
                assert(name.subrange(0, 6) =~= "ataxx-"@);
                assert(name.subrange(6, name.len() as int) =~= digits);
            },
        }
    }
}

} // verus!
