//! The request shapes the transport layer hands to the engine, and the
//! difficulty-string validation the engine performs for it.

use vstd::prelude::*;

use crate::minesweeper::Difficulty;

verus! {

/// Payload of a new-game request: the difficulty as a lowercase string.
pub struct NewGameRequest {
    pub difficulty: String,
}

/// Payload of a reveal or flag request: a cell coordinate.
pub struct CellRequest {
    pub row: usize,
    pub col: usize,
}

/// Validates a difficulty string. Exactly `"easy"`, `"medium"` and `"hard"`
/// are accepted; every other string is rejected with `None`, which the
/// caller maps to its transport's invalid-difficulty error.
pub fn parse_difficulty(s: &str) -> (r: Option<Difficulty>)
    ensures
        r == Some(Difficulty::Easy) <==> s@ == "easy"@,
        r == Some(Difficulty::Medium) <==> s@ == "medium"@,
        r == Some(Difficulty::Hard) <==> s@ == "hard"@,
        r is None <==> (s@ != "easy"@ && s@ != "medium"@ && s@ != "hard"@),
{
    proof {
        reveal_strlit("easy");
        reveal_strlit("medium");
        reveal_strlit("hard");
        assert("easy"@.len() == 4);
        assert("medium"@.len() == 6);
        assert("hard"@.len() == 4);
        assert("easy"@[0] == 'e' && "hard"@[0] == 'h');
        assert("easy"@ != "medium"@);
        assert("easy"@ != "hard"@);
        assert("medium"@ != "hard"@);
    }
    let owned: String = s.to_owned();
    let easy: String = "easy".to_owned();
    let medium: String = "medium".to_owned();
    let hard: String = "hard".to_owned();
    if owned == easy {
        Some(Difficulty::Easy)
    } else if owned == medium {
        Some(Difficulty::Medium)
    } else if owned == hard {
        Some(Difficulty::Hard)
    } else {
        None
    }
}

} // verus!
