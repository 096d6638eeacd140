//! The word-chain game: each word must begin with the last character of the
//! word before it, and a word that ends in the closing character loses.

use vstd::prelude::*;

verus! {

/// The character that ends the game when a word closes with it.
pub open spec fn closing_char() -> char {
    '\u{3093}'
}

/// What the game does with a word.
#[derive(Debug, Copy, Clone, PartialEq, Eq, Structural)]
pub enum Verdict {
    /// The word does not begin with the expected character; it holds the
    /// character that the word began with, and the same character is asked
    /// for again.
    WrongStart(char),
    /// The word ends in the closing character: the game is over.
    GameOver,
    /// The word is accepted; the next word must begin with this character.
    Next(char),
}

pub open spec fn verdict_of(text: Seq<char>, word: char) -> Verdict {
    if text[0] != word {
        Verdict::WrongStart(text[0])
    } else if text[text.len() - 1] == closing_char() {
        Verdict::GameOver
    } else {
        Verdict::Next(text[text.len() - 1])
    }
}

/// Judges a word that is not empty against the character it must begin
/// with.
pub fn judgment(text: &Vec<char>, word: char) -> (v: Verdict)
    requires
        text.len() > 0,
    ensures
        v == verdict_of(text@, word),
{
    let len: usize = text.len();
    if text[0] != word {
        return Verdict::WrongStart(text[0]);
    }
    if text[len - 1] == '\u{3093}' {
        return Verdict::GameOver;
    }
    Verdict::Next(text[len - 1])
}

} // verus!
