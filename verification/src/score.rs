//! A best time, and the line of text that stands for it in the ledger's
//! file: the name of the preset, a colon and a space, and the seconds in
//! decimal digits.

use vstd::prelude::*;
use vstd::string::*;
use crate::difficulty::Difficulty;

verus! {

/// The time in which a game of a preset was won, in whole seconds.
#[derive(Clone, Copy, PartialEq, Eq, Hash, Debug, Structural)]
pub struct Score {
    pub difficulty: Difficulty,
    pub secs: u64,
}

/// The character of a decimal digit.
pub open spec fn digit_char(d: int) -> char {
    if d == 0 {
        '0'
    } else if d == 1 {
        '1'
    } else if d == 2 {
        '2'
    } else if d == 3 {
        '3'
    } else if d == 4 {
        '4'
    } else if d == 5 {
        '5'
    } else if d == 6 {
        '6'
    } else if d == 7 {
        '7'
    } else if d == 8 {
        '8'
    } else {
        '9'
    }
}

/// The character is a decimal digit.
pub open spec fn is_digit(c: char) -> bool {
    '0' <= c <= '9'
}

/// The number in decimal digits, without leading zeros.
pub open spec fn decimal(n: nat) -> Seq<char>
    decreases n,
{
    if n < 10 {
        seq![digit_char(n as int)]
    } else {
        decimal(n / 10).push(digit_char((n % 10) as int))
    }
}

/// The number that a sequence of decimal digits stands for.
pub open spec fn digits_value(s: Seq<char>) -> nat
    decreases s.len(),
{
    if s.len() == 0 {
        0
    } else {
        (digits_value(s.drop_last()) * 10 + (s.last() as int - '0' as int)) as nat
    }
}

/// Every character of the sequence is a decimal digit.
pub open spec fn all_digits(s: Seq<char>) -> bool {
    forall|i: int| 0 <= i < s.len() ==> is_digit(#[trigger] s[i])
}

/// The seconds that a text stands for: one or more decimal digits, with a
/// plus sign before them or without, whose number fits 64 bits; nothing
/// for any other text.
pub open spec fn parse_secs_of(s: Seq<char>) -> Option<u64> {
    let digits = if s.len() > 0 && s[0] == '+' {
        s.skip(1)
    } else {
        s
    };
    if digits.len() > 0 && all_digits(digits) && digits_value(digits) <= u64::MAX {
        Some(digits_value(digits) as u64)
    } else {
        None
    }
}

/// What stands between the name and the seconds.
pub open spec fn separator() -> Seq<char> {
    seq![':', ' ']
}

/// The text begins with the name of the preset and the separator.
pub open spec fn names(s: Seq<char>, difficulty: Difficulty) -> bool {
    (difficulty.label() + separator()).is_prefix_of(s)
}

/// The score that a line stands for; nothing for a line that is not the
/// name of a preset, the separator, and seconds.
pub open spec fn parse_line_of(s: Seq<char>) -> Option<Score> {
    let difficulty = if names(s, Difficulty::Easy) {
        Some(Difficulty::Easy)
    } else if names(s, Difficulty::Medium) {
        Some(Difficulty::Medium)
    } else if names(s, Difficulty::Hard) {
        Some(Difficulty::Hard)
    } else {
        None
    };
    match difficulty {
        Some(d) => match parse_secs_of(s.skip(d.label().len() as int + 2)) {
            Some(secs) => Some(Score { difficulty: d, secs }),
            None => None,
        },
        None => None,
    }
}

impl Score {
    /// The line that stands for the score.
    pub open spec fn text(self) -> Seq<char> {
        self.difficulty.label() + separator() + decimal(self.secs as nat)
    }

    pub fn new(difficulty: Difficulty, secs: u64) -> (score: Score)
        ensures
            score == (Score { difficulty, secs }),
    {
        Score { difficulty, secs }
    }

    /// The time in whole seconds.
    pub fn time(&self) -> (secs: u64)
        ensures
            secs == self.secs,
    {
        self.secs
    }

    pub fn difficulty(&self) -> (difficulty: Difficulty)
        ensures
            difficulty == self.difficulty,
    {
        self.difficulty
    }

    pub fn as_string(&self) -> (line: String)
        ensures
            line@ == self.text(),
    {
        let mut line = String::from_str(self.difficulty.as_static_str());
        line.append(": ");
        proof {
            reveal_strlit(": ");
            assert(": "@ =~= separator());
        }
        push_decimal(&mut line, self.secs);
        assert(line@ =~= self.text());
        line
    }
}

/// The text of one decimal digit.
fn digit_str(d: u64) -> (text: &'static str)
    requires
        d < 10,
    ensures
        text@ == seq![digit_char(d as int)],
{
    proof {
        reveal_strlit("0");
        reveal_strlit("1");
        reveal_strlit("2");
        reveal_strlit("3");
        reveal_strlit("4");
        reveal_strlit("5");
        reveal_strlit("6");
        reveal_strlit("7");
        reveal_strlit("8");
        reveal_strlit("9");
    }
    let text = match d {
        0 => "0",
        1 => "1",
        2 => "2",
        3 => "3",
        4 => "4",
        5 => "5",
        6 => "6",
        7 => "7",
        8 => "8",
        _ => "9",
    };
    assert(text@ =~= seq![digit_char(d as int)]);
    text
}

/// Appends the number in decimal digits.
pub fn push_decimal(text: &mut String, n: u64)
    ensures
        final(text)@ == old(text)@ + decimal(n as nat),
    decreases n,
{
    if n >= 10 {
        push_decimal(text, n / 10);
    }
    text.append(digit_str(n % 10));
    assert(text@ =~= old(text)@ + decimal(n as nat));
}

} // verus!
