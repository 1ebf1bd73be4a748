//! Reading the lines of the ledger's file.

use vstd::prelude::*;
use vstd::string::*;
use vstd::utf8::is_ascii_chars;
use crate::difficulty::Difficulty;
use crate::score::{
    all_digits, decimal, digits_value, is_digit, names, parse_line_of, parse_secs_of, separator, Score,
};

verus! {

/// The bytes of a text of ASCII characters.
pub open spec fn ascii_bytes(s: Seq<char>) -> Seq<u8> {
    Seq::new(s.len(), |i: int| s[i] as u8)
}

/// The digits of a text, as far as they go, stand for no more than all of
/// them.
proof fn lemma_value_grows(s: Seq<char>, k: int)
    requires
        all_digits(s),
        0 <= k <= s.len(),
    ensures
        digits_value(s.take(k)) <= digits_value(s),
    decreases s.len() - k,
{
    if k == s.len() {
        assert(s.take(k) =~= s);
    } else {
        lemma_value_grows(s, k + 1);
        assert(s.take(k + 1).drop_last() =~= s.take(k));
        assert(is_digit(s[k]));
        assert(s.take(k + 1).last() == s[k]);
    }
}

/// The seconds that the bytes from `start` on stand for.
fn parse_secs(bytes: &[u8], start: usize, Ghost(s): Ghost<Seq<char>>) -> (secs: Option<u64>)
    requires
        is_ascii_chars(s),
        bytes@ == ascii_bytes(s),
        start <= bytes@.len(),
    ensures
        secs == parse_secs_of(s.skip(start as int)),
{
    let ghost text = s.skip(start as int);
    let mut at: usize = start;
    if at < bytes.len() && bytes[at] == 43 {
        assert(s[at as int] == '+');
        at = at + 1;
    } else if at < bytes.len() {
        assert(text[0] == s[at as int]);
        assert(text[0] != '+');
    }
    let ghost digits = s.skip(at as int);
    assert(digits == if text.len() > 0 && text[0] == '+' {
        text.skip(1)
    } else {
        text
    }) by {
        if text.len() > 0 {
            assert(text[0] == s[start as int]);
        }
        if at > start {
            assert(text.skip(1) =~= digits);
        }
    }
    if at == bytes.len() {
        return None;
    }
    let mut value: u64 = 0;
    let first = at;
    let ghost secs_start = start;
    assert(digits.take(0) =~= Seq::empty());
    while at < bytes.len()
        invariant
            is_ascii_chars(s),
            bytes@ == ascii_bytes(s),
            first <= at <= bytes@.len(),
            digits == s.skip(first as int),
            digits == (if text.len() > 0 && text[0] == '+' {
                text.skip(1)
            } else {
                text
            }),
            secs_start == start,
            text == s.skip(secs_start as int),
            all_digits(digits.take(at - first)),
            value == digits_value(digits.take(at - first)),
        decreases bytes@.len() - at,
    {
        let byte = bytes[at];
        assert(digits[at - first] == s[at as int]);
        if byte < 48 || byte > 57 {
            assert(!is_digit(digits[at - first]));
            return None;
        }
        let digit = (byte - 48) as u64;
        proof {
            let longer = digits.take(at - first + 1);
            assert(longer.drop_last() =~= digits.take(at - first));
            assert(longer.last() == s[at as int]);
            assert(digits_value(longer) == value * 10 + digit);
            assert forall|i: int| 0 <= i < longer.len() implies is_digit(#[trigger] longer[i]) by {
                if i < at - first {
                    assert(digits.take(at - first)[i] == longer[i]);
                }
            }
            if value > (u64::MAX - digit) / 10 {
                if all_digits(digits) {
                    lemma_value_grows(digits, at - first + 1);
                }
            }
        }
        if value > (u64::MAX - digit) / 10 {
            return None;
        }
        value = value * 10 + digit;
        at = at + 1;
    }
    assert(digits.take(at - first) =~= digits);
    Some(value)
}

/// Whether the bytes begin with the word.
fn begins_with(bytes: &[u8], word: &str, Ghost(s): Ghost<Seq<char>>) -> (yes: bool)
    requires
        is_ascii_chars(s),
        bytes@ == ascii_bytes(s),
        is_ascii_chars(word@),
    ensures
        yes == word@.is_prefix_of(s),
{
    let letters = word.as_bytes();
    proof {
        broadcast use is_ascii_spec_bytes;

        assert(is_ascii(word));
        assert(letters@ =~= ascii_bytes(word@));
    }
    if letters.len() > bytes.len() {
        return false;
    }
    let mut at: usize = 0;
    while at < letters.len()
        invariant
            at <= letters@.len() <= bytes@.len(),
            is_ascii_chars(s),
            is_ascii_chars(word@),
            bytes@ == ascii_bytes(s),
            letters@ == ascii_bytes(word@),
            forall|i: int| 0 <= i < at ==> word@[i] == s[i],
        decreases letters@.len() - at,
    {
        if letters[at] != bytes[at] {
            assert(word@[at as int] != s[at as int]);
            assert(s.subrange(0, word@.len() as int)[at as int] == s[at as int]);
            return false;
        }
        assert(word@[at as int] as int == s[at as int] as int);
        at = at + 1;
    }
    assert(word@ =~= s.subrange(0, word@.len() as int));
    true
}

/// A line that stands for a score holds ASCII characters only.
proof fn lemma_line_is_ascii(s: Seq<char>)
    requires
        parse_line_of(s) is Some,
    ensures
        is_ascii_chars(s),
{
    reveal_strlit("Easy");
    reveal_strlit("Medium");
    reveal_strlit("Hard");
    let d = parse_line_of(s).unwrap().difficulty;
    let head = d.label() + separator();
    assert(names(s, d));
    let rest = s.skip(d.label().len() as int + 2);
    assert(parse_secs_of(rest) is Some);
    let digits = if rest.len() > 0 && rest[0] == '+' {
        rest.skip(1)
    } else {
        rest
    };
    assert(all_digits(digits));
    assert forall|i: int| 0 <= i < s.len() implies '\0' <= #[trigger] s[i] <= '\u{7f}' by {
        if i < head.len() {
            assert(s.subrange(0, head.len() as int)[i] == s[i]);
            assert(s[i] == head[i]);
        } else {
            assert(rest[i - head.len()] == s[i]);
            if rest[0] == '+' {
                if i > head.len() {
                    assert(digits[i - head.len() - 1] == s[i]);
                    assert(is_digit(digits[i - head.len() - 1]));
                }
            } else {
                assert(is_digit(digits[i - head.len()]));
            }
        }
    }
}

/// The score that a line of the ledger's file stands for: the name of a
/// preset, a colon and a space, and the seconds in decimal digits. Nothing
/// for any other line.
pub fn parse_line(line: &str) -> (score: Option<Score>)
    ensures
        score == parse_line_of(line@),
{
    if !line.is_ascii() {
        proof {
            if parse_line_of(line@) is Some {
                lemma_line_is_ascii(line@);
            }
        }
        return None;
    }
    let bytes = line.as_bytes();
    proof {
        broadcast use is_ascii_spec_bytes;

        assert(bytes@ =~= ascii_bytes(line@));
        reveal_strlit("Easy");
        reveal_strlit("Medium");
        reveal_strlit("Hard");
        reveal_strlit("Easy: ");
        reveal_strlit("Medium: ");
        reveal_strlit("Hard: ");
        assert("Easy: "@ =~= Difficulty::Easy.label() + separator());
        assert("Medium: "@ =~= Difficulty::Medium.label() + separator());
        assert("Hard: "@ =~= Difficulty::Hard.label() + separator());
    }
    let (difficulty, start): (Difficulty, usize) = if begins_with(bytes, "Easy: ", Ghost(line@)) {
        (Difficulty::Easy, 6)
    } else if begins_with(bytes, "Medium: ", Ghost(line@)) {
        (Difficulty::Medium, 8)
    } else if begins_with(bytes, "Hard: ", Ghost(line@)) {
        (Difficulty::Hard, 6)
    } else {
        return None;
    };
    match parse_secs(bytes, start, Ghost(line@)) {
        Some(secs) => Some(Score::new(difficulty, secs)),
        None => None,
    }
}

/// The decimal digits of a number are digits, and they stand for the
/// number.
pub proof fn lemma_decimal(n: nat)
    ensures
        decimal(n).len() > 0,
        all_digits(decimal(n)),
        digits_value(decimal(n)) == n,
    decreases n,
{
    if n < 10 {
        let s = decimal(n);
        assert(s.drop_last() =~= Seq::empty());
        assert(digits_value(s.drop_last()) == 0);
    } else {
        lemma_decimal(n / 10);
        let s = decimal(n);
        assert(s.drop_last() =~= decimal(n / 10));
        assert forall|i: int| 0 <= i < s.len() implies is_digit(#[trigger] s[i]) by {
            if i < s.len() - 1 {
                assert(is_digit(decimal(n / 10)[i]));
            }
        }
    }
}

/// The line that stands for a score stands for that score, whatever the
/// score.
pub proof fn text_round_trip(score: Score)
    ensures
        parse_line_of(score.text()) == Some(score),
{
    reveal_strlit("Easy");
    reveal_strlit("Medium");
    reveal_strlit("Hard");
    let s = score.text();
    let d = score.difficulty;
    let head = d.label() + separator();
    let digits = decimal(score.secs as nat);
    lemma_decimal(score.secs as nat);
    assert(s =~= head + digits);
    assert(s.subrange(0, head.len() as int) =~= head);
    assert(names(s, d));
    assert(s.skip(d.label().len() as int + 2) =~= digits);
    assert(is_digit(digits[0]));
    match d {
        Difficulty::Easy => {},
        Difficulty::Medium => {
            let easy = Difficulty::Easy.label() + separator();
            assert(easy[0] == 'E' && s[0] == 'M');
            assert(s.subrange(0, easy.len() as int)[0] == s[0]);
        },
        Difficulty::Hard => {
            let easy = Difficulty::Easy.label() + separator();
            let medium = Difficulty::Medium.label() + separator();
            assert(easy[0] == 'E' && medium[0] == 'M' && s[0] == 'H');
            if medium.len() <= s.len() {
                assert(s.subrange(0, medium.len() as int)[0] == s[0]);
            }
            assert(s.subrange(0, easy.len() as int)[0] == s[0]);
        },
    }
}

} // verus!
