//! The fixed telephone keypad table: each digit '2'..='9' stands for a small
//! group of lowercase letters, while '0' and '1' stand for none.

use vstd::prelude::*;

verus! {

/// The letters a keypad digit may represent, in their fixed order.
/// Characters other than '0'..='9' are given no letters.
pub open spec fn t9_spec(digit: char) -> Seq<char> {
    if digit == '2' {
        seq!['a', 'b', 'c']
    } else if digit == '3' {
        seq!['d', 'e', 'f']
    } else if digit == '4' {
        seq!['g', 'h', 'i']
    } else if digit == '5' {
        seq!['j', 'k', 'l']
    } else if digit == '6' {
        seq!['m', 'n', 'o']
    } else if digit == '7' {
        seq!['p', 'q', 'r', 's']
    } else if digit == '8' {
        seq!['t', 'u', 'v']
    } else if digit == '9' {
        seq!['w', 'x', 'y', 'z']
    } else {
        Seq::empty()
    }
}

/// The digit a keypad letter maps back to; characters outside the keypad
/// alphabet (the space separator among them) map to no digit and yield ' '.
pub open spec fn digit_of(c: char) -> char {
    if c == 'a' || c == 'b' || c == 'c' {
        '2'
    } else if c == 'd' || c == 'e' || c == 'f' {
        '3'
    } else if c == 'g' || c == 'h' || c == 'i' {
        '4'
    } else if c == 'j' || c == 'k' || c == 'l' {
        '5'
    } else if c == 'm' || c == 'n' || c == 'o' {
        '6'
    } else if c == 'p' || c == 'q' || c == 'r' || c == 's' {
        '7'
    } else if c == 't' || c == 'u' || c == 'v' {
        '8'
    } else if c == 'w' || c == 'x' || c == 'y' || c == 'z' {
        '9'
    } else {
        ' '
    }
}

/// Each letter in a digit's group maps back to that digit, and a digit's
/// group never holds the space separator.
pub proof fn lemma_t9_letter(digit: char, c: char)
    requires
        '0' <= digit <= '9',
        t9_spec(digit).contains(c),
    ensures
        digit_of(c) == digit,
        c != ' ',
{
    let i = choose|i: int| 0 <= i < t9_spec(digit).len() && t9_spec(digit)[i] == c;
    assert(0 <= i < t9_spec(digit).len() && t9_spec(digit)[i] == c);
}

/// A character whose mapped digit is a keypad digit belongs to that digit's
/// letter group, and is no space.
pub proof fn lemma_letter_group(c: char)
    requires
        '2' <= digit_of(c) <= '9',
    ensures
        t9_spec(digit_of(c)).contains(c),
        c != ' ',
{
    if digit_of(c) == '2' {
        assert(t9_spec('2')[0] == 'a' && t9_spec('2')[1] == 'b' && t9_spec('2')[2] == 'c');
        assert(t9_spec('2').contains(c));
    } else if digit_of(c) == '3' {
        assert(t9_spec('3')[0] == 'd' && t9_spec('3')[1] == 'e' && t9_spec('3')[2] == 'f');
        assert(t9_spec('3').contains(c));
    } else if digit_of(c) == '4' {
        assert(t9_spec('4')[0] == 'g' && t9_spec('4')[1] == 'h' && t9_spec('4')[2] == 'i');
        assert(t9_spec('4').contains(c));
    } else if digit_of(c) == '5' {
        assert(t9_spec('5')[0] == 'j' && t9_spec('5')[1] == 'k' && t9_spec('5')[2] == 'l');
        assert(t9_spec('5').contains(c));
    } else if digit_of(c) == '6' {
        assert(t9_spec('6')[0] == 'm' && t9_spec('6')[1] == 'n' && t9_spec('6')[2] == 'o');
        assert(t9_spec('6').contains(c));
    } else if digit_of(c) == '7' {
        assert(t9_spec('7')[0] == 'p' && t9_spec('7')[1] == 'q' && t9_spec('7')[2] == 'r'
            && t9_spec('7')[3] == 's');
        assert(t9_spec('7').contains(c));
    } else if digit_of(c) == '8' {
        assert(t9_spec('8')[0] == 't' && t9_spec('8')[1] == 'u' && t9_spec('8')[2] == 'v');
        assert(t9_spec('8').contains(c));
    } else {
        assert(t9_spec('9')[0] == 'w' && t9_spec('9')[1] == 'x' && t9_spec('9')[2] == 'y'
            && t9_spec('9')[3] == 'z');
        assert(t9_spec('9').contains(c));
    }
}

/// The candidate letters for one keypad digit, in their fixed order.
pub fn t9_letters(digit: char) -> (letters: Vec<char>)
    requires
        '0' <= digit <= '9',
    ensures
        letters@ == t9_spec(digit),
{
    let letters: Vec<char> = match digit {
        '2' => vec!['a', 'b', 'c'],
        '3' => vec!['d', 'e', 'f'],
        '4' => vec!['g', 'h', 'i'],
        '5' => vec!['j', 'k', 'l'],
        '6' => vec!['m', 'n', 'o'],
        '7' => vec!['p', 'q', 'r', 's'],
        '8' => vec!['t', 'u', 'v'],
        '9' => vec!['w', 'x', 'y', 'z'],
        _ => Vec::new(),
    };
    proof {
        assert(letters@ =~= t9_spec(digit));
    }
    letters
}

} // verus!
