//! Escapes in a text that stands for bytes.

use vstd::prelude::*;
use vstd::string::*;

verus! {

/// The number of bytes that a character takes in UTF-8.
pub open spec fn width(c: char) -> nat {
    if (c as u32) < 0x80 {
        1
    } else if (c as u32) < 0x800 {
        2
    } else if (c as u32) < 0x10000 {
        3
    } else {
        4
    }
}

/// Whether a character behind a backslash is an escape by itself.
pub open spec fn is_simple(c: char) -> bool {
    c == 'a' || c == 'b' || c == 'f' || c == 'n' || c == 'r' || c == 't' || c == 'v' || c == '\\'
        || c == '?' || c == '\'' || c == '"'
}

pub open spec fn is_octal(c: char) -> bool {
    '0' <= c <= '7'
}

pub open spec fn is_hex(c: char) -> bool {
    '0' <= c <= '9' || 'a' <= c <= 'f' || 'A' <= c <= 'F'
}

/// The number of octal digits that a text starts with, three at most.
pub open spec fn octal_run(s: Seq<char>) -> int {
    if s.len() == 0 || !is_octal(s[0]) {
        0
    } else if s.len() == 1 || !is_octal(s[1]) {
        1
    } else if s.len() == 2 || !is_octal(s[2]) {
        2
    } else {
        3
    }
}

/// Whether two characters are read as a number in hexadecimal. The first can be a sign.
pub open spec fn is_hex_pair(a: char, b: char) -> bool {
    (is_hex(a) || a == '+') && is_hex(b)
}

/// Whether the escapes of a text can be read through, up to the end or to the first that is no
/// escape: no octal number is above that of a byte, and the two bytes behind an `x` are whole
/// characters.
pub open spec fn unescapes(s: Seq<char>) -> bool
    decreases s.len(),
{
    if s.len() == 0 {
        true
    } else if s[0] != '\\' {
        unescapes(s.skip(1))
    } else if s.len() == 1 {
        true
    } else if is_simple(s[1]) {
        unescapes(s.skip(2))
    } else if is_octal(s[1]) {
        let run = octal_run(s.skip(1));
        !(run == 3 && s[1] > '3') && unescapes(s.skip(1 + run))
    } else if s[1] == 'x' || s[1] == 'X' {
        if s.len() == 2 {
            true
        } else if width(s[2]) != 1 {
            width(s[2]) == 2
        } else if s.len() == 3 {
            true
        } else if width(s[3]) != 1 {
            false
        } else {
            is_hex_pair(s[2], s[3]) ==> unescapes(s.skip(4))
        }
    } else {
        true
    }
}

fn simple(c: char) -> (r: bool)
    ensures
        r == is_simple(c),
{
    c == 'a' || c == 'b' || c == 'f' || c == 'n' || c == 'r' || c == 't' || c == 'v' || c == '\\'
        || c == '?' || c == '\'' || c == '"'
}

fn octal(c: char) -> (r: bool)
    ensures
        r == is_octal(c),
{
    '0' <= c && c <= '7'
}

fn hex(c: char) -> (r: bool)
    ensures
        r == is_hex(c),
{
    ('0' <= c && c <= '9') || ('a' <= c && c <= 'f') || ('A' <= c && c <= 'F')
}

/// Whether the escapes of a text can be read through.
pub fn check_escapes(text: &str) -> (r: bool)
    ensures
        r == unescapes(text@),
{
    let length: usize = text.unicode_len();
    let ghost s = text@;
    let mut i: usize = 0;
    assert(s.skip(0) =~= s);
    while i < length
        invariant
            i <= length,
            length == s.len(),
            s == text@,
            unescapes(s) == unescapes(s.skip(i as int)),
        decreases length - i,
    {
        let ghost rest = s.skip(i as int);
        if text.get_char(i) != '\\' {
            assert(rest.skip(1) =~= s.skip(i + 1));
            i += 1;
            continue;
        }
        if length - i == 1 {
            return true;
        }
        let c: char = text.get_char(i + 1);
        assert(rest[1] == c);
        if simple(c) {
            assert(rest.skip(2) =~= s.skip(i + 2));
            i += 2;
        } else if octal(c) {
            let mut run: usize = 1;
            if length - i > 2 && octal(text.get_char(i + 2)) {
                run = 2;
                if length - i > 3 && octal(text.get_char(i + 3)) {
                    run = 3;
                }
            }
            assert(run == octal_run(rest.skip(1)));
            if run == 3 && c > '3' {
                return false;
            }
            assert(rest.skip(1 + run as int) =~= s.skip(i + 1 + run as int));
            i += 1 + run;
        } else if c == 'x' || c == 'X' {
            if length - i == 2 {
                return true;
            }
            let first: char = text.get_char(i + 2);
            assert(rest[2] == first);
            if first as u32 >= 0x80 {
                return (first as u32) < 0x800;
            }
            if length - i == 3 {
                return true;
            }
            let second: char = text.get_char(i + 3);
            assert(rest[3] == second);
            if second as u32 >= 0x80 {
                return false;
            }
            if !((hex(first) || first == '+') && hex(second)) {
                return true;
            }
            assert(rest.skip(4) =~= s.skip(i + 4));
            i += 4;
        } else {
            return true;
        }
    }
    true
}

/// What stands before the first backslash does not matter.
pub proof fn law_other_characters_are_read_as_they_are(before: Seq<char>, rest: Seq<char>)
    requires
        forall|i: int| 0 <= i < before.len() ==> #[trigger] before[i] != '\\',
    ensures
        unescapes(before + rest) == unescapes(rest),
        unescapes(before),
    decreases before.len(),
{
    if before.len() == 0 {
        assert(before + rest =~= rest);
    } else {
        let tail = before.skip(1);
        assert((before + rest).skip(1) =~= tail + rest);
        law_other_characters_are_read_as_they_are(tail, rest);
    }
}

/// An escape of one character is read, and all that stands behind it.
pub proof fn law_simple_escapes_are_read(c: char, rest: Seq<char>)
    requires
        c == 'a' || c == 'b' || c == 'f' || c == 'n' || c == 'r' || c == 't' || c == 'v' || c
            == '\\' || c == '?' || c == '\'' || c == '"',
    ensures
        unescapes(seq!['\\', c] + rest) == unescapes(rest),
{
    assert((seq!['\\', c] + rest).skip(2) =~= rest);
}

/// A number of three octal digits is read exactly if it is one of a byte; one of fewer digits always
/// is.
pub proof fn law_octal_numbers_of_bytes_are_read(a: char, b: char, c: char, rest: Seq<char>)
    requires
        '0' <= a <= '7',
        '0' <= b <= '7',
        '0' <= c <= '7',
    ensures
        unescapes(seq!['\\', a, b, c] + rest) <==> 64 * (a as int - 48) + 8 * (b as int - 48) + (
        c as int - 48) <= 255 && unescapes(rest),
        rest.len() == 0 || !('0' <= rest[0] <= '7') ==> unescapes(seq!['\\', a, b] + rest)
            == unescapes(rest) && unescapes(seq!['\\', a] + rest) == unescapes(rest),
{
    let three = seq!['\\', a, b, c] + rest;
    assert(three.skip(4) =~= rest);
    assert(three.skip(1)[0] == a && three.skip(1)[1] == b && three.skip(1)[2] == c);
    assert(octal_run(three.skip(1)) == 3);
    assert(a > '3' <==> 64 * (a as int - 48) + 8 * (b as int - 48) + (c as int - 48) > 255);
    if rest.len() == 0 || !('0' <= rest[0] <= '7') {
        let two = seq!['\\', a, b] + rest;
        assert(two.skip(3) =~= rest);
        assert(two.skip(1)[0] == a && two.skip(1)[1] == b);
        assert(rest.len() > 0 ==> two.skip(1)[2] == rest[0]);
        assert(octal_run(two.skip(1)) == 2);
        let one = seq!['\\', a] + rest;
        assert(one.skip(2) =~= rest);
        assert(one.skip(1)[0] == a);
        assert(rest.len() > 0 ==> one.skip(1)[1] == rest[0]);
        assert(octal_run(one.skip(1)) == 1);
    }
}

/// A number of two hexadecimal digits is read, and all that stands behind it; a sign can stand in
/// place of the first.
pub proof fn law_hexadecimal_numbers_are_read(x: char, a: char, b: char, rest: Seq<char>)
    requires
        x == 'x' || x == 'X',
        '0' <= a <= '9' || 'a' <= a <= 'f' || 'A' <= a <= 'F' || a == '+',
        '0' <= b <= '9' || 'a' <= b <= 'f' || 'A' <= b <= 'F',
    ensures
        unescapes(seq!['\\', x, a, b] + rest) == unescapes(rest),
{
    assert((seq!['\\', x, a, b] + rest).skip(4) =~= rest);
}

/// Nothing is read behind a backslash that starts no escape.
pub proof fn law_nothing_is_read_behind_what_is_no_escape(c: char, rest: Seq<char>)
    requires
        c != 'a' && c != 'b' && c != 'f' && c != 'n' && c != 'r' && c != 't' && c != 'v' && c
            != '\\' && c != '?' && c != '\'' && c != '"',
        !('0' <= c <= '7'),
        c != 'x' && c != 'X',
    ensures
        unescapes(seq!['\\', c] + rest),
        unescapes(seq!['\\']),
{
}

/// The two bytes behind an `x` must be whole characters.
pub proof fn law_the_bytes_of_a_number_are_whole_characters(
    x: char,
    a: char,
    b: char,
    rest: Seq<char>,
)
    requires
        x == 'x' || x == 'X',
    ensures
        unescapes(seq!['\\', x]),
        a as u32 >= 0x800 ==> !unescapes(seq!['\\', x, a] + rest),
        0x80 <= a as u32 && (a as u32) < 0x800 ==> unescapes(seq!['\\', x, a] + rest),
        (a as u32) < 0x80 ==> unescapes(seq!['\\', x, a]),
        (a as u32) < 0x80 && b as u32 >= 0x80 ==> !unescapes(seq!['\\', x, a, b] + rest),
        (a as u32) < 0x80 && (b as u32) < 0x80 && !('0' <= b <= '9' || 'a' <= b <= 'f' || 'A' <= b
            <= 'F') ==> unescapes(seq!['\\', x, a, b] + rest),
{
    assert((seq!['\\', x, a] + rest)[2] == a);
    assert((seq!['\\', x, a, b] + rest)[3] == b);
}

} // verus!
