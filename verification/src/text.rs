//! Texts: numbers in decimal, and splitting at a character.

use vstd::prelude::*;
use vstd::string::*;

verus! {

/// The digit of a number below ten.
pub open spec fn digit(n: nat) -> char {
    (('0' as nat) + n) as char
}

/// A number in decimal.
pub open spec fn digits(n: nat) -> Seq<char>
    decreases n,
{
    if n < 10 {
        seq![digit(n)]
    } else {
        digits(n / 10).push(digit(n % 10))
    }
}

/// A number in decimal, with a sign if it is negative.
pub open spec fn decimal(n: int) -> Seq<char> {
    if n < 0 {
        seq!['-'] + digits((-n) as nat)
    } else {
        digits(n as nat)
    }
}

/// The text of a number below ten.
fn digit_text(n: u32) -> (r: &'static str)
    requires
        n < 10,
    ensures
        r@ == seq![digit(n as nat)],
{
    proof {
        reveal_strlit("0");
        reveal_strlit("1");
        reveal_strlit("2");
        reveal_strlit("3");
        reveal_strlit("4");
        reveal_strlit("5");
        reveal_strlit("6");
        reveal_strlit("7");
        reveal_strlit("8");
        reveal_strlit("9");
    }
    let r: &'static str = match n {
        0 => "0",
        1 => "1",
        2 => "2",
        3 => "3",
        4 => "4",
        5 => "5",
        6 => "6",
        7 => "7",
        8 => "8",
        _ => "9",
    };
    assert(r@ =~= seq![digit(n as nat)]);
    r
}

/// Appends a number in decimal.
fn append_digits(text: &mut String, n: u32)
    ensures
        final(text)@ == old(text)@ + digits(n as nat),
    decreases n,
{
    if n >= 10 {
        append_digits(text, n / 10);
    }
    text.append(digit_text(n % 10));
    assert(text@ =~= old(text)@ + digits(n as nat));
}

/// Appends a number in decimal, with a sign if it is negative.
pub fn append_decimal(text: &mut String, n: i32)
    ensures
        final(text)@ == old(text)@ + decimal(n as int),
{
    if n < 0 {
        proof {
            reveal_strlit("-");
        }
        text.append("-");
        let magnitude: u32 = if n == i32::MIN {
            2147483648
        } else {
            (-n) as u32
        };
        append_digits(text, magnitude);
        assert(text@ =~= old(text)@ + decimal(n as int));
    } else {
        append_digits(text, n as u32);
    }
}

/// The position of the last `c` in a text.
pub open spec fn last_position(s: Seq<char>, c: char) -> Option<int>
    decreases s.len(),
{
    if s.len() == 0 {
        None
    } else if s.last() == c {
        Some(s.len() - 1)
    } else {
        last_position(s.drop_last(), c)
    }
}

/// What stands before and after the last `c` in a text, if there is one.
pub open spec fn split_last(s: Seq<char>, c: char) -> Option<(Seq<char>, Seq<char>)> {
    match last_position(s, c) {
        Some(i) => Some((s.take(i), s.skip(i + 1))),
        None => None,
    }
}

/// The position that is found is that of a `c` with none behind it.
proof fn lemma_last_position(s: Seq<char>, c: char)
    ensures
        match last_position(s, c) {
            Some(i) => 0 <= i < s.len() && s[i] == c && forall|j: int| i < j < s.len() ==> s[j] != c,
            None => !s.contains(c),
        },
    decreases s.len(),
{
    if s.len() > 0 && s.last() != c {
        let head = s.drop_last();
        lemma_last_position(head, c);
        if s.contains(c) {
            let k = choose|k: int| 0 <= k < s.len() && s[k] == c;
            assert(head[k] == c);
        }
        assert forall|j: int| 0 <= j < head.len() implies head[j] == s[j] by {}
    }
}

/// A text is what stands before the last `c`, that `c`, and what stands behind it, in which there
/// is no other.
pub proof fn law_split_last_joins(s: Seq<char>, c: char)
    ensures
        match split_last(s, c) {
            Some((before, after)) => s == before.push(c) + after && !after.contains(c),
            None => !s.contains(c),
        },
{
    lemma_last_position(s, c);
    if let Some(i) = last_position(s, c) {
        assert(s =~= s.take(i).push(c) + s.skip(i + 1));
    }
}

/// Splits a text at the last `c` in it.
pub fn rsplit_once(text: &str, c: char) -> (r: Option<(String, String)>)
    ensures
        match r {
            Some((before, after)) => split_last(text@, c) == Some((before@, after@)),
            None => split_last(text@, c) is None,
        },
{
    let length: usize = text.unicode_len();
    let mut end: usize = length;
    assert(text@.take(end as int) =~= text@);
    while end > 0
        invariant
            end <= length,
            length == text@.len(),
            last_position(text@, c) == last_position(text@.take(end as int), c),
        decreases end,
    {
        let ghost head = text@.take(end as int);
        if text.get_char(end - 1) == c {
            assert(head.last() == c);
            return Some(
                (
                    text.substring_char(0, end - 1).to_owned(),
                    text.substring_char(end, length).to_owned(),
                ),
            );
        }
        assert(head.drop_last() =~= text@.take(end - 1));
        end -= 1;
    }
    assert(text@.take(0).len() == 0);
    None
}

/// A text that is put together of two with a `c` between them comes apart there, where there is no
/// `c` in the second.
pub proof fn law_split_last_takes_apart_what_was_joined(before: Seq<char>, c: char, after: Seq<char>)
    requires
        !after.contains(c),
    ensures
        split_last(before + seq![c] + after, c) == Some((before, after)),
{
    let s = before + seq![c] + after;
    lemma_last_position(s, c);
    assert(s[before.len() as int] == c);
    match last_position(s, c) {
        Some(i) => {
            if i > before.len() {
                assert(after[i - before.len() - 1] == c);
            } else if i < before.len() {
                assert(s[before.len() as int] != c);
            }
            assert(s.take(i) =~= before);
            assert(s.skip(i + 1) =~= after);
        },
        None => {
            assert(s.contains(c));
        },
    }
}

/// A text without a `c` does not come apart.
pub proof fn law_split_last_leaves_other_texts(s: Seq<char>, c: char)
    requires
        !s.contains(c),
    ensures
        split_last(s, c) is None,
{
    lemma_last_position(s, c);
}

/// The number that digits stand for, each for ten times less than the one before.
pub open spec fn number_of(s: Seq<char>) -> int
    decreases s.len(),
{
    if s.len() == 0 {
        0
    } else {
        10 * number_of(s.drop_last()) + (s.last() as int - '0' as int)
    }
}

/// A number is written in digits that stand for it, the first of which is zero only where it is the
/// only one.
pub proof fn law_digits_stand_for_their_number(n: nat)
    ensures
        digits(n).len() > 0,
        forall|i: int| 0 <= i < digits(n).len() ==> '0' <= #[trigger] digits(n)[i] <= '9',
        number_of(digits(n)) == n,
        digits(n).len() > 1 ==> digits(n)[0] != '0',
    decreases n,
{
    if n < 10 {
        assert(digits(n).drop_last() =~= Seq::<char>::empty());
        assert(number_of(digits(n).drop_last()) == 0);
    } else {
        let head = digits(n / 10);
        law_digits_stand_for_their_number(n / 10);
        assert(digits(n) == head.push(digit(n % 10)));
        assert(digits(n).drop_last() =~= head);
        if head.len() == 1 {
            assert(head.drop_last() =~= Seq::<char>::empty());
            assert(number_of(head) == head[0] as int - '0' as int) by {
                assert(number_of(head.drop_last()) == 0);
            }
        }
    }
}

/// A number is written in digits that stand for it, behind a sign where it is negative.
pub proof fn law_decimals_stand_for_their_number(n: int)
    ensures
        n >= 0 ==> decimal(n).len() > 0 && number_of(decimal(n)) == n && forall|i: int|
            0 <= i < decimal(n).len() ==> '0' <= #[trigger] decimal(n)[i] <= '9',
        n < 0 ==> decimal(n).len() > 1 && decimal(n)[0] == '-' && number_of(decimal(n).skip(1)) == -n
            && forall|i: int|
            1 <= i < decimal(n).len() ==> '0' <= #[trigger] decimal(n)[i] <= '9',
{
    if n < 0 {
        law_digits_stand_for_their_number((-n) as nat);
        assert(decimal(n).skip(1) =~= digits((-n) as nat));
    } else {
        law_digits_stand_for_their_number(n as nat);
    }
}

} // verus!
