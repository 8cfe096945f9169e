//! Numbers in messages.
use vstd::prelude::*;
use vstd::string::*;

verus! {

/// The character of a decimal digit.
pub open spec fn digit(d: nat) -> char {
    if d == 0 {
        '0'
    } else if d == 1 {
        '1'
    } else if d == 2 {
        '2'
    } else if d == 3 {
        '3'
    } else if d == 4 {
        '4'
    } else if d == 5 {
        '5'
    } else if d == 6 {
        '6'
    } else if d == 7 {
        '7'
    } else if d == 8 {
        '8'
    } else {
        '9'
    }
}

/// A number in decimal notation.
pub open spec fn decimal(n: nat) -> Seq<char>
    decreases n,
{
    if n < 10 {
        seq![digit(n)]
    } else {
        decimal(n / 10).push(digit(n % 10))
    }
}

/// A number between two pieces of text.
pub open spec fn phrase(before: Seq<char>, n: nat, after: Seq<char>) -> Seq<char> {
    before + decimal(n) + after
}

/// The text of a decimal digit.
fn digit_text(d: u64) -> (text: &'static str)
    requires
        d < 10,
    ensures
        text@ == seq![digit(d as nat)],
{
    proof {
        reveal_strlit("0");
        reveal_strlit("1");
        reveal_strlit("2");
        reveal_strlit("3");
        reveal_strlit("4");
        reveal_strlit("5");
        reveal_strlit("6");
        reveal_strlit("7");
        reveal_strlit("8");
        reveal_strlit("9");
    }
    let text: &'static str = if d == 0 {
        "0"
    } else if d == 1 {
        "1"
    } else if d == 2 {
        "2"
    } else if d == 3 {
        "3"
    } else if d == 4 {
        "4"
    } else if d == 5 {
        "5"
    } else if d == 6 {
        "6"
    } else if d == 7 {
        "7"
    } else if d == 8 {
        "8"
    } else {
        "9"
    };
    assert(text@ =~= seq![digit(d as nat)]);
    text
}

/// Appends a number in decimal notation.
pub fn append_decimal(text: &mut String, n: u64)
    ensures
        final(text)@ == old(text)@ + decimal(n as nat),
    decreases n,
{
    if n >= 10 {
        append_decimal(text, n / 10);
    }
    text.append(digit_text(n % 10));
    assert(text@ =~= old(text)@ + decimal(n as nat));
}

/// Puts a number between two pieces of text.
pub fn compose(before: &str, n: u64, after: &str) -> (text: String)
    ensures
        text@ == phrase(before@, n as nat, after@),
{
    let mut text: String = String::from_str(before);
    append_decimal(&mut text, n);
    text.append(after);
    text
}

/// The number that a row of digits stands for.
pub open spec fn number(s: Seq<char>) -> int
    decreases s.len(),
{
    if s.len() == 0 {
        0
    } else {
        10 * number(s.drop_last()) + (s.last() as u32 - 48)
    }
}

/// The text of a number is a row of decimal digits that stands for the number, without a leading zero
/// unless it is a single digit.
pub proof fn law_decimal_stands_for_its_number(n: nat)
    ensures
        decimal(n).len() > 0,
        forall|i: int| 0 <= i < decimal(n).len() ==> '0' <= #[trigger] decimal(n)[i] <= '9',
        number(decimal(n)) == n,
        decimal(n).len() > 1 ==> decimal(n)[0] != '0',
    decreases n,
{
    reveal_with_fuel(number, 2);
    if n >= 10 {
        law_decimal_stands_for_its_number(n / 10);
        assert(decimal(n).drop_last() =~= decimal(n / 10));
        if n < 100 {
            assert(decimal(n / 10)[0] == digit(n / 10));
        }
    } else {
        assert(decimal(n).drop_last() =~= Seq::empty());
    }
}

/// Two numbers have the same text only if they are the same.
pub proof fn law_decimal_tells_numbers_apart(n: nat, m: nat)
    ensures
        decimal(n) == decimal(m) ==> n == m,
{
    law_decimal_stands_for_its_number(n);
    law_decimal_stands_for_its_number(m);
}

/// A phrase starts with the text before the number, ends with the text after it, and holds the text of
/// the number between them.
pub proof fn law_phrase_holds_its_number(before: Seq<char>, n: nat, after: Seq<char>)
    ensures
        phrase(before, n, after).len() == before.len() + decimal(n).len() + after.len(),
        phrase(before, n, after).take(before.len() as int) == before,
        phrase(before, n, after).skip((before.len() + decimal(n).len()) as int) == after,
        number(
            phrase(before, n, after).subrange(
                before.len() as int,
                (before.len() + decimal(n).len()) as int,
            ),
        ) == n,
{
    law_decimal_stands_for_its_number(n);
    let p = phrase(before, n, after);
    assert(p.take(before.len() as int) =~= before);
    assert(p.skip((before.len() + decimal(n).len()) as int) =~= after);
    assert(p.subrange(before.len() as int, (before.len() + decimal(n).len()) as int) =~= decimal(n));
}

} // verus!
