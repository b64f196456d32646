//! Building message texts.
use vstd::prelude::*;

verus! {

/// `head` followed by `tail`.
pub fn join(head: &str, tail: &str) -> (text: String)
    ensures
        text@ == head@ + tail@,
{
    let mut text = String::new();
    text.append(head);
    text.append(tail);
    assert(text@ == head@ + tail@);
    text
}

/// A decimal digit.
pub open spec fn digit_text(d: int) -> Seq<char> {
    if d == 0 {
        "0"@
    } else if d == 1 {
        "1"@
    } else if d == 2 {
        "2"@
    } else if d == 3 {
        "3"@
    } else if d == 4 {
        "4"@
    } else if d == 5 {
        "5"@
    } else if d == 6 {
        "6"@
    } else if d == 7 {
        "7"@
    } else if d == 8 {
        "8"@
    } else {
        "9"@
    }
}

/// A natural number in decimal.
pub open spec fn nat_text(n: nat) -> Seq<char>
    decreases n,
{
    if n < 10 {
        digit_text(n as int)
    } else {
        nat_text(n / 10) + digit_text((n % 10) as int)
    }
}

/// An integer in decimal.
pub open spec fn int_text(n: int) -> Seq<char> {
    if n < 0 {
        "-"@ + nat_text((-n) as nat)
    } else {
        nat_text(n as nat)
    }
}

/// An optional integer, as `None` or as `Some(..)` around the number.
pub open spec fn option_text(n: Option<i32>) -> Seq<char> {
    match n {
        Some(n) => "Some("@ + int_text(n as int) + ")"@,
        None => "None"@,
    }
}

fn digit(d: u64) -> (text: &'static str)
    requires
        d < 10,
    ensures
        text@ == digit_text(d as int),
{
    match d {
        0 => "0",
        1 => "1",
        2 => "2",
        3 => "3",
        4 => "4",
        5 => "5",
        6 => "6",
        7 => "7",
        8 => "8",
        _ => "9",
    }
}

/// Renders a natural number in decimal.
pub fn decimal(n: u64) -> (text: String)
    ensures
        text@ == nat_text(n as nat),
    decreases n,
{
    if n < 10 {
        digit(n).to_owned()
    } else {
        let mut text = decimal(n / 10);
        text.append(digit(n % 10));
        text
    }
}

/// Renders an integer in decimal.
pub fn signed_decimal(n: i64) -> (text: String)
    requires
        n > i64::MIN,
    ensures
        text@ == int_text(n as int),
{
    if n < 0 {
        join("-", decimal((-n) as u64).as_str())
    } else {
        decimal(n as u64)
    }
}

/// Renders an optional integer.
pub fn optional_decimal(n: Option<i32>) -> (text: String)
    ensures
        text@ == option_text(n),
{
    match n {
        Some(n) => {
            let mut text = "Some(".to_owned();
            text.append(signed_decimal(n as i64).as_str());
            text.append(")");
            assert(text@ == option_text(Some(n)));
            text
        },
        None => "None".to_owned(),
    }
}

/// A result with its message taken as a sequence of characters.
pub open spec fn result_view(r: Result<bool, String>) -> Result<bool, Seq<char>> {
    match r {
        Ok(b) => Ok(b),
        Err(e) => Err(e@),
    }
}

/// The number that decimal digits stand for.
pub open spec fn digits_value(s: Seq<char>) -> int
    decreases s.len(),
{
    if s.len() == 0 {
        0
    } else {
        10 * digits_value(s.drop_last()) + (s.last() as int - '0' as int)
    }
}

proof fn lemma_digit(d: int)
    requires
        0 <= d < 10,
    ensures
        digit_text(d).len() == 1,
        digit_text(d)[0] as int == '0' as int + d,
{
    reveal_strlit("0");
    reveal_strlit("1");
    reveal_strlit("2");
    reveal_strlit("3");
    reveal_strlit("4");
    reveal_strlit("5");
    reveal_strlit("6");
    reveal_strlit("7");
    reveal_strlit("8");
    reveal_strlit("9");
}

/// The text of a number consists of decimal digits that stand for it, without a
/// leading zero.
pub proof fn number_text_stands_for_the_number(n: nat)
    ensures
        digits_value(nat_text(n)) == n,
        nat_text(n).len() >= 1,
        forall|i: int|
            0 <= i < nat_text(n).len() ==> '0' as int <= #[trigger] nat_text(n)[i] as int
                <= '9' as int,
        n > 0 ==> nat_text(n)[0] != '0',
    decreases n,
{
    if n < 10 {
        lemma_digit(n as int);
        assert(nat_text(n).drop_last() =~= Seq::empty());
        assert(digits_value(nat_text(n).drop_last()) == 0);
    } else {
        let head = nat_text(n / 10);
        let last = digit_text((n % 10) as int);
        number_text_stands_for_the_number(n / 10);
        lemma_digit((n % 10) as int);
        assert(nat_text(n) == head + last);
        assert(nat_text(n).drop_last() =~= head);
        assert(nat_text(n).last() == last[0]);
        assert forall|i: int| 0 <= i < nat_text(n).len() implies '0' as int
            <= #[trigger] nat_text(n)[i] as int <= '9' as int by {
            if i < head.len() {
                assert(nat_text(n)[i] == head[i]);
            }
        }
    }
}

/// A negative number has a minus sign before its digits, and no other number has.
pub proof fn sign_stands_before_the_digits(n: int)
    ensures
        n < 0 ==> int_text(n).len() > 1 && int_text(n)[0] == '-' && digits_value(
            int_text(n).skip(1),
        ) == -n,
        n >= 0 ==> digits_value(int_text(n)) == n && int_text(n)[0] != '-',
{
    if n < 0 {
        reveal_strlit("-");
        number_text_stands_for_the_number((-n) as nat);
        assert(int_text(n).skip(1) =~= nat_text((-n) as nat));
    } else {
        number_text_stands_for_the_number(n as nat);
        assert('0' as int <= nat_text(n as nat)[0] as int);
    }
}

/// An optional number reads as `None`, or as the number between `Some(` and `)`.
pub proof fn optional_number_stands_in_brackets(n: Option<i32>)
    ensures
        n is None ==> option_text(n) == seq!['N', 'o', 'n', 'e'],
        n matches Some(number) ==> option_text(n) == seq!['S', 'o', 'm', 'e', '('] + int_text(
            number as int,
        ) + seq![')'],
{
    reveal_strlit("None");
    reveal_strlit("Some(");
    reveal_strlit(")");
    assert("None"@ =~= seq!['N', 'o', 'n', 'e']);
    assert("Some("@ =~= seq!['S', 'o', 'm', 'e', '(']);
    assert(")"@ =~= seq![')']);
}

/// The view of a result tells success from failure and keeps the whole message.
pub proof fn result_view_keeps_the_result(r: Result<bool, String>)
    ensures
        r matches Ok(b) ==> result_view(r) == Ok::<bool, Seq<char>>(b),
        r matches Err(e) ==> result_view(r) == Err::<bool, Seq<char>>(e@),
{
}

} // verus!
