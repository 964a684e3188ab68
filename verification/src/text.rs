//! Decimal text for error messages.

use vstd::prelude::*;
use vstd::string::StringExecFns;

verus! {

/// The decimal digit of a number below ten.
pub open spec fn digit(d: nat) -> char {
    if d == 0 {
        '0'
    } else if d == 1 {
        '1'
    } else if d == 2 {
        '2'
    } else if d == 3 {
        '3'
    } else if d == 4 {
        '4'
    } else if d == 5 {
        '5'
    } else if d == 6 {
        '6'
    } else if d == 7 {
        '7'
    } else if d == 8 {
        '8'
    } else {
        '9'
    }
}

/// The decimal digits of `n`, without leading zeros.
pub open spec fn decimal(n: nat) -> Seq<char>
    decreases n,
{
    if n < 10 {
        seq![digit(n)]
    } else {
        decimal(n / 10).push(digit(n % 10))
    }
}

/// Numbers separated by a comma and a blank.
pub open spec fn comma_separated(list: Seq<usize>) -> Seq<char>
    decreases list.len(),
{
    if list.len() == 0 {
        Seq::empty()
    } else if list.len() == 1 {
        decimal(list[0] as nat)
    } else {
        comma_separated(list.drop_last()) + ", "@ + decimal(list.last() as nat)
    }
}

/// A list of numbers in square brackets.
pub open spec fn bracketed(list: Seq<usize>) -> Seq<char> {
    "["@ + comma_separated(list) + "]"@
}

fn digit_text(d: usize) -> (r: &'static str)
    requires
        d < 10,
    ensures
        r@ == seq![digit(d as nat)],
{
    proof {
        reveal_strlit("0");
        reveal_strlit("1");
        reveal_strlit("2");
        reveal_strlit("3");
        reveal_strlit("4");
        reveal_strlit("5");
        reveal_strlit("6");
        reveal_strlit("7");
        reveal_strlit("8");
        reveal_strlit("9");
    }
    if d == 0 {
        "0"
    } else if d == 1 {
        "1"
    } else if d == 2 {
        "2"
    } else if d == 3 {
        "3"
    } else if d == 4 {
        "4"
    } else if d == 5 {
        "5"
    } else if d == 6 {
        "6"
    } else if d == 7 {
        "7"
    } else if d == 8 {
        "8"
    } else {
        "9"
    }
}

/// Appends the decimal digits of `n`.
pub fn append_decimal(text: &mut String, n: usize)
    ensures
        final(text)@ == old(text)@ + decimal(n as nat),
    decreases n,
{
    if n >= 10 {
        append_decimal(text, n / 10);
    }
    text.append(digit_text(n % 10));
}

/// Appends a list of numbers in square brackets.
pub fn append_bracketed(text: &mut String, list: &Vec<usize>)
    ensures
        final(text)@ == old(text)@ + bracketed(list@),
{
    let ghost start = text@ + "["@;
    text.append("[");
    let mut i: usize = 0;
    while i < list.len()
        invariant
            i <= list.len(),
            text@ == start + comma_separated(list@.take(i as int)),
        decreases list.len() - i,
    {
        if i > 0 {
            text.append(", ");
        }
        append_decimal(text, list[i]);
        proof {
            assert(list@.take(i + 1).drop_last() =~= list@.take(i as int));
            assert(list@.take(i + 1).last() == list@[i as int]);
            assert(text@ =~= start + comma_separated(list@.take(i + 1)));
        }
        i = i + 1;
    }
    text.append("]");
    proof {
        assert(list@.take(i as int) =~= list@);
    }
}

/// The text `prefix`, the digits of `n`, and the text `suffix`.
pub fn numbered(prefix: &str, n: usize, suffix: &str) -> (r: String)
    ensures
        r@ == prefix@ + decimal(n as nat) + suffix@,
{
    let mut text = String::from_str(prefix);
    append_decimal(&mut text, n);
    text.append(suffix);
    text
}

/// The text `prefix`, the digits of `a`, the text `middle`, and the digits of `b`.
pub fn numbered_pair(prefix: &str, a: usize, middle: &str, b: usize) -> (r: String)
    ensures
        r@ == prefix@ + decimal(a as nat) + middle@ + decimal(b as nat),
{
    let mut text = numbered(prefix, a, middle);
    append_decimal(&mut text, b);
    text
}

/// The value of a decimal digit.
pub open spec fn digit_value(c: char) -> int {
    c as int - '0' as int
}

/// The number that a text of decimal digits stands for.
pub open spec fn number_of(text: Seq<char>) -> int
    decreases text.len(),
{
    if text.len() == 0 {
        0
    } else {
        10 * number_of(text.drop_last()) + digit_value(text.last())
    }
}

/// The decimal text of a number has nothing but digits and no leading zeros, and
/// reads back as the number.
pub proof fn law_decimal_reads_back(n: nat)
    ensures
        number_of(decimal(n)) == n,
        decimal(n).len() > 0,
        n > 0 ==> digit_value(decimal(n)[0]) > 0,
        forall|i: int| 0 <= i < decimal(n).len() ==> 0 <= digit_value(#[trigger] decimal(n)[i]) <= 9,
    decreases n,
{
    if n < 10 {
        assert(decimal(n).drop_last() =~= Seq::<char>::empty());
        assert(number_of(decimal(n).drop_last()) == 0);
        assert(digit_value(digit(n)) == n);
    } else {
        law_decimal_reads_back(n / 10);
        assert(decimal(n).drop_last() =~= decimal(n / 10));
        assert(decimal(n)[0] == decimal(n / 10)[0]);
        assert(digit_value(digit(n % 10)) == n % 10);
        assert forall|i: int| 0 <= i < decimal(n).len() implies 0 <= digit_value(#[trigger] decimal(n)[i]) <= 9 by {
            if i < decimal(n / 10).len() {
                assert(decimal(n)[i] == decimal(n / 10)[i]);
            }
        }
    }
}

/// Different numbers have different texts.
pub proof fn law_decimal_tells_numbers_apart(m: nat, n: nat)
    requires
        decimal(m) == decimal(n),
    ensures
        m == n,
{
    law_decimal_reads_back(m);
    law_decimal_reads_back(n);
}

/// Lists are written one after the other, with a comma and a blank in between, and
/// put into brackets as a whole.
pub proof fn law_lists_are_written_in_order(a: Seq<usize>, b: Seq<usize>)
    requires
        a.len() > 0,
        b.len() > 0,
    ensures
        comma_separated(a + b) == comma_separated(a) + ", "@ + comma_separated(b),
        comma_separated(seq![a[0]]) == decimal(a[0] as nat),
        bracketed(a) == "["@ + comma_separated(a) + "]"@,
        bracketed(Seq::<usize>::empty()) == "["@ + "]"@,
    decreases b.len(),
{
    assert((a + b).drop_last() =~= a + b.drop_last());
    assert((a + b).last() == b.last());
    assert(comma_separated(Seq::<usize>::empty()) =~= Seq::<char>::empty());
    assert("["@ + comma_separated(Seq::<usize>::empty()) =~= "["@);
    if b.len() == 1 {
        assert(a + b.drop_last() =~= a);
    } else {
        law_lists_are_written_in_order(a, b.drop_last());
        let (x, y, z, c) = (comma_separated(a), comma_separated(b.drop_last()), decimal(b.last() as nat), ", "@);
        assert((x + c + y) + c + z =~= x + c + (y + c + z));
    }
}

} // verus!
