//! Building the text of a report: decimal numbers and padding.

use vstd::prelude::*;
use vstd::string::*;

verus! {

/// The character of a decimal digit.
pub open spec fn digit(d: nat) -> char
    recommends
        d < 10,
{
    if d == 0 {
        '0'
    } else if d == 1 {
        '1'
    } else if d == 2 {
        '2'
    } else if d == 3 {
        '3'
    } else if d == 4 {
        '4'
    } else if d == 5 {
        '5'
    } else if d == 6 {
        '6'
    } else if d == 7 {
        '7'
    } else if d == 8 {
        '8'
    } else {
        '9'
    }
}

/// The decimal numeral of `n`, without leading zeros.
pub open spec fn decimal(n: nat) -> Seq<char>
    decreases n,
{
    if n < 10 {
        seq![digit(n)]
    } else {
        decimal(n / 10).push(digit(n % 10))
    }
}

/// The last three decimal digits of `n`, zeros included.
pub open spec fn three_digits(n: nat) -> Seq<char> {
    seq![digit((n / 100) % 10), digit((n / 10) % 10), digit(n % 10)]
}

/// `count` blanks.
pub open spec fn blanks(count: nat) -> Seq<char> {
    Seq::new(count, |i: int| ' ')
}

/// `text` set flush left in a field of `width` characters: blanks fill the
/// field up, and a text that is longer than the field is kept whole.
pub open spec fn flush_left(text: Seq<char>, width: nat) -> Seq<char> {
    if text.len() >= width {
        text
    } else {
        text + blanks((width - text.len()) as nat)
    }
}

/// The number that a decimal digit stands for.
pub open spec fn digit_value(c: char) -> nat {
    if c == '1' {
        1
    } else if c == '2' {
        2
    } else if c == '3' {
        3
    } else if c == '4' {
        4
    } else if c == '5' {
        5
    } else if c == '6' {
        6
    } else if c == '7' {
        7
    } else if c == '8' {
        8
    } else if c == '9' {
        9
    } else {
        0
    }
}

/// The number that a string of decimal digits stands for.
pub open spec fn numeral_value(s: Seq<char>) -> nat
    decreases s.len(),
{
    if s.len() == 0 {
        0
    } else {
        numeral_value(s.drop_last()) * 10 + digit_value(s.last())
    }
}

/// The numeral of a number reads back as that number, and starts with a
/// zero only where the number is zero.
pub proof fn lemma_decimal_reads_back(n: nat)
    ensures
        numeral_value(decimal(n)) == n,
        decimal(n).len() >= 1,
        n > 0 ==> decimal(n)[0] != '0',
    decreases n,
{
    if n < 10 {
        assert(decimal(n).drop_last() =~= Seq::empty());
        assert(numeral_value(decimal(n).drop_last()) == 0);
    } else {
        lemma_decimal_reads_back(n / 10);
        assert(decimal(n).drop_last() =~= decimal(n / 10));
        assert(decimal(n)[0] == decimal(n / 10)[0]);
    }
}

/// A field that was filled flush left is as long as the longer of the text
/// and the width, and starts with the text.
pub proof fn lemma_flush_left_shape(text: Seq<char>, width: nat)
    ensures
        flush_left(text, width).len() == if text.len() >= width {
            text.len()
        } else {
            width
        },
        flush_left(text, width).subrange(0, text.len() as int) =~= text,
        forall|i: int|
            text.len() <= i < flush_left(text, width).len() ==> flush_left(text, width)[i] == ' ',
{
}

fn digit_text(d: u64) -> (text: &'static str)
    requires
        d < 10,
    ensures
        text@ == seq![digit(d as nat)],
{
    proof {
        reveal_strlit("0");
        reveal_strlit("1");
        reveal_strlit("2");
        reveal_strlit("3");
        reveal_strlit("4");
        reveal_strlit("5");
        reveal_strlit("6");
        reveal_strlit("7");
        reveal_strlit("8");
        reveal_strlit("9");
    }
    let text = if d == 0 {
        "0"
    } else if d == 1 {
        "1"
    } else if d == 2 {
        "2"
    } else if d == 3 {
        "3"
    } else if d == 4 {
        "4"
    } else if d == 5 {
        "5"
    } else if d == 6 {
        "6"
    } else if d == 7 {
        "7"
    } else if d == 8 {
        "8"
    } else {
        "9"
    };
    assert(text@ =~= seq![digit(d as nat)]);
    text
}

/// Appends the decimal numeral of `n` to `out`.
pub fn push_decimal(out: &mut String, n: u64)
    ensures
        final(out)@ == old(out)@ + decimal(n as nat),
    decreases n,
{
    if n < 10 {
        out.append(digit_text(n));
    } else {
        push_decimal(out, n / 10);
        out.append(digit_text(n % 10));
        assert(out@ =~= old(out)@ + decimal(n as nat));
    }
}

/// Appends the last three decimal digits of `n` to `out`.
pub fn push_three_digits(out: &mut String, n: u64)
    ensures
        final(out)@ == old(out)@ + three_digits(n as nat),
{
    out.append(digit_text((n / 100) % 10));
    out.append(digit_text((n / 10) % 10));
    out.append(digit_text(n % 10));
    assert(out@ =~= old(out)@ + three_digits(n as nat));
}

/// Appends `count` blanks to `out`.
pub fn push_blanks(out: &mut String, count: usize)
    ensures
        final(out)@ == old(out)@ + blanks(count as nat),
{
    let mut done: usize = 0;
    assert(out@ =~= old(out)@ + blanks(0));
    while done < count
        invariant
            done <= count,
            out@ == old(out)@ + blanks(done as nat),
        decreases count - done,
    {
        proof {
            reveal_strlit(" ");
        }
        out.append(" ");
        done += 1;
        assert(out@ =~= old(out)@ + blanks(done as nat));
    }
}

/// Appends `text` to `out`, flush left in a field of `width` characters.
pub fn push_flush_left(out: &mut String, text: &str, width: usize)
    ensures
        final(out)@ == old(out)@ + flush_left(text@, width as nat),
{
    let len = text.unicode_len();
    out.append(text);
    if len < width {
        push_blanks(out, width - len);
        assert(out@ =~= old(out)@ + flush_left(text@, width as nat));
    }
}

} // verus!
