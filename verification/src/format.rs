//! Textual form of a byte count.

use vstd::prelude::*;
use vstd::string::StringExecFns;

verus! {

/// The character for a single decimal digit `d`, `0 <= d <= 9`.
pub open spec fn digit_char(d: nat) -> char {
    ('0' as nat + d) as char
}

/// The decimal numeral of `n`, most significant digit first, without leading zeros.
pub open spec fn decimal(n: nat) -> Seq<char>
    decreases n,
{
    if n < 10 {
        seq![digit_char(n)]
    } else {
        decimal(n / 10).push(digit_char(n % 10))
    }
}

/// `text` right-justified in a field of `width` characters: blanks are put in
/// front until the width is reached; a longer text is left as it is.
pub open spec fn pad_left(text: Seq<char>, width: nat) -> Seq<char> {
    if text.len() >= width {
        text
    } else {
        Seq::new((width - text.len()) as nat, |i: int| ' ') + text
    }
}

/// The text shown for a size of `size` bytes.
///
/// In the plain form this is the byte count, right-justified to twelve
/// characters. In the human-readable form, sizes below one thousand are shown
/// as they are in six characters; larger ones are divided (rounding down) by
/// the largest of 10^3, 10^6, 10^9, 10^12 that does not exceed them, shown in
/// five characters and followed by the unit letter.
pub open spec fn size_text(size: u64, human_readable: bool) -> Seq<char> {
    if !human_readable {
        pad_left(decimal(size as nat), 12)
    } else if size < 1_000 {
        pad_left(decimal(size as nat), 6)
    } else if size < 1_000_000 {
        pad_left(decimal((size / 1_000) as nat), 5).push('K')
    } else if size < 1_000_000_000 {
        pad_left(decimal((size / 1_000_000) as nat), 5).push('M')
    } else if size < 1_000_000_000_000 {
        pad_left(decimal((size / 1_000_000_000) as nat), 5).push('G')
    } else {
        pad_left(decimal((size / 1_000_000_000_000) as nat), 5).push('T')
    }
}

/// One decimal digit as a string slice.
fn digit_str(d: u8) -> (s: &'static str)
    requires
        d < 10,
    ensures
        s@ == seq![digit_char(d as nat)],
{
    proof {
        reveal_strlit("0");
        reveal_strlit("1");
        reveal_strlit("2");
        reveal_strlit("3");
        reveal_strlit("4");
        reveal_strlit("5");
        reveal_strlit("6");
        reveal_strlit("7");
        reveal_strlit("8");
        reveal_strlit("9");
    }
    let s = if d == 0 {
        "0"
    } else if d == 1 {
        "1"
    } else if d == 2 {
        "2"
    } else if d == 3 {
        "3"
    } else if d == 4 {
        "4"
    } else if d == 5 {
        "5"
    } else if d == 6 {
        "6"
    } else if d == 7 {
        "7"
    } else if d == 8 {
        "8"
    } else {
        "9"
    };
    assert(s@ =~= seq![digit_char(d as nat)]);
    s
}

/// The digits of `value`, least significant first.
fn reversed_digits(value: u64) -> (digits: Vec<u8>)
    ensures
        digits@.len() == decimal(value as nat).len(),
        forall|i: int| 0 <= i < digits@.len() ==> digits@[i] < 10,
        forall|i: int|
            0 <= i < digits@.len() ==> digit_char(#[trigger] digits@[i] as nat) == decimal(
                value as nat,
            )[digits@.len() - 1 - i],
{
    let mut digits: Vec<u8> = Vec::new();
    let mut rest: u64 = value;
    while rest >= 10
        invariant
            forall|i: int| 0 <= i < digits@.len() ==> digits@[i] < 10,
            decimal(value as nat).len() == decimal(rest as nat).len() + digits@.len(),
            forall|i: int|
                0 <= i < decimal(rest as nat).len() ==> decimal(value as nat)[i] == decimal(
                    rest as nat,
                )[i],
            forall|i: int|
                0 <= i < digits@.len() ==> digit_char(#[trigger] digits@[i] as nat) == decimal(
                    value as nat,
                )[decimal(value as nat).len() - 1 - i],
        decreases rest,
    {
        let d: u8 = (rest % 10) as u8;
        digits.push(d);
        rest = rest / 10;
    }
    digits.push(rest as u8);
    digits
}

/// Appends `value` in decimal to `out`, right-justified to `width` characters.
fn append_padded(out: &mut String, value: u64, width: usize)
    ensures
        final(out)@ == old(out)@ + pad_left(decimal(value as nat), width as nat),
{
    let digits = reversed_digits(value);
    let ghost numeral = decimal(value as nat);
    let mut filled: usize = digits.len();
    while filled < width
        invariant
            digits@.len() <= filled,
            filled <= width || filled == digits@.len(),
            out@ == old(out)@ + Seq::new((filled - digits@.len()) as nat, |i: int| ' '),
        decreases width - filled,
    {
        proof {
            reveal_strlit(" ");
        }
        out.append(" ");
        filled = filled + 1;
        assert(out@ =~= old(out)@ + Seq::new((filled - digits@.len()) as nat, |i: int| ' '));
    }
    let ghost padded = out@;
    let mut left: usize = digits.len();
    while left > 0
        invariant
            left <= digits@.len(),
            digits@.len() == numeral.len(),
            forall|i: int| 0 <= i < digits@.len() ==> digits@[i] < 10,
            forall|i: int|
                0 <= i < digits@.len() ==> digit_char(#[trigger] digits@[i] as nat)
                    == numeral[digits@.len() - 1 - i],
            out@ == padded + numeral.take(digits@.len() - left),
        decreases left,
    {
        left = left - 1;
        out.append(digit_str(digits[left]));
        assert(out@ =~= padded + numeral.take(digits@.len() - left));
    }
    assert(out@ =~= old(out)@ + pad_left(numeral, width as nat));
}

/// Formats a byte count for a report line.
pub fn format_size(size: u64, human_readable: bool) -> (text: String)
    ensures
        text@ == size_text(size, human_readable),
{
    let mut text = String::new();
    if !human_readable {
        append_padded(&mut text, size, 12);
    } else if size < 1_000 {
        append_padded(&mut text, size, 6);
    } else if size < 1_000_000 {
        append_padded(&mut text, size / 1_000, 5);
        proof {
            reveal_strlit("K");
        }
        text.append("K");
    } else if size < 1_000_000_000 {
        append_padded(&mut text, size / 1_000_000, 5);
        proof {
            reveal_strlit("M");
        }
        text.append("M");
    } else if size < 1_000_000_000_000 {
        append_padded(&mut text, size / 1_000_000_000, 5);
        proof {
            reveal_strlit("G");
        }
        text.append("G");
    } else {
        append_padded(&mut text, size / 1_000_000_000_000, 5);
        proof {
            reveal_strlit("T");
        }
        text.append("T");
    }
    assert(text@ =~= size_text(size, human_readable));
    text
}

/// Ten to the power of `k`.
pub open spec fn power_of_ten(k: nat) -> nat
    decreases k,
{
    if k == 0 {
        1
    } else {
        10 * power_of_ten((k - 1) as nat)
    }
}

/// A number below 10^k has at most `k` digits, and every number has one.
pub proof fn lemma_decimal_len(n: nat, k: nat)
    requires
        k >= 1,
        n < power_of_ten(k),
    ensures
        1 <= decimal(n).len() <= k,
    decreases k,
{
    if n >= 10 {
        assert(power_of_ten(1) == 10) by {
            reveal_with_fuel(power_of_ten, 2);
        }
        assert(k >= 2);
        lemma_decimal_len(n / 10, (k - 1) as nat);
    }
}

/// The size field has a fixed width as long as the number fits: twelve
/// characters in the plain form for sizes below 10^12, and six characters in
/// the human-readable form for sizes below 10^17.
pub proof fn law_size_text_width(size: u64, human_readable: bool)
    ensures
        !human_readable && size < 1_000_000_000_000 ==> size_text(size, human_readable).len()
            == 12,
        human_readable && size < 100_000_000_000_000_000 ==> size_text(
            size,
            human_readable,
        ).len() == 6,
{
    reveal_with_fuel(power_of_ten, 13);
    if !human_readable {
        if size < 1_000_000_000_000 {
            lemma_decimal_len(size as nat, 12);
        }
    } else if size < 1_000 {
        lemma_decimal_len(size as nat, 3);
    } else if size < 1_000_000 {
        lemma_decimal_len((size / 1_000) as nat, 3);
    } else if size < 1_000_000_000 {
        lemma_decimal_len((size / 1_000_000) as nat, 3);
    } else if size < 1_000_000_000_000 {
        lemma_decimal_len((size / 1_000_000_000) as nat, 3);
    } else if size < 100_000_000_000_000_000 {
        lemma_decimal_len((size / 1_000_000_000_000) as nat, 5);
    }
}

} // verus!
