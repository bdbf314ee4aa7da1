//! Numbers written as text: decimal, zero-padded decimal and fixed-width hexadecimal.

use vstd::prelude::*;

verus! {

/// The character of a digit below sixteen, lower case for the letters.
pub open spec fn digit_char(d: nat) -> char {
    if d == 0 { '0' }
    else if d == 1 { '1' }
    else if d == 2 { '2' }
    else if d == 3 { '3' }
    else if d == 4 { '4' }
    else if d == 5 { '5' }
    else if d == 6 { '6' }
    else if d == 7 { '7' }
    else if d == 8 { '8' }
    else if d == 9 { '9' }
    else if d == 10 { 'a' }
    else if d == 11 { 'b' }
    else if d == 12 { 'c' }
    else if d == 13 { 'd' }
    else if d == 14 { 'e' }
    else { 'f' }
}

/// The value of a lower-case hexadecimal digit; 16 for any other character.
pub open spec fn hex_char_value(c: char) -> nat {
    if c == '0' { 0 }
    else if c == '1' { 1 }
    else if c == '2' { 2 }
    else if c == '3' { 3 }
    else if c == '4' { 4 }
    else if c == '5' { 5 }
    else if c == '6' { 6 }
    else if c == '7' { 7 }
    else if c == '8' { 8 }
    else if c == '9' { 9 }
    else if c == 'a' { 10 }
    else if c == 'b' { 11 }
    else if c == 'c' { 12 }
    else if c == 'd' { 13 }
    else if c == 'e' { 14 }
    else if c == 'f' { 15 }
    else { 16 }
}

/// Whether every character of `s` is a lower-case hexadecimal digit.
pub open spec fn lower_hex(s: Seq<char>) -> bool {
    forall|i: int| 0 <= i < s.len() ==> hex_char_value(#[trigger] s[i]) < 16
}

/// The number that hexadecimal text `s` reads as, most significant digit first.
pub open spec fn hex_value(s: Seq<char>) -> nat
    decreases s.len(),
{
    if s.len() == 0 {
        0
    } else {
        hex_value(s.drop_last()) * 16 + hex_char_value(s.last())
    }
}

/// `16` to the power `width`: the numbers that `width` hexadecimal digits can write.
pub open spec fn hex_limit(width: nat) -> nat
    decreases width,
{
    if width == 0 {
        1
    } else {
        16 * hex_limit((width - 1) as nat)
    }
}

/// Hexadecimal text reads back as the number it was written from: `width` lower-case digits
/// of a number below `16^width` are that number.
pub proof fn lemma_hex_digits_read_back(n: nat, width: nat)
    requires
        n < hex_limit(width),
    ensures
        lower_hex(hex_digits(n, width)),
        hex_value(hex_digits(n, width)) == n,
    decreases width,
{
    if width == 0 {
        assert(n == 0);
    } else {
        let w1 = (width - 1) as nat;
        assert(n / 16 < hex_limit(w1));
        lemma_hex_digits_read_back(n / 16, w1);
        let s = hex_digits(n, width);
        let d = n % 16;
        assert(s.drop_last() =~= hex_digits(n / 16, w1));
        assert(hex_char_value(digit_char(d)) == d);
        assert(n == (n / 16) * 16 + d);
        assert forall|i: int| 0 <= i < s.len() implies hex_char_value(#[trigger] s[i]) < 16 by {
            if i < s.len() - 1 {
                assert(s[i] == hex_digits(n / 16, w1)[i]);
            }
        }
    }
}

/// `n` in decimal, without leading zeros (`"0"` for zero).
pub open spec fn decimal(n: nat) -> Seq<char>
    decreases n,
{
    if n < 10 {
        seq![digit_char(n)]
    } else {
        decimal(n / 10).push(digit_char(n % 10))
    }
}

/// Whether every character of `s` is a decimal digit.
pub open spec fn all_digits(s: Seq<char>) -> bool {
    forall|i: int| 0 <= i < s.len() ==> hex_char_value(#[trigger] s[i]) < 10
}

/// The number that decimal text `s` reads as, most significant digit first.
pub open spec fn decimal_value(s: Seq<char>) -> nat
    decreases s.len(),
{
    if s.len() == 0 {
        0
    } else {
        decimal_value(s.drop_last()) * 10 + hex_char_value(s.last())
    }
}

/// Decimal text is digits, at least one, and reads back as the number it was written from.
pub proof fn lemma_decimal_reads_back(n: nat)
    ensures
        decimal(n).len() >= 1,
        all_digits(decimal(n)),
        decimal_value(decimal(n)) == n,
    decreases n,
{
    let s = decimal(n);
    if n < 10 {
        assert(s.drop_last() =~= Seq::<char>::empty());
        assert(decimal_value(s.drop_last()) == 0);
        assert(s.last() == digit_char(n));
        assert(hex_char_value(digit_char(n)) == n);
        assert(decimal_value(s) == decimal_value(s.drop_last()) * 10 + hex_char_value(s.last()));
    } else {
        lemma_decimal_reads_back(n / 10);
        let d = n % 10;
        assert(s.drop_last() =~= decimal(n / 10));
        assert(hex_char_value(digit_char(d)) == d);
        assert(n == (n / 10) * 10 + d);
        assert(s.last() == digit_char(d));
        assert(decimal_value(s) == decimal_value(s.drop_last()) * 10 + hex_char_value(s.last()));
        assert forall|i: int| 0 <= i < s.len() implies hex_char_value(#[trigger] s[i]) < 10 by {
            if i < s.len() - 1 {
                assert(s[i] == decimal(n / 10)[i]);
            }
        }
    }
}

/// `n` in decimal, padded with zeros to at least two digits.
pub open spec fn two_digits(n: nat) -> Seq<char> {
    if n < 10 {
        seq!['0'] + decimal(n)
    } else {
        decimal(n)
    }
}

/// The low `width` hexadecimal digits of `n`, lower case, most significant first.
pub open spec fn hex_digits(n: nat, width: nat) -> Seq<char>
    decreases width,
{
    if width == 0 {
        Seq::empty()
    } else {
        hex_digits(n / 16, (width - 1) as nat).push(digit_char(n % 16))
    }
}

/// The one-character text of a digit.
fn digit_str(d: u64) -> (r: &'static str)
    requires
        d < 16,
    ensures
        r@ == seq![digit_char(d as nat)],
{
    if d == 0 { proof { reveal_strlit("0"); } "0" }
    else if d == 1 { proof { reveal_strlit("1"); } "1" }
    else if d == 2 { proof { reveal_strlit("2"); } "2" }
    else if d == 3 { proof { reveal_strlit("3"); } "3" }
    else if d == 4 { proof { reveal_strlit("4"); } "4" }
    else if d == 5 { proof { reveal_strlit("5"); } "5" }
    else if d == 6 { proof { reveal_strlit("6"); } "6" }
    else if d == 7 { proof { reveal_strlit("7"); } "7" }
    else if d == 8 { proof { reveal_strlit("8"); } "8" }
    else if d == 9 { proof { reveal_strlit("9"); } "9" }
    else if d == 10 { proof { reveal_strlit("a"); } "a" }
    else if d == 11 { proof { reveal_strlit("b"); } "b" }
    else if d == 12 { proof { reveal_strlit("c"); } "c" }
    else if d == 13 { proof { reveal_strlit("d"); } "d" }
    else if d == 14 { proof { reveal_strlit("e"); } "e" }
    else { proof { reveal_strlit("f"); } "f" }
}

/// Append `n` in decimal.
pub fn push_decimal(s: &mut String, n: u64)
    ensures
        final(s)@ == old(s)@ + decimal(n as nat),
    decreases n,
{
    if n >= 10 {
        push_decimal(s, n / 10);
    }
    s.append(digit_str(n % 10));
    proof {
        assert(old(s)@ + decimal(n as nat) =~= old(s)@ + (if n >= 10 { decimal((n / 10) as nat) } else { Seq::empty() }) + seq![digit_char((n % 10) as nat)]);
    }
}

/// Append `n` in decimal, padded with zeros to at least two digits.
pub fn push_two_digits(s: &mut String, n: u64)
    ensures
        final(s)@ == old(s)@ + two_digits(n as nat),
{
    if n < 10 {
        s.append(digit_str(0));
    }
    push_decimal(s, n);
    proof {
        assert(old(s)@ + two_digits(n as nat) =~= old(s)@ + (if n < 10 { seq!['0'] } else { Seq::empty() }) + decimal(n as nat));
    }
}

/// Append the low `width` hexadecimal digits of `n`.
pub fn push_hex_digits(s: &mut String, n: u64, width: u32)
    ensures
        final(s)@ == old(s)@ + hex_digits(n as nat, width as nat),
    decreases width,
{
    if width > 0 {
        push_hex_digits(s, n / 16, width - 1);
        s.append(digit_str(n % 16));
        proof {
            assert(old(s)@ + hex_digits(n as nat, width as nat) =~= old(s)@ + hex_digits((n / 16) as nat, (width - 1) as nat) + seq![digit_char((n % 16) as nat)]);
        }
    } else {
        proof {
            assert(old(s)@ + hex_digits(n as nat, width as nat) =~= old(s)@);
        }
    }
}

/// Texts joined with `", "` between them.
pub open spec fn joined(items: Seq<Seq<char>>) -> Seq<char>
    decreases items.len(),
{
    if items.len() == 0 {
        Seq::empty()
    } else if items.len() == 1 {
        items[0]
    } else {
        joined(items.drop_last()) + ", "@ + items.last()
    }
}

/// Append `items`, joined with `", "`.
pub fn push_joined(s: &mut String, items: &[String])
    ensures
        final(s)@ == old(s)@ + joined(items@.map_values(|x: String| x@)),
{
    let ghost prefix = s@;
    let ghost names = items@.map_values(|x: String| x@);
    let mut i: usize = 0;
    proof {
        assert(prefix + joined(names.take(0)) =~= prefix);
    }
    while i < items.len()
        invariant
            i <= items.len(),
            names == items@.map_values(|x: String| x@),
            s@ == prefix + joined(names.take(i as int)),
        decreases items.len() - i,
    {
        if i > 0 {
            s.append(", ");
        }
        s.append(items[i].as_str());
        proof {
            assert(names.take(i + 1).drop_last() =~= names.take(i as int));
            assert(names.take(i + 1).last() == items@[i as int]@);
            if i == 0 {
                assert(names.take(1).len() == 1);
            }
            reveal_strlit(", ");
        }
        i = i + 1;
    }
    proof {
        assert(names.take(i as int) =~= names);
    }
}

/// Append `items`, joined with `", "`.
pub fn push_joined_strs(s: &mut String, items: &[&'static str])
    ensures
        final(s)@ == old(s)@ + joined(items@.map_values(|x: &str| x@)),
{
    let ghost prefix = s@;
    let ghost names = items@.map_values(|x: &str| x@);
    let mut i: usize = 0;
    proof {
        assert(prefix + joined(names.take(0)) =~= prefix);
    }
    while i < items.len()
        invariant
            i <= items.len(),
            names == items@.map_values(|x: &str| x@),
            s@ == prefix + joined(names.take(i as int)),
        decreases items.len() - i,
    {
        if i > 0 {
            s.append(", ");
        }
        s.append(items[i]);
        proof {
            assert(names.take(i + 1).drop_last() =~= names.take(i as int));
            assert(names.take(i + 1).last() == items@[i as int]@);
            if i == 0 {
                assert(names.take(1).len() == 1);
            }
            reveal_strlit(", ");
        }
        i = i + 1;
    }
    proof {
        assert(names.take(i as int) =~= names);
    }
}

} // verus!
