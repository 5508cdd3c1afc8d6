//! Text building blocks shared by the reports and messages: decimal
//! rendering of counts and the padding rules of Rust's width specifiers.

use vstd::prelude::*;
use vstd::string::*;

verus! {

/// The ASCII digit for a value below ten.
pub open spec fn digit_char(d: nat) -> char {
    if d == 0 { '0' }
    else if d == 1 { '1' }
    else if d == 2 { '2' }
    else if d == 3 { '3' }
    else if d == 4 { '4' }
    else if d == 5 { '5' }
    else if d == 6 { '6' }
    else if d == 7 { '7' }
    else if d == 8 { '8' }
    else { '9' }
}

/// The decimal notation of a natural number, without sign or leading zeros
/// (what `{}` prints for an unsigned integer).
pub open spec fn decimal(n: nat) -> Seq<char>
    decreases n,
{
    if n < 10 {
        seq![digit_char(n)]
    } else {
        decimal(n / 10).push(digit_char(n % 10))
    }
}

/// `n` copies of the character `c`.
pub open spec fn repeat(c: char, n: nat) -> Seq<char> {
    Seq::new(n, |i: int| c)
}

/// `{:width$}` on a string: left-aligned, filled with spaces on the right.
pub open spec fn pad_right(s: Seq<char>, width: nat) -> Seq<char> {
    if s.len() < width {
        s + repeat(' ', (width - s.len()) as nat)
    } else {
        s
    }
}

/// `{:>width$}`: right-aligned, filled with spaces on the left.
pub open spec fn pad_left(s: Seq<char>, width: nat) -> Seq<char> {
    if s.len() < width {
        repeat(' ', (width - s.len()) as nat) + s
    } else {
        s
    }
}

/// `{:^width$}`: centred; of an odd amount of padding the extra space goes right.
pub open spec fn center(s: Seq<char>, width: nat) -> Seq<char> {
    if s.len() < width {
        let pad = (width - s.len()) as nat;
        repeat(' ', pad / 2) + s + repeat(' ', (pad - pad / 2) as nat)
    } else {
        s
    }
}

/// Number of bytes of the UTF-8 encoding of a text (what `str::len` returns).
pub open spec fn byte_len(s: Seq<char>) -> nat {
    vstd::utf8::encode_utf8(s).len()
}

/// Appends one character to a string.
///
/// Trusted: `String::push` appends the given `char` at the end of the string.
#[verifier::external_body]
pub(crate) fn push_char(s: &mut String, c: char)
    ensures
        final(s)@ == old(s)@.push(c),
{
    s.push(c);
}

fn digit(d: usize) -> (c: char)
    requires
        d < 10,
    ensures
        c == digit_char(d as nat),
{
    if d == 0 { '0' }
    else if d == 1 { '1' }
    else if d == 2 { '2' }
    else if d == 3 { '3' }
    else if d == 4 { '4' }
    else if d == 5 { '5' }
    else if d == 6 { '6' }
    else if d == 7 { '7' }
    else if d == 8 { '8' }
    else { '9' }
}

/// Appends the decimal notation of `n`.
pub fn push_decimal(s: &mut String, n: usize)
    ensures
        final(s)@ == old(s)@ + decimal(n as nat),
    decreases n,
{
    if n < 10 {
        push_char(s, digit(n));
        assert(decimal(n as nat) == seq![digit_char(n as nat)]);
    } else {
        push_decimal(s, n / 10);
        push_char(s, digit(n % 10));
    }
}

/// The decimal notation of `n` as a new string.
pub fn decimal_string(n: usize) -> (r: String)
    ensures
        r@ == decimal(n as nat),
{
    let mut r = String::new();
    push_decimal(&mut r, n);
    r
}

/// Appends `n` copies of `c`.
pub fn push_repeat(s: &mut String, c: char, n: usize)
    ensures
        final(s)@ == old(s)@ + repeat(c, n as nat),
{
    let ghost start = s@;
    let mut i: usize = 0;
    while i < n
        invariant
            i <= n,
            s@ == start + repeat(c, i as nat),
        decreases n - i,
    {
        push_char(s, c);
        i = i + 1;
        assert(s@ =~= start + repeat(c, i as nat));
    }
}

/// Appends `t` padded on the right to `width` characters.
pub fn push_pad_right(s: &mut String, t: &str, width: usize)
    ensures
        final(s)@ == old(s)@ + pad_right(t@, width as nat),
{
    let ghost start = s@;
    let n = t.unicode_len();
    s.append(t);
    if n < width {
        push_repeat(s, ' ', width - n);
    }
    assert(s@ =~= start + pad_right(t@, width as nat));
}

/// Appends `t` centred in `width` characters.
pub fn push_center(s: &mut String, t: &str, width: usize)
    ensures
        final(s)@ == old(s)@ + center(t@, width as nat),
{
    let ghost start = s@;
    let n = t.unicode_len();
    if n < width {
        let pad = width - n;
        push_repeat(s, ' ', pad / 2);
        s.append(t);
        push_repeat(s, ' ', pad - pad / 2);
    } else {
        s.append(t);
    }
    assert(s@ =~= start + center(t@, width as nat));
}

/// Every character takes at least one byte in UTF-8.
pub(crate) proof fn lemma_chars_at_most_bytes(s: Seq<char>)
    ensures
        s.len() <= byte_len(s),
    decreases s.len(),
{
    if s.len() > 0 {
        lemma_chars_at_most_bytes(s.drop_first());
        assert(vstd::utf8::encode_scalar(s[0] as u32).len() >= 1);
    }
}

/// Appends `t` padded on the left to `width` characters.
pub fn push_pad_left(s: &mut String, t: &str, width: usize)
    ensures
        final(s)@ == old(s)@ + pad_left(t@, width as nat),
{
    let ghost start = s@;
    let n = t.unicode_len();
    if n < width {
        push_repeat(s, ' ', width - n);
    }
    s.append(t);
    assert(s@ =~= start + pad_left(t@, width as nat));
}

/// The value of a decimal digit character.
pub open spec fn digit_value(c: char) -> int {
    c as int - '0' as int
}

/// The number that a string of decimal digits denotes.
pub open spec fn digits_value(s: Seq<char>) -> int
    decreases s.len(),
{
    if s.len() == 0 {
        0
    } else {
        digits_value(s.drop_last()) * 10 + digit_value(s.last())
    }
}

/// The decimal notation of `n` is a non-empty string of the digits `0`-`9`
/// that denotes `n` and has no leading zero, unless `n` is zero itself.
/// These properties single out one string for every number.
pub proof fn law_decimal_denotes_the_number(n: nat)
    ensures
        decimal(n).len() >= 1,
        forall|i: int| 0 <= i < decimal(n).len() ==> '0' <= #[trigger] decimal(n)[i] <= '9',
        digits_value(decimal(n)) == n,
        decimal(n)[0] == '0' ==> n == 0,
    decreases n,
{
    if n >= 10 {
        law_decimal_denotes_the_number(n / 10);
        let d = decimal(n / 10);
        let r = decimal(n);
        assert(r == d.push(digit_char(n % 10)));
        assert(r.drop_last() =~= d);
        assert(forall|i: int| 0 <= i < d.len() ==> r[i] == d[i]);
        assert(digit_value(digit_char(n % 10)) == n % 10);
        assert(r.last() == digit_char(n % 10));
        assert(digits_value(r) == digits_value(d) * 10 + digit_value(r.last()));
        assert((n / 10) * 10 + n % 10 == n) by (nonlinear_arith);
    } else {
        assert(decimal(n).drop_last() =~= Seq::<char>::empty());
        assert(digit_value(digit_char(n)) == n);
        assert(digits_value(decimal(n)) == digits_value(decimal(n).drop_last()) * 10 + digit_value(
            decimal(n).last(),
        ));
    }
}

/// `n` copies of `c` are `n` characters, each of them `c`.
pub proof fn law_repeat_is_n_copies(c: char, n: nat)
    ensures
        repeat(c, n).len() == n,
        forall|i: int| 0 <= i < n ==> #[trigger] repeat(c, n)[i] == c,
{
}

/// Padding to a width: the result is `width` characters long, or the text
/// itself where it is already as wide. Left-aligned, the text comes first
/// and spaces fill the rest; right-aligned, spaces come first and the text
/// ends the result; centred, the text stands after half the spaces
/// (rounded down) and spaces fill the rest.
pub proof fn law_padding_keeps_the_text(s: Seq<char>, width: nat)
    ensures
        pad_right(s, width).len() == if s.len() < width { width } else { s.len() },
        pad_left(s, width).len() == if s.len() < width { width } else { s.len() },
        center(s, width).len() == if s.len() < width { width } else { s.len() },
        pad_right(s, width).subrange(0, s.len() as int) == s,
        forall|i: int|
            s.len() <= i < pad_right(s, width).len() ==> #[trigger] pad_right(s, width)[i] == ' ',
        pad_left(s, width).subrange(pad_left(s, width).len() - s.len(), pad_left(s, width).len() as int)
            == s,
        forall|i: int|
            0 <= i < pad_left(s, width).len() - s.len() ==> #[trigger] pad_left(s, width)[i] == ' ',
        ({
            let c = center(s, width);
            let left = if s.len() < width { (width - s.len()) / 2 } else { 0 };
            &&& c.subrange(left as int, left + s.len()) == s
            &&& forall|i: int|
                (0 <= i < left || left + s.len() <= i < c.len()) ==> #[trigger] c[i] == ' '
        }),
{
    let r = pad_right(s, width);
    let l = pad_left(s, width);
    assert(r.subrange(0, s.len() as int) =~= s);
    assert(l.subrange(l.len() - s.len(), l.len() as int) =~= s);
    let c = center(s, width);
    let left = if s.len() < width { (width - s.len()) / 2 } else { 0 };
    assert(c.subrange(left as int, left + s.len()) =~= s);
}

} // verus!
