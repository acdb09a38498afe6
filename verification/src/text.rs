//! The text forms of octets: decimal, hexadecimal and binary digits, and
//! text cut into fields at a separator.

use vstd::prelude::*;

verus! {

/// `String::push` of the standard library: the character is appended to the
/// end of the string, and nothing else changes.
pub assume_specification[ String::push ](s: &mut String, c: char)
    ensures
        final(s)@ == old(s)@.push(c),
;

/// Whether `c` is one of `0` to `9`.
pub open spec fn is_digit(c: char) -> bool {
    '0' <= c <= '9'
}

/// The number that the decimal digit `c` stands for.
pub open spec fn digit_value(c: char) -> nat {
    (c as u32 - '0' as u32) as nat
}

/// The decimal digit for `d`, with `d` below ten.
pub open spec fn digit_char(d: nat) -> char {
    ((48 + d) as u8) as char
}

/// The number written by a run of decimal digits, read left to right.
pub open spec fn digits_value(s: Seq<char>) -> nat
    decreases s.len(),
{
    if s.len() == 0 {
        0
    } else {
        digits_value(s.drop_last()) * 10 + digit_value(s.last())
    }
}

/// Whether every character of `s` is a decimal digit.
pub open spec fn all_digits(s: Seq<char>) -> bool {
    forall|i: int| 0 <= i < s.len() ==> is_digit(#[trigger] s[i])
}

/// `n` in decimal, without leading zeros.
pub open spec fn decimal_text(n: nat) -> Seq<char>
    decreases n,
{
    if n < 10 {
        seq![digit_char(n)]
    } else {
        decimal_text(n / 10).push(digit_char(n % 10))
    }
}

/// The octet that `s` writes in decimal: an optional `+`, then one or more
/// digits whose number is at most 255. Leading zeros are accepted. `None` for
/// every other text.
pub open spec fn decimal_octet(s: Seq<char>) -> Option<u8> {
    let body = if s.len() > 0 && s[0] == '+' {
        s.skip(1)
    } else {
        s
    };
    if body.len() > 0 && all_digits(body) && digits_value(body) <= 255 {
        Some(digits_value(body) as u8)
    } else {
        None
    }
}

/// The number that the hexadecimal digit `c` stands for, in either case;
/// `None` if `c` is no hexadecimal digit.
pub open spec fn hex_value(c: char) -> Option<u8> {
    if '0' <= c <= '9' {
        Some((c as u32 - '0' as u32) as u8)
    } else if 'a' <= c <= 'f' {
        Some((c as u32 - 'a' as u32 + 10) as u8)
    } else if 'A' <= c <= 'F' {
        Some((c as u32 - 'A' as u32 + 10) as u8)
    } else {
        None
    }
}

/// The upper-case hexadecimal digit for `d`, with `d` below sixteen.
pub open spec fn hex_char(d: nat) -> char {
    if d < 10 {
        ((48 + d) as u8) as char
    } else {
        ((55 + d) as u8) as char
    }
}

/// `x` as two upper-case hexadecimal digits.
pub open spec fn hex_text(x: u8) -> Seq<char> {
    seq![hex_char((x / 16) as nat), hex_char((x % 16) as nat)]
}

/// The octet that `s` writes in hexadecimal: exactly two hexadecimal digits.
/// `None` for every other text.
pub open spec fn hex_octet(s: Seq<char>) -> Option<u8> {
    if s.len() == 2 && hex_value(s[0]) is Some && hex_value(s[1]) is Some {
        Some((hex_value(s[0])->0 * 16 + hex_value(s[1])->0) as u8)
    } else {
        None
    }
}

/// The weight of bit `k` of an octet, bit 0 being the most significant.
pub open spec fn bit_weight(k: int) -> int {
    if k == 0 {
        128
    } else if k == 1 {
        64
    } else if k == 2 {
        32
    } else if k == 3 {
        16
    } else if k == 4 {
        8
    } else if k == 5 {
        4
    } else if k == 6 {
        2
    } else {
        1
    }
}

/// Bit `k` of `x`, bit 0 being the most significant.
pub open spec fn octet_bit(x: u8, k: int) -> bool {
    (x as int / bit_weight(k)) % 2 == 1
}

/// `x` as eight binary digits, most significant first.
pub open spec fn binary_text(x: u8) -> Seq<char> {
    Seq::new(
        8,
        |k: int|
            if octet_bit(x, k) {
                '1'
            } else {
                '0'
            },
    )
}

/// `s` cut at every `sep`: the pieces between the separators, in order. A
/// text without separator is one piece; a separator at either end gives an
/// empty piece there.
pub open spec fn fields(s: Seq<char>, sep: char) -> Seq<Seq<char>>
    decreases s.len(),
{
    if s.len() == 0 {
        seq![Seq::<char>::empty()]
    } else {
        let before = fields(s.drop_last(), sep);
        if s.last() == sep {
            before.push(Seq::<char>::empty())
        } else {
            before.drop_last().push(before.last().push(s.last()))
        }
    }
}

/// The texts held by a sequence of character vectors.
pub open spec fn texts(parts: Seq<Vec<char>>) -> Seq<Seq<char>> {
    parts.map_values(|p: Vec<char>| p@)
}

/// Whether `sep` does not occur in `s`.
pub open spec fn free_of(s: Seq<char>, sep: char) -> bool {
    forall|i: int| 0 <= i < s.len() ==> #[trigger] s[i] != sep
}

/// Cutting always yields at least one piece.
pub proof fn lemma_fields_nonempty(s: Seq<char>, sep: char)
    ensures
        fields(s, sep).len() >= 1,
    decreases s.len(),
{
    if s.len() > 0 {
        lemma_fields_nonempty(s.drop_last(), sep);
    }
}

/// Text without separator, put behind `s`, lengthens the last piece of `s`.
pub proof fn lemma_fields_extend(s: Seq<char>, t: Seq<char>, sep: char)
    requires
        free_of(t, sep),
    ensures
        fields(s + t, sep) == fields(s, sep).drop_last().push(fields(s, sep).last() + t),
    decreases t.len(),
{
    lemma_fields_nonempty(s, sep);
    if t.len() == 0 {
        assert(s + t =~= s);
        assert(fields(s, sep).last() + t =~= fields(s, sep).last());
        assert(fields(s, sep).drop_last().push(fields(s, sep).last()) =~= fields(s, sep));
    } else {
        let t0 = t.drop_last();
        lemma_fields_extend(s, t0, sep);
        assert((s + t).drop_last() =~= s + t0);
        assert((s + t).last() == t.last());
        let f = fields(s, sep);
        assert((f.last() + t0).push(t.last()) =~= f.last() + t);
        assert(f.drop_last().push(f.last() + t0).drop_last() =~= f.drop_last());
    }
}

/// A separator and then text without separator, put behind `s`, add that
/// text as one more piece.
pub proof fn lemma_fields_append(s: Seq<char>, t: Seq<char>, sep: char)
    requires
        free_of(t, sep),
    ensures
        fields(s + seq![sep] + t, sep) == fields(s, sep).push(t),
{
    let s1 = s + seq![sep];
    assert(s1.drop_last() =~= s);
    assert(s1.last() == sep);
    assert(fields(s1, sep) == fields(s, sep).push(Seq::<char>::empty()));
    lemma_fields_extend(s1, t, sep);
    assert(fields(s1, sep).drop_last() =~= fields(s, sep));
    assert(Seq::<char>::empty() + t =~= t);
}

/// Text without separator is a single piece.
pub proof fn lemma_fields_single(t: Seq<char>, sep: char)
    requires
        free_of(t, sep),
    ensures
        fields(t, sep) == seq![t],
{
    let e = Seq::<char>::empty();
    lemma_fields_extend(e, t, sep);
    assert(e + t =~= t);
    assert(fields(e, sep) == seq![e]);
    assert(seq![e].drop_last().push(e + t) =~= seq![t]);
}

/// The decimal form of a number is made of digits only, is never empty, and
/// reads back as the number.
pub proof fn lemma_decimal_text(n: nat)
    ensures
        decimal_text(n).len() >= 1,
        all_digits(decimal_text(n)),
        digits_value(decimal_text(n)) == n,
    decreases n,
{
    if n < 10 {
        let s = decimal_text(n);
        assert(s.drop_last() =~= Seq::<char>::empty());
        assert(digits_value(s.drop_last()) == 0);
    } else {
        lemma_decimal_text(n / 10);
        let s = decimal_text(n);
        assert(s.drop_last() =~= decimal_text(n / 10));
    }
}

/// Reading the decimal form of an octet gives the octet back.
pub proof fn lemma_decimal_octet_round_trip(x: u8)
    ensures
        decimal_octet(decimal_text(x as nat)) == Some(x),
        free_of(decimal_text(x as nat), '.'),
{
    lemma_decimal_text(x as nat);
    let s = decimal_text(x as nat);
    assert(is_digit(s[0]));
}

/// Reading the hexadecimal form of an octet gives the octet back.
pub proof fn lemma_hex_octet_round_trip(x: u8)
    ensures
        hex_octet(hex_text(x)) == Some(x),
        free_of(hex_text(x), ':'),
{
}

/// The characters of `s`, in order.
pub fn chars_of(s: &str) -> (v: Vec<char>)
    ensures
        v@ == s@,
{
    let mut v: Vec<char> = Vec::new();
    for c in it: s.chars()
        invariant
            v@ == it.seq().take(it.index() as int),
    {
        v.push(c);
    }
    v
}

/// Cuts `text` at every `sep`.
pub fn split(text: &Vec<char>, sep: char) -> (parts: Vec<Vec<char>>)
    ensures
        texts(parts@) == fields(text@, sep),
{
    let mut parts: Vec<Vec<char>> = Vec::new();
    let mut current: Vec<char> = Vec::new();
    let mut i: usize = 0;
    assert(text@.take(0) =~= Seq::<char>::empty());
    assert(texts(parts@).push(current@) =~= seq![Seq::<char>::empty()]);
    while i < text.len()
        invariant
            i <= text.len(),
            texts(parts@).push(current@) == fields(text@.take(i as int), sep),
        decreases text.len() - i,
    {
        let c = text[i];
        proof {
            let next = text@.take(i + 1);
            assert(next.drop_last() =~= text@.take(i as int));
            assert(next.last() == c);
        }
        let ghost before = texts(parts@).push(current@);
        if c == sep {
            parts.push(current);
            current = Vec::new();
            assert(texts(parts@) =~= before);
        } else {
            current.push(c);
            assert(texts(parts@).push(current@) =~= before.drop_last().push(before.last().push(c)));
        }
        i += 1;
    }
    assert(text@.take(i as int) =~= text@);
    let ghost before = texts(parts@).push(current@);
    parts.push(current);
    assert(texts(parts@) =~= before);
    parts
}

/// Reads an octet written in decimal.
pub fn parse_decimal_octet(text: &Vec<char>) -> (r: Option<u8>)
    ensures
        r == decimal_octet(text@),
{
    let start: usize = if text.len() > 0 && text[0] == '+' {
        1
    } else {
        0
    };
    let ghost body = text@.skip(start as int);
    assert(text@.skip(0) =~= text@);
    if start >= text.len() {
        return None;
    }
    let mut value: u32 = 0;
    let mut i: usize = start;
    assert(body.take(0) =~= Seq::<char>::empty());
    while i < text.len()
        invariant
            start <= i <= text.len(),
            start < text.len(),
            body == text@.skip(start as int),
            body == if text@.len() > 0 && text@[0] == '+' {
                text@.skip(1)
            } else {
                text@
            },
            all_digits(body.take(i - start)),
            value == digits_value(body.take(i - start)),
            value <= 255,
        decreases text.len() - i,
    {
        let c = text[i];
        proof {
            let next = body.take(i - start + 1);
            assert(next.drop_last() =~= body.take(i - start));
            assert(next.last() == c);
            assert(body[i - start] == c);
        }
        if !('0' <= c && c <= '9') {
            assert(!all_digits(body));
            return None;
        }
        value = value * 10 + (c as u32 - '0' as u32);
        if value > 255 {
            proof {
                lemma_digits_value_grows(body, i - start + 1);
            }
            return None;
        }
        i += 1;
    }
    assert(body.take(i - start) =~= body);
    Some(value as u8)
}

/// Reads an octet written in decimal.
pub fn octet_from_string(s: &str) -> (r: Option<u8>)
    ensures
        r == decimal_octet(s@),
{
    let text = chars_of(s);
    parse_decimal_octet(&text)
}

/// The number written by a run of digits is at least the number written by
/// any of its beginnings.
pub proof fn lemma_digits_value_grows(s: Seq<char>, k: int)
    requires
        0 <= k <= s.len(),
    ensures
        digits_value(s.take(k)) <= digits_value(s),
    decreases s.len(),
{
    if k == s.len() {
        assert(s.take(k) =~= s);
    } else {
        lemma_digits_value_grows(s.drop_last(), k);
        assert(s.drop_last().take(k) =~= s.take(k));
    }
}

/// Reads one hexadecimal digit.
pub fn parse_hex_digit(c: char) -> (r: Option<u8>)
    ensures
        r == hex_value(c),
{
    if '0' <= c && c <= '9' {
        Some((c as u32 - '0' as u32) as u8)
    } else if 'a' <= c && c <= 'f' {
        Some((c as u32 - 'a' as u32 + 10) as u8)
    } else if 'A' <= c && c <= 'F' {
        Some((c as u32 - 'A' as u32 + 10) as u8)
    } else {
        None
    }
}

/// Reads an octet written as two hexadecimal digits.
pub fn parse_hex_octet(text: &Vec<char>) -> (r: Option<u8>)
    ensures
        r == hex_octet(text@),
{
    if text.len() != 2 {
        return None;
    }
    match (parse_hex_digit(text[0]), parse_hex_digit(text[1])) {
        (Some(high), Some(low)) => Some(high * 16 + low),
        _ => None,
    }
}

/// Appends `x` in decimal.
pub fn push_decimal(s: &mut String, x: u8)
    ensures
        final(s)@ == old(s)@ + decimal_text(x as nat),
{
    proof {
        reveal_with_fuel(decimal_text, 3);
    }
    if x >= 100 {
        s.push((48u8 + x / 100) as char);
    }
    if x >= 10 {
        s.push((48u8 + (x / 10) % 10) as char);
    }
    s.push((48u8 + x % 10) as char);
    assert(s@ =~= old(s)@ + decimal_text(x as nat));
}

/// Appends `x` as two upper-case hexadecimal digits.
pub fn push_hex(s: &mut String, x: u8)
    ensures
        final(s)@ == old(s)@ + hex_text(x),
{
    let high: u8 = x / 16;
    let low: u8 = x % 16;
    s.push(
        if high < 10 {
            (48u8 + high) as char
        } else {
            (55u8 + high) as char
        },
    );
    s.push(
        if low < 10 {
            (48u8 + low) as char
        } else {
            (55u8 + low) as char
        },
    );
    assert(s@ =~= old(s)@ + hex_text(x));
}

/// Reads bit `k` of `x`, bit 0 being the most significant.
pub fn bit_of(x: u8, k: u8) -> (b: bool)
    requires
        k < 8,
    ensures
        b == octet_bit(x, k as int),
{
    let weight: u8 = match k {
        0 => 128,
        1 => 64,
        2 => 32,
        3 => 16,
        4 => 8,
        5 => 4,
        6 => 2,
        _ => 1,
    };
    (x / weight) % 2 == 1
}

/// Appends `x` as eight binary digits.
pub fn push_binary(s: &mut String, x: u8)
    ensures
        final(s)@ == old(s)@ + binary_text(x),
{
    let mut k: u8 = 0;
    while k < 8
        invariant
            k <= 8,
            s@ == old(s)@ + binary_text(x).take(k as int),
        decreases 8 - k,
    {
        s.push(
            if bit_of(x, k) {
                '1'
            } else {
                '0'
            },
        );
        assert(s@ =~= old(s)@ + binary_text(x).take(k + 1));
        k += 1;
    }
    assert(binary_text(x).take(8) =~= binary_text(x));
}

} // verus!
