//! Text building blocks: character buffers, decimal numbers, padding and
//! truncation.
use vstd::prelude::*;
use vstd::utf8::decode_utf8;
use vstd::utf8::encode_utf8;
use vstd::utf8::is_char_boundary;
use vstd::string::StringExecFns;
use vstd::string::StringSliceAdditionalSpecFns;

verus! {

/// The characters of `s`, in order.
pub fn str_chars(s: &str) -> (v: Vec<char>)
    ensures
        v@ == s@,
{
    let mut v: Vec<char> = Vec::new();
    proof {
        broadcast use vstd::string::axiom_spec_iter;
    }
    for c in it: s.chars()
        invariant
            v@ == it.seq().take(it.index() as int),
    {
        v.push(c);
    }
    v
}

/// Collects characters into a `String` (std's `FromIterator` for `String`).
#[verifier::external_body]
pub fn chars_to_string(v: &Vec<char>) -> (s: String)
    ensures
        s@ == v@,
{
    String::from_iter(v)
}

/// Appends the characters of `s` to `out`.
pub fn push_str(out: &mut Vec<char>, s: &str)
    ensures
        final(out)@ == old(out)@ + s@,
{
    let ghost start = out@;
    proof {
        broadcast use vstd::string::axiom_spec_iter;
    }
    for c in it: s.chars()
        invariant
            out@ == start + it.seq().take(it.index() as int),
    {
        out.push(c);
        proof {
            assert(it.seq().take(it.index() + 1) == it.seq().take(it.index() as int).push(c));
        }
    }
}

/// Appends the characters of `s` to `out`.
pub fn push_chars(out: &mut Vec<char>, s: &Vec<char>)
    ensures
        final(out)@ == old(out)@ + s@,
{
    let ghost start = out@;
    let n = s.len();
    for i in 0..n
        invariant
            n == s@.len(),
            out@ == start + s@.take(i as int),
    {
        out.push(s[i]);
        proof {
            assert(s@.take(i + 1) == s@.take(i as int).push(s@[i as int]));
        }
    }
    proof {
        assert(s@.take(n as int) == s@);
    }
}

/// `n` copies of the character `c`.
pub open spec fn repeat_char(c: char, n: nat) -> Seq<char> {
    Seq::new(n, |i: int| c)
}

/// Appends `n` copies of `c` to `out`.
pub fn push_repeat(out: &mut Vec<char>, c: char, n: usize)
    ensures
        final(out)@ == old(out)@ + repeat_char(c, n as nat),
{
    let ghost start = out@;
    for i in 0..n
        invariant
            out@ == start + repeat_char(c, i as nat),
    {
        out.push(c);
        proof {
            assert(repeat_char(c, (i + 1) as nat) == repeat_char(c, i as nat).push(c));
        }
    }
}

/// `s` right-aligned in a field of `width` characters, as `{:>width$}` lays
/// it out: spaces in front when it is shorter, unchanged otherwise.
pub open spec fn pad_left(s: Seq<char>, width: nat) -> Seq<char> {
    if s.len() < width {
        repeat_char(' ', (width - s.len()) as nat) + s
    } else {
        s
    }
}

/// `s` left-aligned in a field of `width` characters, as `{:<width$}` lays
/// it out: spaces after it when it is shorter, unchanged otherwise.
pub open spec fn pad_right(s: Seq<char>, width: nat) -> Seq<char> {
    if s.len() < width {
        s + repeat_char(' ', (width - s.len()) as nat)
    } else {
        s
    }
}

/// Padding fills a field of `width` characters, or leaves a longer text
/// whole: right-aligned text ends with the text and begins with blanks,
/// left-aligned text begins with the text and ends with blanks.
pub proof fn lemma_padding(s: Seq<char>, width: nat)
    ensures
        pad_left(s, width).len() == if s.len() < width {
            width as int
        } else {
            s.len() as int
        },
        pad_right(s, width).len() == pad_left(s, width).len(),
        pad_left(s, width).subrange(pad_left(s, width).len() - s.len(), pad_left(s, width).len() as int)
            == s,
        pad_right(s, width).take(s.len() as int) == s,
        forall|k: int|
            0 <= k < pad_left(s, width).len() - s.len() ==> #[trigger] pad_left(s, width)[k] == ' ',
        forall|k: int|
            s.len() <= k < pad_right(s, width).len() ==> #[trigger] pad_right(s, width)[k] == ' ',
{
    let l = pad_left(s, width);
    let r = pad_right(s, width);
    assert(l.subrange(l.len() - s.len(), l.len() as int) =~= s);
    assert(r.take(s.len() as int) =~= s);
}

/// Appends `s` right-aligned in a field of `width` characters.
pub fn push_padded_left(out: &mut Vec<char>, s: &Vec<char>, width: usize)
    ensures
        final(out)@ == old(out)@ + pad_left(s@, width as nat),
{
    if s.len() < width {
        push_repeat(out, ' ', width - s.len());
    }
    push_chars(out, s);
}

/// Appends `s` left-aligned in a field of `width` characters.
pub fn push_padded_right(out: &mut Vec<char>, s: &Vec<char>, width: usize)
    ensures
        final(out)@ == old(out)@ + pad_right(s@, width as nat),
{
    push_chars(out, s);
    if s.len() < width {
        push_repeat(out, ' ', width - s.len());
    }
}

/// The ASCII digit for `d`, which is below ten.
pub open spec fn digit_char(d: int) -> char {
    (48 + d) as char
}

/// The decimal numeral of `n`, as `{}` writes an unsigned integer.
pub open spec fn decimal(n: nat) -> Seq<char>
    decreases n,
{
    if n < 10 {
        seq![digit_char(n as int)]
    } else {
        decimal(n / 10).push(digit_char((n % 10) as int))
    }
}

/// Appends the decimal numeral of `n` to `out`.
pub fn push_decimal(out: &mut Vec<char>, n: usize)
    ensures
        final(out)@ == old(out)@ + decimal(n as nat),
    decreases n,
{
    if n >= 10 {
        push_decimal(out, n / 10);
    }
    let d = (n % 10) as u8;
    out.push((48u8 + d) as char);
}

/// The decimal numeral of `n`.
pub fn decimal_chars(n: usize) -> (v: Vec<char>)
    ensures
        v@ == decimal(n as nat),
{
    let mut v: Vec<char> = Vec::new();
    push_decimal(&mut v, n);
    v
}

/// The value of a string of decimal digits.
pub open spec fn digits_value(s: Seq<char>) -> nat
    decreases s.len(),
{
    if s.len() == 0 {
        0
    } else {
        digits_value(s.drop_last()) * 10 + ((s.last() as int - 48) as nat)
    }
}

/// The character is one of the ASCII digits `0` to `9`.
pub open spec fn is_digit(c: char) -> bool {
    48 <= c as int <= 57
}

/// Decimal numerals are made of digits, begin with `0` only for zero itself,
/// and read back as the number they were made from.
pub proof fn lemma_decimal_round_trip(n: nat)
    ensures
        decimal(n).len() >= 1,
        forall|k: int| 0 <= k < decimal(n).len() ==> is_digit(#[trigger] decimal(n)[k]),
        decimal(n)[0] == '0' ==> n == 0,
        digits_value(decimal(n)) == n,
    decreases n,
{
    if n >= 10 {
        lemma_decimal_round_trip(n / 10);
        let p = decimal(n / 10);
        assert(decimal(n).drop_last() == p);
        assert forall|k: int| 0 <= k < decimal(n).len() implies is_digit(
            #[trigger] decimal(n)[k],
        ) by {
            if k < p.len() {
                assert(decimal(n)[k] == p[k]);
            }
        }
        assert(decimal(n)[0] == p[0]);
    } else {
        assert(digits_value(decimal(n).drop_last()) == 0);
    }
}

/// Cuts `s` to its first `max` bytes and marks the cut with `…`; a string of
/// at most `max` bytes comes back whole.
///
/// A string longer than `max` bytes must have a character boundary at byte
/// `max`; a string's length in bytes always fits in `usize`.
pub fn truncate(s: &str, max: usize) -> (res: String)
    requires
        s.spec_bytes().len() <= usize::MAX,
        s.spec_bytes().len() > max ==> is_char_boundary(s.spec_bytes(), max as int),
    ensures
        s.spec_bytes().len() <= max ==> res@ == s@,
        s.spec_bytes().len() > max ==> res@ == decode_utf8(s.spec_bytes().take(max as int)).push(
            '…',
        ),
        s.spec_bytes().len() > max ==> res@.drop_last().is_prefix_of(s@),
{
    if s.len() > max {
        let (head, _tail) = s.split_at(max);
        let mut r = String::from_str(head);
        r.append("…");
        proof {
            reveal_strlit("…");
            let bytes = s.spec_bytes();
            vstd::utf8::encode_utf8_decode_utf8(head@);
            vstd::utf8::encode_utf8_decode_utf8(s@);
            vstd::utf8::encode_utf8_valid_utf8(s@);
            vstd::utf8::decode_utf8_split(bytes, max as int);
            assert(bytes.take(max as int) == bytes.subrange(0, max as int));
            assert(head@ == decode_utf8(bytes.take(max as int)));
            assert(s@ == head@ + decode_utf8(bytes.subrange(max as int, bytes.len() as int)));
            assert("…"@ == seq!['…']);
            assert(r@ == head@.push('…'));
            assert(r@.drop_last() == head@);
            assert(head@.is_prefix_of(s@)) by {
                assert(s@.take(head@.len() as int) == head@);
            }
        }
        r
    } else {
        s.to_owned()
    }
}

} // verus!
