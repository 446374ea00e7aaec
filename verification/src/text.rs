use vstd::prelude::*;
use vstd::string::{StrSliceExecFns, StringExecFns, StringSliceAdditionalSpecFns};

verus! {

broadcast use vstd::utf8::is_char_boundary_iff_not_is_continuation_byte,
    vstd::utf8::is_char_boundary_start_end_of_seq, vstd::utf8::valid_utf8_split,
    vstd::utf8::encode_utf8_valid_utf8;

/// The UTF-8 bytes of a string slice.
pub open spec fn bytes_of(s: &str) -> Seq<u8> {
    s.spec_bytes()
}

/// A byte position that does not fall inside the encoding of a character.
pub open spec fn on_boundary(b: Seq<u8>, i: int) -> bool {
    0 <= i <= b.len() && (i == b.len() || !vstd::utf8::is_continuation_byte(b[i]))
}

/// In a string's bytes, the byte after an ASCII byte starts a character.
pub proof fn lemma_ascii_next_boundary(text: &str, i: int)
    requires
        0 <= i < bytes_of(text).len(),
        on_boundary(bytes_of(text), i),
        bytes_of(text)[i] < 128,
    ensures
        on_boundary(bytes_of(text), i + 1),
{
    let b = bytes_of(text);
    vstd::utf8::encode_utf8_valid_utf8(text@);
    vstd::utf8::is_char_boundary_iff_not_is_continuation_byte(b, i);
    vstd::utf8::valid_utf8_split(b, i);
    let s = b.subrange(i, b.len() as int);
    assert(s[0] == b[i]);
    reveal_with_fuel(vstd::utf8::valid_utf8, 2);
    let rest = vstd::utf8::pop_first_scalar(s);
    assert(rest =~= b.subrange(i + 1, b.len() as int));
    if i + 1 < b.len() {
        vstd::utf8::is_char_boundary_start_end_of_seq(rest);
        vstd::utf8::is_char_boundary_iff_not_is_continuation_byte(rest, 0);
        assert(rest[0] == b[i + 1]);
    }
}

/// ASCII decimal digit.
pub open spec fn is_digit(c: u8) -> bool {
    48 <= c <= 57
}

/// ASCII letter.
pub open spec fn is_letter(c: u8) -> bool {
    (97 <= c <= 122) || (65 <= c <= 90)
}

/// Horizontal whitespace: space, tab or carriage return.
pub open spec fn is_blank(c: u8) -> bool {
    c == 32 || c == 9 || c == 13
}

pub fn byte_is_digit(c: u8) -> (r: bool)
    ensures
        r == is_digit(c),
{
    48 <= c && c <= 57
}

pub fn byte_is_letter(c: u8) -> (r: bool)
    ensures
        r == is_letter(c),
{
    (97 <= c && c <= 122) || (65 <= c && c <= 90)
}

pub fn byte_is_blank(c: u8) -> (r: bool)
    ensures
        r == is_blank(c),
{
    c == 32 || c == 9 || c == 13
}

/// The part of `text` between the byte offsets `start` and `end`.
pub fn slice_str<'a>(text: &'a str, start: usize, end: usize) -> (r: &'a str)
    requires
        start <= end <= bytes_of(text).len(),
        on_boundary(bytes_of(text), start as int),
        on_boundary(bytes_of(text), end as int),
    ensures
        bytes_of(r) == bytes_of(text).subrange(start as int, end as int),
{
    let ghost b = bytes_of(text);
    proof {
        vstd::utf8::encode_utf8_valid_utf8(text@);
        if start < b.len() {
            vstd::utf8::is_char_boundary_iff_not_is_continuation_byte(b, start as int);
        } else {
            vstd::utf8::is_char_boundary_start_end_of_seq(b);
        }
    }
    let (_, rest) = text.split_at(start);
    let ghost rb = bytes_of(rest);
    proof {
        vstd::utf8::valid_utf8_split(b, start as int);
        assert(rb =~= b.subrange(start as int, b.len() as int));
        if end < b.len() {
            assert(rb[end - start] == b[end as int]);
            vstd::utf8::is_char_boundary_iff_not_is_continuation_byte(rb, end - start);
        } else {
            vstd::utf8::is_char_boundary_start_end_of_seq(rb);
        }
    }
    let (value, _) = rest.split_at(end - start);
    proof {
        assert(bytes_of(value) =~= b.subrange(start as int, end as int));
    }
    value
}

/// The decimal digits of `n`.
pub open spec fn decimal(n: nat) -> Seq<char>
    decreases n,
{
    if n < 10 {
        seq![digit_char(n)]
    } else {
        decimal(n / 10) + seq![digit_char(n % 10)]
    }
}

/// The character of a decimal digit.
pub open spec fn digit_char(d: nat) -> char {
    if d == 0 {
        '0'
    } else if d == 1 {
        '1'
    } else if d == 2 {
        '2'
    } else if d == 3 {
        '3'
    } else if d == 4 {
        '4'
    } else if d == 5 {
        '5'
    } else if d == 6 {
        '6'
    } else if d == 7 {
        '7'
    } else if d == 8 {
        '8'
    } else {
        '9'
    }
}

fn digit_str(d: usize) -> (r: &'static str)
    requires
        d < 10,
    ensures
        r@ == seq![digit_char(d as nat)],
{
    proof {
        reveal_strlit("0");
        reveal_strlit("1");
        reveal_strlit("2");
        reveal_strlit("3");
        reveal_strlit("4");
        reveal_strlit("5");
        reveal_strlit("6");
        reveal_strlit("7");
        reveal_strlit("8");
        reveal_strlit("9");
    }
    let r = if d == 0 {
        "0"
    } else if d == 1 {
        "1"
    } else if d == 2 {
        "2"
    } else if d == 3 {
        "3"
    } else if d == 4 {
        "4"
    } else if d == 5 {
        "5"
    } else if d == 6 {
        "6"
    } else if d == 7 {
        "7"
    } else if d == 8 {
        "8"
    } else {
        "9"
    };
    assert(r@ =~= seq![digit_char(d as nat)]);
    r
}

/// Writes `n` in decimal.
pub fn write_decimal(out: &mut String, n: usize)
    ensures
        final(out)@ == old(out)@ + decimal(n as nat),
    decreases n,
{
    if n >= 10 {
        write_decimal(out, n / 10);
    }
    out.append(digit_str(n % 10));
    assert(out@ =~= old(out)@ + decimal(n as nat));
}

/// Whether two texts hold the same characters.
pub fn same_chars(a: &str, b: &str) -> (r: bool)
    ensures
        r == (a@ == b@),
{
    let n = a.unicode_len();
    if n != b.unicode_len() {
        return false;
    }
    let mut i: usize = 0;
    while i < n
        invariant
            n == a@.len(),
            n == b@.len(),
            i <= n,
            forall|k: int| 0 <= k < i ==> a@[k] == b@[k],
        decreases n - i,
    {
        if a.get_char(i) != b.get_char(i) {
            return false;
        }
        i = i + 1;
    }
    assert(a@ =~= b@);
    true
}

} // verus!
