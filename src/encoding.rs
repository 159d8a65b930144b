//! Mathematical model of the standard base64 alphabet (with padding) and of
//! trailing-whitespace trimming, with the facts the token format relies on.
use vstd::prelude::*;

verus! {

/// The character for a 6-bit value in the standard base64 alphabet.
pub open spec fn b64_digit(i: int) -> char {
    if i < 26 {
        (i + 65) as char
    } else if i < 52 {
        (i + 71) as char
    } else if i < 62 {
        (i - 4) as char
    } else if i == 62 {
        '+'
    } else {
        '/'
    }
}

/// Standard base64 with `=` padding, three bytes to four characters.
pub open spec fn base64_of(b: Seq<u8>) -> Seq<char>
    decreases b.len(),
{
    if b.len() == 0 {
        seq![]
    } else if b.len() == 1 {
        let x = b[0] as int;
        seq![b64_digit(x / 4), b64_digit((x % 4) * 16), '=', '=']
    } else if b.len() == 2 {
        let x = b[0] as int;
        let y = b[1] as int;
        seq![b64_digit(x / 4), b64_digit((x % 4) * 16 + y / 16), b64_digit((y % 16) * 4), '=']
    } else {
        let x = b[0] as int;
        let y = b[1] as int;
        let z = b[2] as int;
        seq![
            b64_digit(x / 4),
            b64_digit((x % 4) * 16 + y / 16),
            b64_digit((y % 16) * 4 + z / 64),
            b64_digit(z % 64),
        ] + base64_of(b.skip(3))
    }
}

/// The text is the base64 form of some byte string.
pub open spec fn is_base64(s: Seq<char>) -> bool {
    exists|v: Seq<u8>| base64_of(v) == s
}

/// The bytes whose base64 form is `s` (meaningful when `is_base64(s)`).
pub open spec fn base64_value(s: Seq<char>) -> Seq<u8> {
    choose|v: Seq<u8>| base64_of(v) == s
}

/// Unicode `White_Space`, the set that `char::is_whitespace` tests.
pub open spec fn is_whitespace(c: char) -> bool {
    let u = c as u32;
    (9 <= u && u <= 13) || u == 32 || u == 0x85 || u == 0xA0 || u == 0x1680 || (0x2000 <= u
        && u <= 0x200A) || u == 0x2028 || u == 0x2029 || u == 0x202F || u == 0x205F || u
        == 0x3000
}

/// The text with all trailing whitespace removed.
pub open spec fn trim_end(s: Seq<char>) -> Seq<char>
    decreases s.len(),
{
    if s.len() > 0 && is_whitespace(s.last()) {
        trim_end(s.drop_last())
    } else {
        s
    }
}

/// Each digit is a distinct ASCII, non-whitespace character other than `=`.
pub proof fn lemma_digit(i: int)
    requires
        0 <= i < 64,
    ensures
        b64_digit(i) != '=',
        '\0' <= b64_digit(i) <= '\u{7f}',
        !is_whitespace(b64_digit(i)),
        forall|j: int| 0 <= j < 64 && #[trigger] b64_digit(j) == b64_digit(i) ==> j == i,
{
    assert forall|j: int| 0 <= j < 64 && #[trigger] b64_digit(j) == b64_digit(i) implies j
        == i by {
        assert(b64_digit(j) as u32 == b64_digit(i) as u32);
    }
}

/// The base64 form of `n` bytes has `4 * ceil(n / 3)` characters.
pub proof fn lemma_base64_len(b: Seq<u8>)
    ensures
        base64_of(b).len() == 4 * ((b.len() + 2) / 3),
    decreases b.len(),
{
    if b.len() >= 3 {
        lemma_base64_len(b.skip(3));
    }
}

/// Every character of a base64 form is ASCII and none is whitespace.
pub proof fn lemma_base64_chars(b: Seq<u8>)
    ensures
        forall|i: int|
            0 <= i < base64_of(b).len() ==> !is_whitespace(#[trigger] base64_of(b)[i])
                && '\0' <= base64_of(b)[i] <= '\u{7f}',
    decreases b.len(),
{
    if b.len() > 0 {
        let x = b[0] as int;
        lemma_digit(x / 4);
        if b.len() == 1 {
            lemma_digit((x % 4) * 16);
        } else {
            let y = b[1] as int;
            lemma_digit((x % 4) * 16 + y / 16);
            if b.len() == 2 {
                lemma_digit((y % 16) * 4);
            } else {
                let z = b[2] as int;
                lemma_digit((y % 16) * 4 + z / 64);
                lemma_digit(z % 64);
                lemma_base64_chars(b.skip(3));
                let head = seq![
                    b64_digit(x / 4),
                    b64_digit((x % 4) * 16 + y / 16),
                    b64_digit((y % 16) * 4 + z / 64),
                    b64_digit(z % 64),
                ];
                let rest = base64_of(b.skip(3));
                assert(base64_of(b) == head + rest);
                assert forall|i: int| 0 <= i < base64_of(b).len() implies !is_whitespace(
                    #[trigger] base64_of(b)[i],
                ) && '\0' <= base64_of(b)[i] <= '\u{7f}' by {
                    if i >= 4 {
                        assert(base64_of(b)[i] == rest[i - 4]);
                    }
                }
            }
        }
    }
}

/// Text without whitespace is left as it is by trimming.
pub proof fn lemma_trim_end_no_whitespace(s: Seq<char>)
    requires
        forall|i: int| 0 <= i < s.len() ==> !is_whitespace(#[trigger] s[i]),
    ensures
        trim_end(s) == s,
{
    if s.len() > 0 {
        assert(!is_whitespace(s[s.len() - 1]));
    }
}

proof fn lemma_digits_eq(i: int, j: int)
    requires
        0 <= i < 64,
        0 <= j < 64,
        b64_digit(i) == b64_digit(j),
    ensures
        i == j,
{
    lemma_digit(i);
}

proof fn lemma_byte_eq(x: int, y: int)
    requires
        0 <= x < 256,
        0 <= y < 256,
        x / 4 == y / 4,
        x % 4 == y % 4,
    ensures
        x == y,
{
}

proof fn lemma_byte_eq16(x: int, y: int)
    requires
        0 <= x < 256,
        0 <= y < 256,
        x / 16 == y / 16,
        x % 16 == y % 16,
    ensures
        x == y,
{
}

proof fn lemma_byte_eq64(x: int, y: int)
    requires
        0 <= x < 256,
        0 <= y < 256,
        x / 64 == y / 64,
        x % 64 == y % 64,
    ensures
        x == y,
{
}

/// The first four characters of a non-empty base64 form.
proof fn lemma_base64_head(b: Seq<u8>)
    requires
        b.len() > 0,
    ensures
        base64_of(b).len() >= 4,
        base64_of(b)[0] == b64_digit(b[0] as int / 4),
        base64_of(b)[1] == b64_digit(
            (b[0] as int % 4) * 16 + if b.len() >= 2 {
                b[1] as int / 16
            } else {
                0
            },
        ),
        b.len() == 1 ==> base64_of(b)[2] == '=',
        b.len() >= 2 ==> base64_of(b)[2] == b64_digit(
            (b[1] as int % 16) * 4 + if b.len() >= 3 {
                b[2] as int / 64
            } else {
                0
            },
        ),
        b.len() <= 2 ==> base64_of(b)[3] == '=',
        b.len() >= 3 ==> base64_of(b)[3] == b64_digit(b[2] as int % 64),
        b.len() >= 3 ==> base64_of(b.skip(3)) == base64_of(b).skip(4),
{
    lemma_base64_len(b);
    if b.len() >= 3 {
        assert(base64_of(b.skip(3)) =~= base64_of(b).skip(4));
    }
}

/// Distinct byte strings have distinct base64 forms.
pub proof fn lemma_base64_injective(a: Seq<u8>, b: Seq<u8>)
    requires
        base64_of(a) == base64_of(b),
    ensures
        a == b,
    decreases a.len(),
{
    lemma_base64_len(a);
    lemma_base64_len(b);
    if a.len() == 0 || b.len() == 0 {
        assert(a =~= b);
    } else {
        lemma_base64_head(a);
        lemma_base64_head(b);
        let xa = a[0] as int;
        let xb = b[0] as int;
        let ya = if a.len() >= 2 { a[1] as int } else { 0 };
        let yb = if b.len() >= 2 { b[1] as int } else { 0 };
        let za = if a.len() >= 3 { a[2] as int } else { 0 };
        let zb = if b.len() >= 3 { b[2] as int } else { 0 };
        lemma_digits_eq(xa / 4, xb / 4);
        lemma_digits_eq((xa % 4) * 16 + ya / 16, (xb % 4) * 16 + yb / 16);
        lemma_byte_eq(xa, xb);
        if a.len() >= 2 {
            lemma_digit((ya % 16) * 4 + za / 64);
        }
        if b.len() >= 2 {
            lemma_digit((yb % 16) * 4 + zb / 64);
        }
        if a.len() >= 3 {
            lemma_digit(za % 64);
        }
        if b.len() >= 3 {
            lemma_digit(zb % 64);
        }
        if a.len() >= 2 && b.len() >= 2 {
            lemma_digits_eq((ya % 16) * 4 + za / 64, (yb % 16) * 4 + zb / 64);
            lemma_byte_eq16(ya, yb);
        }
        if a.len() >= 3 && b.len() >= 3 {
            lemma_digits_eq(za % 64, zb % 64);
            lemma_byte_eq64(za, zb);
            lemma_base64_injective(a.skip(3), b.skip(3));
            assert forall|i: int| 0 <= i < a.len() implies a[i] == b[i] by {
                if i >= 3 {
                    assert(a[i] == a.skip(3)[i - 3]);
                    assert(b[i] == b.skip(3)[i - 3]);
                }
            }
        }
        assert(a =~= b);
    }
}

/// The bytes read back from a base64 form are those it was made from.
pub proof fn lemma_base64_value(b: Seq<u8>)
    ensures
        is_base64(base64_of(b)),
        base64_value(base64_of(b)) == b,
{
    assert(is_base64(base64_of(b)));
    lemma_base64_injective(base64_value(base64_of(b)), b);
}

/// Trimming never makes a text longer.
pub proof fn lemma_trim_end_len(s: Seq<char>)
    ensures
        trim_end(s).len() <= s.len(),
    decreases s.len(),
{
    if s.len() > 0 && is_whitespace(s.last()) {
        lemma_trim_end_len(s.drop_last());
    }
}

} // verus!
