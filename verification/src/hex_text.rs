//! Hexadecimal text: lowercase two-digit encoding of bytes, its decoding
//! (either case accepted), and the shortest lowercase rendering of a number.
use vstd::prelude::*;

verus! {

/// The lowercase hexadecimal digit of `d` (`d < 16`).
pub open spec fn hex_digit(d: nat) -> char {
    if d < 10 {
        ((d + 48) as u8) as char
    } else {
        ((d + 87) as u8) as char
    }
}

/// Whether `c` is a hexadecimal digit of either case.
pub open spec fn is_hex_char(c: char) -> bool {
    ('0' <= c && c <= '9') || ('a' <= c && c <= 'f') || ('A' <= c && c <= 'F')
}

/// The value of a hexadecimal digit.
pub open spec fn hex_val(c: char) -> nat {
    if '0' <= c && c <= '9' {
        (c as int - 48) as nat
    } else if 'a' <= c && c <= 'f' {
        (c as int - 87) as nat
    } else {
        (c as int - 55) as nat
    }
}

/// Each byte as two lowercase hexadecimal digits, high digit first.
pub open spec fn hex_encoding(b: Seq<u8>) -> Seq<char> {
    Seq::new(
        2 * b.len(),
        |i: int|
            if i % 2 == 0 {
                hex_digit((b[i / 2] / 16) as nat)
            } else {
                hex_digit((b[i / 2] % 16) as nat)
            },
    )
}

/// The bytes that a hexadecimal text stands for: none when the text has an
/// odd number of characters or a character that is not a hexadecimal digit.
pub open spec fn hex_decoding(s: Seq<char>) -> Option<Seq<u8>> {
    if s.len() % 2 != 0 || exists|i: int| 0 <= i < s.len() && !is_hex_char(#[trigger] s[i]) {
        None
    } else {
        Some(Seq::new((s.len() / 2) as nat, |i: int| (hex_val(s[2 * i]) * 16 + hex_val(s[2 * i + 1])) as u8))
    }
}

/// The shortest lowercase hexadecimal rendering of `n` (`0` is `"0"`).
pub open spec fn hex_number(n: nat) -> Seq<char>
    decreases n,
{
    if n < 16 {
        seq![hex_digit(n)]
    } else {
        hex_number(n / 16).push(hex_digit(n % 16))
    }
}

/// A digit read back gives its value.
pub proof fn lemma_hex_digit_val(d: nat)
    requires
        d < 16,
    ensures
        is_hex_char(hex_digit(d)),
        hex_val(hex_digit(d)) == d,
{
}

/// Decoding an encoding gives the bytes back.
pub proof fn lemma_hex_roundtrip(b: Seq<u8>)
    ensures
        hex_decoding(hex_encoding(b)) == Some(b),
{
    let e = hex_encoding(b);
    assert forall|i: int| 0 <= i < e.len() implies is_hex_char(#[trigger] e[i]) by {
        if i % 2 == 0 {
            lemma_hex_digit_val((b[i / 2] / 16) as nat);
        } else {
            lemma_hex_digit_val((b[i / 2] % 16) as nat);
        }
    }
    let d = Seq::new((e.len() / 2) as nat, |i: int| (hex_val(e[2 * i]) * 16 + hex_val(e[2 * i + 1])) as u8);
    assert forall|i: int| 0 <= i < b.len() implies d[i] == b[i] by {
        lemma_hex_digit_val((b[i] / 16) as nat);
        lemma_hex_digit_val((b[i] % 16) as nat);
        assert((2 * i) / 2 == i);
        assert((2 * i + 1) / 2 == i);
        assert((2 * i) % 2 == 0);
        assert((2 * i + 1) % 2 == 1);
    }
    assert(d =~= b);
}

fn hex_digit_char(d: u8) -> (c: char)
    requires
        d < 16,
    ensures
        c == hex_digit(d as nat),
{
    if d < 10 {
        (d + 48) as char
    } else {
        (d + 87) as char
    }
}

/// Lowercase hexadecimal text of `data`, two digits per byte.
pub fn hex_encode(data: &[u8]) -> (s: String)
    ensures
        s@ == hex_encoding(data@),
{
    let mut s = String::new();
    let mut i: usize = 0;
    while i < data.len()
        invariant
            i <= data@.len(),
            s@ =~= hex_encoding(data@.take(i as int)),
        decreases data.len() - i,
    {
        let b = data[i];
        let ghost before = s@;
        s.push(hex_digit_char(b / 16));
        s.push(hex_digit_char(b % 16));
        proof {
            let t = data@.take(i + 1);
            assert forall|k: int| 0 <= k < 2 * (i + 1) implies #[trigger] s@[k] == hex_encoding(t)[k] by {
                if k < 2 * i {
                    assert(k / 2 < i);
                    assert(t[k / 2] == data@.take(i as int)[k / 2]);
                } else if k == 2 * i {
                    assert(k / 2 == i);
                } else {
                    assert(k / 2 == i);
                }
            }
            assert(s@ =~= hex_encoding(t));
        }
        i = i + 1;
    }
    proof {
        assert(data@.take(data@.len() as int) =~= data@);
    }
    s
}

fn hex_char_value(c: char) -> (r: Option<u8>)
    ensures
        r is Some <==> is_hex_char(c),
        r matches Some(v) ==> v as nat == hex_val(c) && v < 16,
{
    if '0' <= c && c <= '9' {
        Some(((c as u32) - 48) as u8)
    } else if 'a' <= c && c <= 'f' {
        Some(((c as u32) - 87) as u8)
    } else if 'A' <= c && c <= 'F' {
        Some(((c as u32) - 55) as u8)
    } else {
        None
    }
}

/// The bytes of a hexadecimal text, or `None` when it has an odd number of
/// characters or a character that is not a hexadecimal digit.
pub fn hex_decode(s: &str) -> (r: Option<Vec<u8>>)
    ensures
        match r {
            Some(v) => hex_decoding(s@) == Some(v@),
            None => hex_decoding(s@) is None,
        },
{
    let n = s.unicode_len();
    if n % 2 != 0 {
        return None;
    }
    let mut out: Vec<u8> = Vec::new();
    let mut i: usize = 0;
    while i < n / 2
        invariant
            n == s@.len(),
            n % 2 == 0,
            i <= n / 2,
            out@.len() == i,
            forall|j: int| 0 <= j < 2 * i ==> is_hex_char(#[trigger] s@[j]),
            forall|j: int|
                0 <= j < i ==> #[trigger] out@[j] == (hex_val(s@[2 * j]) * 16 + hex_val(s@[2 * j + 1])) as u8,
        decreases n / 2 - i,
    {
        let hi = hex_char_value(s.get_char(2 * i));
        let lo = hex_char_value(s.get_char(2 * i + 1));
        match (hi, lo) {
            (Some(h), Some(l)) => {
                out.push(h * 16 + l);
            },
            _ => {
                proof {
                    if hi is None {
                        assert(!is_hex_char(s@[2 * i as int]));
                    } else {
                        assert(!is_hex_char(s@[2 * i + 1]));
                    }
                }
                return None;
            },
        }
        i = i + 1;
    }
    proof {
        assert forall|j: int| 0 <= j < s@.len() implies is_hex_char(#[trigger] s@[j]) by {
            assert(j < 2 * i);
        }
        let d = Seq::new((s@.len() / 2) as nat, |k: int| (hex_val(s@[2 * k]) * 16 + hex_val(s@[2 * k + 1])) as u8);
        assert(out@ =~= d);
    }
    Some(out)
}

/// Appends the shortest lowercase hexadecimal rendering of `n`.
pub fn push_hex_number(out: &mut String, n: u64)
    ensures
        final(out)@ == old(out)@ + hex_number(n as nat),
    decreases n,
{
    if n < 16 {
        out.push(hex_digit_char(n as u8));
        assert(old(out)@.push(hex_digit(n as nat)) =~= old(out)@ + seq![hex_digit(n as nat)]);
    } else {
        push_hex_number(out, n / 16);
        out.push(hex_digit_char((n % 16) as u8));
        assert(old(out)@ + hex_number((n / 16) as nat) + seq![hex_digit((n % 16) as nat)]
            =~= old(out)@ + hex_number(n as nat));
    }
}

} // verus!
