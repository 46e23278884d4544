//! String building blocks shared by the other modules: character pushes,
//! decimal rendering of integers, and copying string lists.
use vstd::prelude::*;

verus! {

/// `String::push` appends one character.
pub assume_specification[ String::push ](s: &mut String, ch: char)
    ensures
        final(s)@ == old(s)@.push(ch),
;

/// Decimal digits of `n`, most significant first (`0` is `"0"`).
pub open spec fn decimal(n: nat) -> Seq<char>
    decreases n,
{
    if n < 10 {
        seq![digit_char(n)]
    } else {
        decimal(n / 10).push(digit_char(n % 10))
    }
}

/// The ASCII character of a decimal digit.
pub open spec fn digit_char(d: nat) -> char {
    if d == 0 { '0' }
    else if d == 1 { '1' }
    else if d == 2 { '2' }
    else if d == 3 { '3' }
    else if d == 4 { '4' }
    else if d == 5 { '5' }
    else if d == 6 { '6' }
    else if d == 7 { '7' }
    else if d == 8 { '8' }
    else { '9' }
}

/// The number a string of decimal digits spells, most significant first.
pub open spec fn digits_value(s: Seq<char>) -> int
    decreases s.len(),
{
    if s.len() == 0 {
        0
    } else {
        digits_value(s.drop_last()) * 10 + (s.last() as int - '0' as int)
    }
}

proof fn lemma_digit_char(d: nat)
    requires
        d < 10,
    ensures
        digit_char(d) as int - '0' as int == d,
        '0' <= digit_char(d) <= '9',
{
}

/// The decimal text of `n` is made of digits, has no leading zero (unless
/// it is `0`), and spells `n`.
pub proof fn lemma_decimal_spells(n: nat)
    ensures
        decimal(n).len() > 0,
        forall|i: int| 0 <= i < decimal(n).len() ==> '0' <= #[trigger] decimal(n)[i] <= '9',
        decimal(n).len() > 1 ==> decimal(n)[0] != '0',
        n == 0 <==> decimal(n) == seq!['0'],
        digits_value(decimal(n)) == n,
    decreases n,
{
    if n < 10 {
        lemma_digit_char(n);
        assert(decimal(n) == seq![digit_char(n)]);
        assert(seq![digit_char(n)].drop_last() =~= Seq::<char>::empty());
        assert(digits_value(Seq::<char>::empty()) == 0);
        if n == 0 {
            assert(decimal(n) =~= seq!['0']);
        } else {
            assert(decimal(n)[0] != '0');
        }
    } else {
        lemma_digit_char(n % 10);
        lemma_decimal_spells(n / 10);
        let d = decimal(n / 10);
        assert(decimal(n) == d.push(digit_char(n % 10)));
        assert(decimal(n).drop_last() =~= d);
        assert forall|i: int| 0 <= i < decimal(n).len() implies '0' <= #[trigger] decimal(n)[i] <= '9' by {
            if i < d.len() {
                assert(decimal(n)[i] == d[i]);
            }
        }
        if d.len() == 1 {
            assert(d[0] != '0') by {
                if d[0] == '0' {
                    assert(d == seq!['0']);
                }
            }
        }
        assert(decimal(n)[0] == d[0]);
        assert(decimal(n) != seq!['0']) by {
            assert(decimal(n).len() >= 2);
        }
    }
}

/// Decimal rendering of a signed integer: a leading `-` for negatives.
pub open spec fn signed_decimal(n: int) -> Seq<char> {
    if n < 0 { seq!['-'] + decimal((-n) as nat) } else { decimal(n as nat) }
}

fn digit(d: u64) -> (c: char)
    requires
        d < 10,
    ensures
        c == digit_char(d as nat),
{
    if d == 0 { '0' }
    else if d == 1 { '1' }
    else if d == 2 { '2' }
    else if d == 3 { '3' }
    else if d == 4 { '4' }
    else if d == 5 { '5' }
    else if d == 6 { '6' }
    else if d == 7 { '7' }
    else if d == 8 { '8' }
    else { '9' }
}

/// Appends the decimal digits of `n` to `out`.
pub fn push_decimal(out: &mut String, n: u64)
    ensures
        final(out)@ == old(out)@ + decimal(n as nat),
    decreases n,
{
    if n < 10 {
        out.push(digit(n));
        assert(decimal(n as nat) == seq![digit_char(n as nat)]);
        assert(old(out)@.push(digit_char(n as nat)) =~= old(out)@ + seq![digit_char(n as nat)]);
    } else {
        push_decimal(out, n / 10);
        out.push(digit(n % 10));
        assert(old(out)@ + decimal((n / 10) as nat) + seq![digit_char((n % 10) as nat)]
            =~= old(out)@ + decimal(n as nat));
    }
}

/// Appends the decimal rendering of a signed integer to `out`.
pub fn push_signed_decimal(out: &mut String, n: i64)
    ensures
        final(out)@ == old(out)@ + signed_decimal(n as int),
{
    if n < 0 {
        out.push('-');
        let magnitude: u64 = if n == i64::MIN {
            9223372036854775808u64
        } else {
            (-n) as u64
        };
        push_decimal(out, magnitude);
        assert(old(out)@.push('-') + decimal(magnitude as nat)
            =~= old(out)@ + (seq!['-'] + decimal(magnitude as nat)));
    } else {
        push_decimal(out, n as u64);
    }
}

/// A fresh `String` holding the decimal digits of `n`.
pub fn u64_to_decimal(n: u64) -> (s: String)
    ensures
        s@ == decimal(n as nat),
{
    let mut s = String::new();
    push_decimal(&mut s, n);
    assert(Seq::<char>::empty() + decimal(n as nat) =~= decimal(n as nat));
    s
}

/// A copy of a list of strings.
pub fn clone_strings(v: &Vec<String>) -> (r: Vec<String>)
    ensures
        r@ == v@,
{
    let mut r: Vec<String> = Vec::new();
    let mut i: usize = 0;
    while i < v.len()
        invariant
            i <= v.len(),
            r@ =~= v@.take(i as int),
        decreases v.len() - i,
    {
        r.push(v[i].clone());
        i = i + 1;
    }
    assert(v@.take(v.len() as int) =~= v@);
    r
}

/// Whether two strings hold the same characters.
pub fn str_eq(a: &str, b: &str) -> (r: bool)
    ensures
        r == (a@ == b@),
{
    let x = String::from_str(a);
    let y = String::from_str(b);
    x == y
}

/// The views of a list of strings.
pub open spec fn views(v: Seq<String>) -> Seq<Seq<char>> {
    v.map_values(|s: String| s@)
}

/// Unicode `White_Space` characters (what `char::is_whitespace` accepts).
pub open spec fn is_white_space(c: char) -> bool {
    let u = c as u32;
    ||| (0x09 <= u && u <= 0x0d)
    ||| u == 0x20
    ||| u == 0x85
    ||| u == 0xa0
    ||| u == 0x1680
    ||| (0x2000 <= u && u <= 0x200a)
    ||| u == 0x2028
    ||| u == 0x2029
    ||| u == 0x202f
    ||| u == 0x205f
    ||| u == 0x3000
}

/// `s` without its leading white space.
pub open spec fn trim_start(s: Seq<char>) -> Seq<char>
    decreases s.len(),
{
    if s.len() > 0 && is_white_space(s[0]) {
        trim_start(s.drop_first())
    } else {
        s
    }
}

/// `s` without its trailing white space.
pub open spec fn trim_end(s: Seq<char>) -> Seq<char>
    decreases s.len(),
{
    if s.len() > 0 && is_white_space(s.last()) {
        trim_end(s.drop_last())
    } else {
        s
    }
}

/// `s` without leading and trailing white space.
pub open spec fn trimmed(s: Seq<char>) -> Seq<char> {
    trim_end(trim_start(s))
}

/// Trimming drops only white space, from both ends: the result is a
/// contiguous part of `s` that neither starts nor ends with white space, and
/// everything before and after it in `s` is white space.
pub proof fn lemma_trimmed_shape(s: Seq<char>) -> (a: int)
    ensures
        0 <= a <= a + trimmed(s).len() <= s.len(),
        trimmed(s) == s.subrange(a, a + trimmed(s).len() as int),
        forall|i: int| 0 <= i < a ==> is_white_space(#[trigger] s[i]),
        forall|i: int| a + trimmed(s).len() <= i < s.len() ==> is_white_space(#[trigger] s[i]),
        trimmed(s).len() > 0 ==> !is_white_space(trimmed(s)[0]) && !is_white_space(trimmed(s).last()),
{
    let a = lemma_trim_start_shape(s);
    let t = trim_start(s);
    let b = lemma_trim_end_shape(t);
    assert forall|i: int| a + trimmed(s).len() <= i < s.len() implies is_white_space(#[trigger] s[i]) by {
        assert(s[i] == t[i - a]);
    }
    if trimmed(s).len() > 0 {
        assert(trimmed(s)[0] == t[0]);
    }
    assert(trimmed(s) =~= s.subrange(a, a + trimmed(s).len() as int));
    a
}

proof fn lemma_trim_start_shape(s: Seq<char>) -> (a: int)
    ensures
        0 <= a <= s.len(),
        trim_start(s) == s.subrange(a, s.len() as int),
        forall|i: int| 0 <= i < a ==> is_white_space(#[trigger] s[i]),
        a < s.len() ==> !is_white_space(s[a]),
    decreases s.len(),
{
    if s.len() > 0 && is_white_space(s[0]) {
        let rest = s.drop_first();
        let a0 = lemma_trim_start_shape(rest);
        assert forall|i: int| 0 <= i < a0 + 1 implies is_white_space(#[trigger] s[i]) by {
            if i > 0 {
                assert(s[i] == rest[i - 1]);
            }
        }
        assert(rest.subrange(a0, rest.len() as int) =~= s.subrange(a0 + 1, s.len() as int));
        if a0 + 1 < s.len() {
            assert(s[a0 + 1] == rest[a0]);
        }
        a0 + 1
    } else {
        assert(s.subrange(0, s.len() as int) =~= s);
        0
    }
}

proof fn lemma_trim_end_shape(s: Seq<char>) -> (b: int)
    ensures
        0 <= b <= s.len(),
        trim_end(s) == s.subrange(0, b),
        forall|i: int| b <= i < s.len() ==> is_white_space(#[trigger] s[i]),
        b > 0 ==> !is_white_space(s[b - 1]),
    decreases s.len(),
{
    if s.len() > 0 && is_white_space(s.last()) {
        let rest = s.drop_last();
        let b0 = lemma_trim_end_shape(rest);
        assert forall|i: int| b0 <= i < s.len() implies is_white_space(#[trigger] s[i]) by {
            if i < rest.len() {
                assert(s[i] == rest[i]);
            }
        }
        assert(rest.subrange(0, b0) =~= s.subrange(0, b0));
        if b0 > 0 {
            assert(s[b0 - 1] == rest[b0 - 1]);
        }
        b0
    } else {
        assert(s.subrange(0, s.len() as int) =~= s);
        s.len() as int
    }
}

fn white_space(c: char) -> (b: bool)
    ensures
        b == is_white_space(c),
{
    let u = c as u32;
    (0x09 <= u && u <= 0x0d) || u == 0x20 || u == 0x85 || u == 0xa0 || u == 0x1680
        || (0x2000 <= u && u <= 0x200a) || u == 0x2028 || u == 0x2029 || u == 0x202f
        || u == 0x205f || u == 0x3000
}

/// `s` without leading and trailing white space.
pub fn trim(s: &str) -> (t: &str)
    ensures
        t@ == trimmed(s@),
{
    let n = s.unicode_len();
    let mut start: usize = 0;
    proof {
        assert(s@.skip(0) =~= s@);
    }
    while start < n && white_space(s.get_char(start))
        invariant
            n == s@.len(),
            start <= n,
            trim_start(s@) == trim_start(s@.skip(start as int)),
        decreases n - start,
    {
        proof {
            assert(s@.skip(start as int).drop_first() =~= s@.skip(start + 1));
        }
        start = start + 1;
    }
    let ghost rest = s@.skip(start as int);
    proof {
        assert(trim_start(rest) == rest);
        assert(trim_start(s@) == s@.subrange(start as int, n as int));
    }
    let mut end: usize = n;
    while end > start && white_space(s.get_char(end - 1))
        invariant
            n == s@.len(),
            start <= end <= n,
            trimmed(s@) == trim_end(s@.subrange(start as int, end as int)),
        decreases end - start,
    {
        proof {
            assert(s@.subrange(start as int, end as int).drop_last() =~= s@.subrange(start as int, end - 1));
        }
        end = end - 1;
    }
    s.substring_char(start, end)
}

} // verus!
