//! IP addresses: their order (every IPv4 address before every IPv6 address,
//! each family by its octets or segments) and their text form (dotted
//! decimal; IPv6 in lowercase hexadecimal groups, the first longest run of
//! two or more zero groups written `::`, IPv4-mapped addresses as
//! `::ffff:a.b.c.d`).
use vstd::prelude::*;
use crate::order::{Cmp, lex_lt, lemma_lex_asymmetric, lemma_lex_differ_at, lemma_lex_irreflexive};
use crate::text::{decimal, push_decimal};
use crate::hex_text::{hex_number, push_hex_number};

verus! {

/// An IPv4 address by its four octets or an IPv6 address by its eight
/// 16-bit segments.
#[derive(Debug, Clone, Copy, PartialEq, Eq, Hash)]
pub enum IpAddress {
    V4([u8; 4]),
    V6([u16; 8]),
}

/// The sort key of an address: its family (IPv4 first), then its octets
/// or segments.
pub open spec fn ip_key(ip: IpAddress) -> Seq<int> {
    match ip {
        IpAddress::V4(o) => seq![0int] + o@.map_values(|b: u8| b as int),
        IpAddress::V6(s) => seq![1int] + s@.map_values(|x: u16| x as int),
    }
}

/// `a` sorts strictly before `b`.
pub open spec fn ip_lt(a: IpAddress, b: IpAddress) -> bool {
    lex_lt(ip_key(a), ip_key(b))
}

/// Dotted-decimal text of four octets.
pub open spec fn v4_text(o: Seq<u8>) -> Seq<char> {
    decimal(o[0] as nat) + seq!['.'] + decimal(o[1] as nat) + seq!['.'] + decimal(o[2] as nat)
        + seq!['.'] + decimal(o[3] as nat)
}

/// The number of zero segments starting at `t`.
pub open spec fn zero_run_len(s: Seq<u16>, t: int) -> nat
    decreases s.len() - t,
{
    if t < 0 || t >= s.len() || s[t] != 0 {
        0
    } else {
        1 + zero_run_len(s, t + 1)
    }
}

/// The longest run of zero segments starting before `n`.
pub open spec fn longest_zero_run(s: Seq<u16>, n: nat) -> nat
    decreases n,
{
    if n == 0 {
        0
    } else {
        let m = longest_zero_run(s, (n - 1) as nat);
        let r = zero_run_len(s, n - 1);
        if r > m { r } else { m }
    }
}

/// The first position at or after `t` where a run of at least `l` zero
/// segments starts (the length of `s` if there is none).
pub open spec fn first_run_of(s: Seq<u16>, l: nat, t: int) -> int
    decreases s.len() - t,
{
    if t < 0 || t >= s.len() {
        s.len() as int
    } else if zero_run_len(s, t) >= l {
        t
    } else {
        first_run_of(s, l, t + 1)
    }
}

proof fn lemma_longest_zero_run(s: Seq<u16>, n: nat)
    requires
        n <= s.len(),
    ensures
        forall|t: int| 0 <= t < n ==> zero_run_len(s, t) <= longest_zero_run(s, n),
        longest_zero_run(s, n) > 0 ==> exists|t: int| 0 <= t < n && zero_run_len(s, t) == longest_zero_run(s, n),
    decreases n,
{
    if n > 0 {
        lemma_longest_zero_run(s, (n - 1) as nat);
    }
}

proof fn lemma_first_run_of(s: Seq<u16>, l: nat, t: int, w: int)
    requires
        0 <= t <= w < s.len(),
        zero_run_len(s, w) >= l,
    ensures
        t <= first_run_of(s, l, t) <= w,
        zero_run_len(s, first_run_of(s, l, t)) >= l,
        forall|u: int| t <= u < first_run_of(s, l, t) ==> zero_run_len(s, u) < l,
    decreases s.len() - t,
{
    if zero_run_len(s, t) < l {
        lemma_first_run_of(s, l, t + 1, w);
    }
}

/// The run of zero segments that IPv6 text shortens to `::` is a longest
/// one, and the first of the longest ones: it starts at `st` and is `l`
/// segments long, no run is longer, and every run that starts before it is
/// shorter. (The text shortens it only when `l` is at least 2.)
pub proof fn lemma_ipv6_compressed_run(s: Seq<u16>)
    requires
        s.len() == 8,
    ensures
        forall|t: int| 0 <= t < 8 ==> zero_run_len(s, t) <= longest_zero_run(s, 8),
        longest_zero_run(s, 8) == 0 <==> forall|t: int| 0 <= t < 8 ==> s[t] != 0,
        longest_zero_run(s, 8) > 0 ==> {
            let l = longest_zero_run(s, 8);
            let st = first_run_of(s, l, 0);
            &&& 0 <= st < 8
            &&& zero_run_len(s, st) == l
            &&& forall|u: int| 0 <= u < st ==> zero_run_len(s, u) < l
            &&& forall|u: int| st <= u < st + l ==> s[u] == 0
        },
{
    lemma_longest_zero_run(s, 8);
    let l = longest_zero_run(s, 8);
    if l > 0 {
        let w = choose|t: int| 0 <= t < 8 && zero_run_len(s, t) == l;
        lemma_first_run_of(s, l, 0, w);
        let st = first_run_of(s, l, 0);
        lemma_zero_run_zeros(s, st);
    } else {
        assert forall|t: int| 0 <= t < 8 implies s[t] != 0 by {
            assert(zero_run_len(s, t) <= 0);
        }
    }
    if forall|t: int| 0 <= t < 8 ==> s[t] != 0 {
        if l > 0 {
            let w = choose|t: int| 0 <= t < 8 && zero_run_len(s, t) == l;
            assert(s[w] != 0);
        }
    }
}

proof fn lemma_zero_run_zeros(s: Seq<u16>, t: int)
    requires
        0 <= t,
    ensures
        forall|u: int| t <= u < t + zero_run_len(s, t) ==> s[u] == 0,
    decreases s.len() - t,
{
    if t < s.len() && s[t] == 0 {
        lemma_zero_run_zeros(s, t + 1);
    }
}

/// Segments in lowercase hexadecimal, separated by `:`.
pub open spec fn hex_groups(g: Seq<u16>) -> Seq<char>
    decreases g.len(),
{
    if g.len() == 0 {
        Seq::empty()
    } else if g.len() == 1 {
        hex_number(g[0] as nat)
    } else {
        hex_groups(g.drop_last()) + seq![':'] + hex_number(g.last() as nat)
    }
}

/// `::ffff:a.b.c.d`: the IPv4-mapped IPv6 addresses.
pub open spec fn is_v4_mapped(s: Seq<u16>) -> bool {
    s[0] == 0 && s[1] == 0 && s[2] == 0 && s[3] == 0 && s[4] == 0 && s[5] == 0xffff
}

/// Text of eight IPv6 segments.
pub open spec fn ipv6_text(s: Seq<u16>) -> Seq<char> {
    let l = longest_zero_run(s, s.len());
    let st = first_run_of(s, l, 0);
    if is_v4_mapped(s) {
        seq![':', ':', 'f', 'f', 'f', 'f', ':'] + v4_text(
            seq![(s[6] / 256) as u8, (s[6] % 256) as u8, (s[7] / 256) as u8, (s[7] % 256) as u8],
        )
    } else if l > 1 {
        hex_groups(s.subrange(0, st)) + seq![':', ':'] + hex_groups(s.subrange(st + l, s.len() as int))
    } else {
        hex_groups(s)
    }
}

/// The text form of an address.
pub open spec fn ip_text(ip: IpAddress) -> Seq<char> {
    match ip {
        IpAddress::V4(o) => v4_text(o@),
        IpAddress::V6(s) => ipv6_text(s@),
    }
}

/// Compares two addresses in address order.
pub fn compare_ip(a: &IpAddress, b: &IpAddress) -> (r: Cmp)
    ensures
        r == Cmp::Less <==> ip_lt(*a, *b),
        r == Cmp::Equal <==> *a == *b,
        r == Cmp::Greater <==> ip_lt(*b, *a),
{
    let ghost ka = ip_key(*a);
    let ghost kb = ip_key(*b);
    proof {
        lemma_lex_irreflexive(ka);
    }
    match (a, b) {
        (IpAddress::V4(_), IpAddress::V6(_)) => {
            proof {
                lemma_lex_differ_at(ka, kb, 0);
                lemma_lex_asymmetric(ka, kb);
            }
            Cmp::Less
        },
        (IpAddress::V6(_), IpAddress::V4(_)) => {
            proof {
                lemma_lex_differ_at(kb, ka, 0);
                lemma_lex_asymmetric(kb, ka);
            }
            Cmp::Greater
        },
        (IpAddress::V4(x), IpAddress::V4(y)) => {
            let mut i: usize = 0;
            while i < 4
                invariant
                    i <= 4,
                    ka == seq![0int] + x@.map_values(|v: u8| v as int),
                    ka == ip_key(*a),
                    kb == ip_key(*b),
                    !lex_lt(ka, ka),
                    kb == seq![0int] + y@.map_values(|v: u8| v as int),
                    forall|j: int| 0 <= j < i ==> x[j] == y[j],
                decreases 4 - i,
            {
                if x[i] < y[i] {
                    proof {
                        assert forall|j: int| 0 <= j < i + 1 implies ka[j] == kb[j] by {
                            if j > 0 {
                                assert(x[j - 1] == y[j - 1]);
                            }
                        }
                        lemma_lex_differ_at(ka, kb, i + 1);
                        lemma_lex_asymmetric(ka, kb);
                    }
                    return Cmp::Less;
                }
                if y[i] < x[i] {
                    proof {
                        assert forall|j: int| 0 <= j < i + 1 implies kb[j] == ka[j] by {
                            if j > 0 {
                                assert(x[j - 1] == y[j - 1]);
                            }
                        }
                        lemma_lex_differ_at(kb, ka, i + 1);
                        lemma_lex_asymmetric(kb, ka);
                    }
                    return Cmp::Greater;
                }
                i = i + 1;
            }
            proof {
                assert(x =~= y);
            }
            Cmp::Equal
        },
        (IpAddress::V6(x), IpAddress::V6(y)) => {
            let mut i: usize = 0;
            while i < 8
                invariant
                    i <= 8,
                    ka == seq![1int] + x@.map_values(|v: u16| v as int),
                    ka == ip_key(*a),
                    kb == ip_key(*b),
                    !lex_lt(ka, ka),
                    kb == seq![1int] + y@.map_values(|v: u16| v as int),
                    forall|j: int| 0 <= j < i ==> x[j] == y[j],
                decreases 8 - i,
            {
                if x[i] < y[i] {
                    proof {
                        assert forall|j: int| 0 <= j < i + 1 implies ka[j] == kb[j] by {
                            if j > 0 {
                                assert(x[j - 1] == y[j - 1]);
                            }
                        }
                        lemma_lex_differ_at(ka, kb, i + 1);
                        lemma_lex_asymmetric(ka, kb);
                    }
                    return Cmp::Less;
                }
                if y[i] < x[i] {
                    proof {
                        assert forall|j: int| 0 <= j < i + 1 implies kb[j] == ka[j] by {
                            if j > 0 {
                                assert(x[j - 1] == y[j - 1]);
                            }
                        }
                        lemma_lex_differ_at(kb, ka, i + 1);
                        lemma_lex_asymmetric(kb, ka);
                    }
                    return Cmp::Greater;
                }
                i = i + 1;
            }
            proof {
                assert(x =~= y);
            }
            Cmp::Equal
        },
    }
}

/// Appends the dotted-decimal text of four octets.
pub fn push_v4(out: &mut String, o: &[u8; 4])
    ensures
        final(out)@ == old(out)@ + v4_text(o@),
{
    push_decimal(out, o[0] as u64);
    out.push('.');
    push_decimal(out, o[1] as u64);
    out.push('.');
    push_decimal(out, o[2] as u64);
    out.push('.');
    push_decimal(out, o[3] as u64);
    assert(final(out)@ =~= old(out)@ + v4_text(o@));
}

proof fn lemma_run_le_longest(s: Seq<u16>, n: nat, u: int)
    requires
        0 <= u < n,
    ensures
        zero_run_len(s, u) <= longest_zero_run(s, n),
    decreases n,
{
    if u < n - 1 {
        lemma_run_le_longest(s, (n - 1) as nat, u);
    }
}

proof fn lemma_first_run_at(s: Seq<u16>, l: nat, a: int, t: int)
    requires
        0 <= a <= t < s.len(),
        forall|u: int| a <= u < t ==> zero_run_len(s, u) < l,
        zero_run_len(s, t) >= l,
    ensures
        first_run_of(s, l, a) == t,
    decreases t - a,
{
    if a < t {
        lemma_first_run_at(s, l, a + 1, t);
    }
}

/// The first longest run of zero segments: its start and length.
fn find_zero_run(segs: &[u16; 8]) -> (r: (usize, usize))
    ensures
        r.1 == longest_zero_run(segs@, 8),
        r.0 == first_run_of(segs@, r.1 as nat, 0),
        r.0 + r.1 <= 8,
{
    let ghost s = segs@;
    let mut best_start: usize = 0;
    let mut best_len: usize = 0;
    let mut t: usize = 0;
    while t < 8
        invariant
            s == segs@,
            s.len() == 8,
            t <= 8,
            best_len == longest_zero_run(s, t as nat),
            best_len > 0 ==> best_start == first_run_of(s, best_len as nat, 0),
            best_len == 0 ==> best_start == 0,
            best_start + best_len <= 8,
        decreases 8 - t,
    {
        let mut k: usize = t;
        while k < 8 && segs[k] == 0
            invariant
                s == segs@,
                s.len() == 8,
                t <= k <= 8,
                zero_run_len(s, t as int) == (k - t) + zero_run_len(s, k as int),
            decreases 8 - k,
        {
            k = k + 1;
        }
        let r: usize = k - t;
        assert(zero_run_len(s, t as int) == r);
        if r > best_len {
            proof {
                assert forall|u: int| 0 <= u < t implies zero_run_len(s, u) < r by {
                    lemma_run_le_longest(s, t as nat, u);
                }
                lemma_first_run_at(s, r as nat, 0, t as int);
            }
            best_len = r;
            best_start = t;
        }
        t = t + 1;
    }
    proof {
        if best_len == 0 {
            assert(first_run_of(s, 0, 0) == 0);
        }
    }
    (best_start, best_len)
}

/// Appends the segments `from..to` in hexadecimal, separated by `:`.
fn push_hex_groups(out: &mut String, segs: &[u16; 8], from: usize, to: usize)
    requires
        from <= to <= 8,
    ensures
        final(out)@ == old(out)@ + hex_groups(segs@.subrange(from as int, to as int)),
{
    let mut i: usize = from;
    while i < to
        invariant
            from <= i <= to <= 8,
            out@ == old(out)@ + hex_groups(segs@.subrange(from as int, i as int)),
        decreases to - i,
    {
        let ghost before = out@;
        let ghost g = segs@.subrange(from as int, i + 1);
        if i > from {
            out.push(':');
        }
        push_hex_number(out, segs[i] as u64);
        proof {
            if i > from {
                assert(g.drop_last() =~= segs@.subrange(from as int, i as int));
                assert(out@ =~= old(out)@ + hex_groups(g));
            } else {
                assert(g =~= seq![segs@[i as int]]);
                assert(segs@.subrange(from as int, i as int) =~= Seq::<u16>::empty());
                assert(out@ =~= old(out)@ + hex_groups(g));
            }
        }
        i = i + 1;
    }
}

/// Appends the text of eight IPv6 segments.
pub fn push_v6(out: &mut String, segs: &[u16; 8])
    ensures
        final(out)@ == old(out)@ + ipv6_text(segs@),
{
    if segs[0] == 0 && segs[1] == 0 && segs[2] == 0 && segs[3] == 0 && segs[4] == 0 && segs[5] == 0xffff {
        out.push(':');
        out.push(':');
        out.push('f');
        out.push('f');
        out.push('f');
        out.push('f');
        out.push(':');
        let v4: [u8; 4] = [(segs[6] / 256) as u8, (segs[6] % 256) as u8, (segs[7] / 256) as u8, (segs[7] % 256) as u8];
        let ghost mid = out@;
        push_v4(out, &v4);
        proof {
            assert(v4@ =~= seq![(segs@[6] / 256) as u8, (segs@[6] % 256) as u8, (segs@[7] / 256) as u8, (segs@[7] % 256) as u8]);
            assert(out@ =~= old(out)@ + ipv6_text(segs@));
        }
    } else {
        let (st, l) = find_zero_run(segs);
        if l > 1 {
            push_hex_groups(out, segs, 0, st);
            out.push(':');
            out.push(':');
            push_hex_groups(out, segs, st + l, 8);
            assert(out@ =~= old(out)@ + ipv6_text(segs@));
        } else {
            push_hex_groups(out, segs, 0, 8);
            assert(segs@.subrange(0, 8) =~= segs@);
        }
    }
}

/// Appends the text form of an address.
pub fn push_ip(out: &mut String, ip: &IpAddress)
    ensures
        final(out)@ == old(out)@ + ip_text(*ip),
{
    match ip {
        IpAddress::V4(o) => push_v4(out, o),
        IpAddress::V6(s) => push_v6(out, s),
    }
}

/// The text form of an address.
pub fn ip_to_string(ip: &IpAddress) -> (s: String)
    ensures
        s@ == ip_text(*ip),
{
    let mut s = String::new();
    push_ip(&mut s, ip);
    assert(Seq::<char>::empty() + ip_text(*ip) =~= ip_text(*ip));
    s
}

} // verus!
