//! The address ranges that agents may never reach, and the check of a
//! single address against them.
use vstd::prelude::*;
use crate::egress::ip::IpAddress;
use vstd::arithmetic::div_mod::lemma_fundamental_div_mod_converse;
use vstd::arithmetic::power2::{lemma2_to64, pow2};

verus! {

/// The characters of each string in a list.
pub open spec fn str_views(v: Seq<&str>) -> Seq<Seq<char>> {
    v.map_values(|s: &str| s@)
}

/// Cloud metadata endpoints (AWS, GCP, Azure and DigitalOcean; Alibaba
/// Cloud; AWS IMDSv2 over IPv6). An agent reaching these can steal the
/// instance's credentials.
pub open spec fn cloud_metadata_cidr_list() -> Seq<Seq<char>> {
    seq!["169.254.169.254/32"@, "100.100.100.200/32"@, "fd00:ec2::254/128"@]
}

/// The RFC-1918 private ranges.
pub open spec fn rfc1918_cidr_list() -> Seq<Seq<char>> {
    seq!["10.0.0.0/8"@, "172.16.0.0/12"@, "192.168.0.0/16"@]
}

/// The link-local ranges.
pub open spec fn link_local_cidr_list() -> Seq<Seq<char>> {
    seq!["169.254.0.0/16"@, "fe80::/10"@]
}

/// The cloud metadata endpoint ranges, in CIDR notation.
pub fn cloud_metadata_cidrs() -> (v: Vec<&'static str>)
    ensures
        str_views(v@) == cloud_metadata_cidr_list(),
{
    let v: Vec<&'static str> = vec!["169.254.169.254/32", "100.100.100.200/32", "fd00:ec2::254/128"];
    assert(str_views(v@) =~= cloud_metadata_cidr_list());
    v
}

/// The RFC-1918 private ranges, in CIDR notation.
pub fn rfc1918_cidrs() -> (v: Vec<&'static str>)
    ensures
        str_views(v@) == rfc1918_cidr_list(),
{
    let v: Vec<&'static str> = vec!["10.0.0.0/8", "172.16.0.0/12", "192.168.0.0/16"];
    assert(str_views(v@) =~= rfc1918_cidr_list());
    v
}

/// The link-local ranges, in CIDR notation.
pub fn link_local_cidrs() -> (v: Vec<&'static str>)
    ensures
        str_views(v@) == link_local_cidr_list(),
{
    let v: Vec<&'static str> = vec!["169.254.0.0/16", "fe80::/10"];
    assert(str_views(v@) =~= link_local_cidr_list());
    v
}

/// Which addresses agents may not reach: every IPv6 address, and the IPv4
/// addresses in 10.0.0.0/8, 172.16.0.0/12, 192.168.0.0/16, 169.254.0.0/16
/// (link-local, which holds the common metadata endpoint) and
/// 100.100.100.200.
pub open spec fn blocked(ip: IpAddress) -> bool {
    match ip {
        IpAddress::V4(o) => {
            ||| o[0] == 10
            ||| (o[0] == 172 && 16 <= o[1] <= 31)
            ||| (o[0] == 192 && o[1] == 168)
            ||| (o[0] == 169 && o[1] == 254)
            ||| (o[0] == 100 && o[1] == 100 && o[2] == 100 && o[3] == 200)
        },
        IpAddress::V6(_) => true,
    }
}

/// Whether an address falls within a blocked range.
pub fn is_blocked(ip: &IpAddress) -> (b: bool)
    ensures
        b == blocked(*ip),
        ip is V6 ==> b,
{
    match ip {
        IpAddress::V4(o) => {
            if o[0] == 10 {
                return true;
            }
            if o[0] == 172 && 16 <= o[1] && o[1] <= 31 {
                return true;
            }
            if o[0] == 192 && o[1] == 168 {
                return true;
            }
            if o[0] == 169 && o[1] == 254 {
                return true;
            }
            if o[0] == 100 && o[1] == 100 && o[2] == 100 && o[3] == 200 {
                return true;
            }
            false
        },
        IpAddress::V6(_) => true,
    }
}

/// Agents may reach no IPv6 address at all: every one is blocked.
pub proof fn lemma_every_v6_blocked(segments: [u16; 8])
    ensures
        blocked(IpAddress::V6(segments)),
{
}

/// The number of an IPv4 address: its octets read most significant first.
pub open spec fn v4_number(o: Seq<u8>) -> int {
    o[0] * 16777216 + o[1] * 65536 + o[2] * 256 + o[3]
}

/// `x` shares its first `prefix` bits with `base`: the block of addresses
/// that `base/prefix` names in CIDR notation.
pub open spec fn in_v4_range(x: Seq<u8>, base: Seq<u8>, prefix: nat) -> bool {
    let size = pow2((32 - prefix) as nat) as int;
    v4_number(x) / size == v4_number(base) / size
}

/// The IPv4 ranges of the blocklists, as (base address, prefix length):
/// the RFC-1918 ranges, link-local, and the two metadata endpoints.
pub open spec fn blocked_v4_ranges() -> Seq<(Seq<u8>, nat)> {
    seq![
        (seq![10u8, 0u8, 0u8, 0u8], 8nat),
        (seq![172u8, 16u8, 0u8, 0u8], 12nat),
        (seq![192u8, 168u8, 0u8, 0u8], 16nat),
        (seq![169u8, 254u8, 0u8, 0u8], 16nat),
        (seq![169u8, 254u8, 169u8, 254u8], 32nat),
        (seq![100u8, 100u8, 100u8, 200u8], 32nat),
    ]
}

/// An IPv4 address is blocked exactly when it falls within one of the
/// blocklists' IPv4 ranges.
pub proof fn lemma_blocked_v4_iff_in_range(o: Seq<u8>)
    requires
        o.len() == 4,
    ensures
        blocked(IpAddress::V4([o[0], o[1], o[2], o[3]])) <==> exists|i: int|
            0 <= i < blocked_v4_ranges().len() && #[trigger] in_v4_range(
                o,
                blocked_v4_ranges()[i].0,
                blocked_v4_ranges()[i].1,
            ),
{
    let n = v4_number(o);
    let r = blocked_v4_ranges();
    lemma2_to64();
    let a: [u8; 4] = [o[0], o[1], o[2], o[3]];
    assert(a@ =~= o);
    // The address divided by each block size.
    lemma_fundamental_div_mod_converse(n, 16777216, o[0] as int, o[1] * 65536 + o[2] * 256 + o[3]);
    lemma_fundamental_div_mod_converse(
        n,
        1048576,
        o[0] * 16 + o[1] / 16,
        (o[1] % 16) * 65536 + o[2] * 256 + o[3],
    );
    lemma_fundamental_div_mod_converse(n, 65536, o[0] * 256 + o[1], o[2] * 256 + o[3]);
    lemma_fundamental_div_mod_converse(n, 1, n, 0);
    // The bases divided by their block sizes.
    lemma_fundamental_div_mod_converse(v4_number(r[0].0), 16777216, 10, 0);
    lemma_fundamental_div_mod_converse(v4_number(r[1].0), 1048576, 2753, 0);
    lemma_fundamental_div_mod_converse(v4_number(r[2].0), 65536, 49320, 0);
    lemma_fundamental_div_mod_converse(v4_number(r[3].0), 65536, 43518, 0);
    lemma_fundamental_div_mod_converse(v4_number(r[4].0), 1, v4_number(r[4].0), 0);
    lemma_fundamental_div_mod_converse(v4_number(r[5].0), 1, v4_number(r[5].0), 0);
    assert(in_v4_range(o, r[0].0, r[0].1) <==> o[0] == 10);
    assert(in_v4_range(o, r[1].0, r[1].1) <==> (o[0] == 172 && 16 <= o[1] <= 31));
    assert(in_v4_range(o, r[2].0, r[2].1) <==> (o[0] == 192 && o[1] == 168));
    assert(in_v4_range(o, r[3].0, r[3].1) <==> (o[0] == 169 && o[1] == 254));
    assert(in_v4_range(o, r[4].0, r[4].1) ==> (o[0] == 169 && o[1] == 254)) by {
        lemma_fundamental_div_mod_converse(n, 16777216, o[0] as int, o[1] * 65536 + o[2] * 256 + o[3]);
        lemma_fundamental_div_mod_converse(n, 65536, o[0] * 256 + o[1], o[2] * 256 + o[3]);
    }
    assert(in_v4_range(o, r[5].0, r[5].1) <==> (o[0] == 100 && o[1] == 100 && o[2] == 100 && o[3] == 200)) by {
        if n == v4_number(r[5].0) {
            lemma_fundamental_div_mod_converse(n, 16777216, 100, 6579400);
            lemma_fundamental_div_mod_converse(n, 65536, 25700, 25800);
            lemma_fundamental_div_mod_converse(o[2] * 256 + o[3], 256, o[2] as int, o[3] as int);
            lemma_fundamental_div_mod_converse(25800, 256, 100, 200);
        }
    }
    if blocked(IpAddress::V4(a)) {
        if o[0] == 10 {
            assert(in_v4_range(o, r[0].0, r[0].1));
        } else if o[0] == 172 && 16 <= o[1] <= 31 {
            assert(in_v4_range(o, r[1].0, r[1].1));
        } else if o[0] == 192 && o[1] == 168 {
            assert(in_v4_range(o, r[2].0, r[2].1));
        } else if o[0] == 169 && o[1] == 254 {
            assert(in_v4_range(o, r[3].0, r[3].1));
        } else {
            assert(in_v4_range(o, r[5].0, r[5].1));
        }
    }
}

} // verus!
