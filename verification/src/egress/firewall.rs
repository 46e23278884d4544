//! nftables ruleset generation: default deny for agent traffic, the
//! blocklists, and one allow rule per agent and permitted address.
use vstd::prelude::*;
use crate::egress::blocklist::{cloud_metadata_cidrs, cloud_metadata_cidr_list, rfc1918_cidrs, rfc1918_cidr_list, str_views};
use crate::egress::ip::{IpAddress, ip_lt, ip_text, compare_ip, push_ip};
use crate::order::{Cmp, lemma_lex_transitive};
use vstd::seq_lib::lemma_flatten_alt_concat;

verus! {

/// An nftables ruleset, ready for `nft -f`.
#[derive(Debug, Clone)]
pub struct Ruleset {
    pub content: String,
}

/// Per-agent network allow entry: the agent, its tap device, and the
/// addresses it may reach, meant to be kept in ascending address order
/// without repetitions (see `wf`, kept by `allow`).
#[derive(Debug)]
pub struct AgentAllowRule {
    pub agent_name: String,
    pub tap_device: String,
    pub allowed_ips: Vec<IpAddress>,
}

/// Addresses in strictly ascending order (so none occurs twice).
pub open spec fn strictly_ascending(s: Seq<IpAddress>) -> bool {
    forall|i: int, j: int| 0 <= i < j < s.len() ==> ip_lt(#[trigger] s[i], #[trigger] s[j])
}

impl AgentAllowRule {
    /// The permitted addresses are kept ascending and distinct.
    pub open spec fn wf(&self) -> bool {
        strictly_ascending(self.allowed_ips@)
    }

    /// A rule for an agent that may reach no address yet.
    pub fn new(agent_name: String, tap_device: String) -> (r: Self)
        ensures
            r.agent_name@ == agent_name@,
            r.tap_device@ == tap_device@,
            r.allowed_ips@ == Seq::<IpAddress>::empty(),
            r.wf(),
    {
        AgentAllowRule { agent_name, tap_device, allowed_ips: Vec::new() }
    }

    /// Permits one more address. Returns whether it was new; the addresses
    /// stay ascending and distinct.
    pub fn allow(&mut self, ip: IpAddress) -> (added: bool)
        requires
            old(self).wf(),
        ensures
            final(self).wf(),
            final(self).agent_name@ == old(self).agent_name@,
            final(self).tap_device@ == old(self).tap_device@,
            added == !old(self).allowed_ips@.contains(ip),
            final(self).allowed_ips@.to_set() == old(self).allowed_ips@.to_set().insert(ip),
    {
        let ghost s = self.allowed_ips@;
        let mut p: usize = 0;
        while p < self.allowed_ips.len()
            invariant
                s == self.allowed_ips@,
                strictly_ascending(s),
                p <= s.len(),
                forall|j: int| 0 <= j < p ==> ip_lt(#[trigger] s[j], ip),
            ensures
                p <= s.len(),
                forall|j: int| 0 <= j < p ==> ip_lt(#[trigger] s[j], ip),
                p == s.len() || ip_lt(ip, s[p as int]),
            decreases s.len() - p,
        {
            match compare_ip(&self.allowed_ips[p], &ip) {
                Cmp::Less => {
                    p = p + 1;
                },
                Cmp::Equal => {
                    proof {
                        assert(s.contains(ip));
                        assert(s.to_set().insert(ip) =~= s.to_set());
                    }
                    return false;
                },
                Cmp::Greater => {
                    break;
                },
            }
        }
        proof {
            assert forall|j: int| 0 <= j < s.len() implies #[trigger] s[j] != ip by {
                if j < p {
                    crate::order::lemma_lex_irreflexive(crate::egress::ip::ip_key(ip));
                } else {
                    if j > p {
                        lemma_lex_transitive(
                            crate::egress::ip::ip_key(ip),
                            crate::egress::ip::ip_key(s[p as int]),
                            crate::egress::ip::ip_key(s[j]),
                        );
                    }
                    crate::order::lemma_lex_irreflexive(crate::egress::ip::ip_key(ip));
                }
            }
        }
        self.allowed_ips.insert(p, ip);
        proof {
            let t = self.allowed_ips@;
            assert(t =~= s.insert(p as int, ip));
            assert forall|i: int, j: int| 0 <= i < j < t.len() implies ip_lt(#[trigger] t[i], #[trigger] t[j]) by {
                if j < p {
                } else if j == p {
                } else if i < p {
                    if j - 1 > p {
                        lemma_lex_transitive(
                            crate::egress::ip::ip_key(ip),
                            crate::egress::ip::ip_key(s[p as int]),
                            crate::egress::ip::ip_key(s[j - 1]),
                        );
                    }
                    lemma_lex_transitive(
                        crate::egress::ip::ip_key(t[i]),
                        crate::egress::ip::ip_key(ip),
                        crate::egress::ip::ip_key(t[j]),
                    );
                } else if i == p {
                    if j - 1 > p {
                        lemma_lex_transitive(
                            crate::egress::ip::ip_key(ip),
                            crate::egress::ip::ip_key(s[p as int]),
                            crate::egress::ip::ip_key(s[j - 1]),
                        );
                    }
                } else {
                }
            }
            assert(!s.contains(ip));
            assert forall|x: IpAddress| t.contains(x) <==> s.contains(x) || x == ip by {
                if t.contains(x) {
                    let k = choose|k: int| 0 <= k < t.len() && t[k] == x;
                    if k < p {
                        assert(s[k] == x);
                    } else if k > p {
                        assert(s[k - 1] == x);
                    }
                }
                if s.contains(x) {
                    let k = choose|k: int| 0 <= k < s.len() && s[k] == x;
                    if k < p {
                        assert(t[k] == x);
                    } else {
                        assert(t[k + 1] == x);
                    }
                }
                if x == ip {
                    assert(t[p as int] == ip);
                }
            }
            assert(t.to_set() =~= s.to_set().insert(ip));
        }
        true
    }
}

/// `"    ip daddr <cidr> drop comment \"block cloud metadata\"\n"`
pub open spec fn metadata_line(cidr: Seq<char>) -> Seq<char> {
    "    ip daddr "@ + cidr + " drop comment \"block cloud metadata\"\n"@
}

/// One metadata-blocking line per range.
pub open spec fn metadata_lines(cidrs: Seq<Seq<char>>) -> Seq<char>
    decreases cidrs.len(),
{
    if cidrs.len() == 0 {
        Seq::empty()
    } else {
        metadata_lines(cidrs.drop_last()) + metadata_line(cidrs.last())
    }
}

/// The line dropping traffic from one agent's tap device to a private range.
pub open spec fn private_block_line(cidr: Seq<char>, r: AgentAllowRule) -> Seq<char> {
    "    iifname \""@ + r.tap_device@ + "\" ip daddr "@ + cidr + " drop comment \"block RFC-1918 from "@
        + r.agent_name@ + "\"\n"@
}

/// The private-range line for each agent, in the agents' order.
pub open spec fn private_block_lines(cidr: Seq<char>, rules: Seq<AgentAllowRule>) -> Seq<char>
    decreases rules.len(),
{
    if rules.len() == 0 {
        Seq::empty()
    } else {
        private_block_lines(cidr, rules.drop_last()) + private_block_line(cidr, rules.last())
    }
}

/// For each private range in turn, its line for each agent.
pub open spec fn private_block_section(cidrs: Seq<Seq<char>>, rules: Seq<AgentAllowRule>) -> Seq<char>
    decreases cidrs.len(),
{
    if cidrs.len() == 0 {
        Seq::empty()
    } else {
        private_block_section(cidrs.drop_last(), rules) + private_block_lines(cidrs.last(), rules)
    }
}

/// The line accepting traffic from an agent's tap device to one address.
pub open spec fn allow_line(r: AgentAllowRule, ip: IpAddress) -> Seq<char> {
    "    iifname \""@ + r.tap_device@ + "\" ip daddr "@ + ip_text(ip) + " accept\n"@
}

/// An accept line for each address in `ips`, in order.
pub open spec fn allow_lines(r: AgentAllowRule, ips: Seq<IpAddress>) -> Seq<char>
    decreases ips.len(),
{
    if ips.len() == 0 {
        Seq::empty()
    } else {
        allow_lines(r, ips.drop_last()) + allow_line(r, ips.last())
    }
}

/// An agent's section: a comment naming it, its accept lines, a blank line.
pub open spec fn agent_section(r: AgentAllowRule) -> Seq<char> {
    "    # Agent: "@ + r.agent_name@ + "\n"@ + allow_lines(r, r.allowed_ips@) + "\n"@
}

/// The agents' sections, in order.
pub open spec fn agent_sections(rules: Seq<AgentAllowRule>) -> Seq<char>
    decreases rules.len(),
{
    if rules.len() == 0 {
        Seq::empty()
    } else {
        agent_sections(rules.drop_last()) + agent_section(rules.last())
    }
}

/// The start of the ruleset: flush, the table, and the forward chain's
/// drop policy and established/related acceptance.
pub open spec fn ruleset_head() -> Seq<char> {
    "flush ruleset\n\ntable inet nullbox {\n  chain forward {\n    type filter hook forward priority 0; policy drop;\n\n    ct state established,related accept\n\n"@
}

/// The end of the ruleset: the forward chain closes, the output chain
/// accepts host traffic, the input chain drops unsolicited traffic.
pub open spec fn ruleset_tail() -> Seq<char> {
    "  }\n\n  chain output {\n    type filter hook output priority 0; policy accept;\n  }\n\n  chain input {\n    type filter hook input priority 0; policy drop;\n    iif lo accept\n    ct state established,related accept\n  }\n}\n"@
}

/// The complete ruleset for a list of agents.
pub open spec fn ruleset_text(rules: Seq<AgentAllowRule>) -> Seq<char> {
    ruleset_head() + metadata_lines(cloud_metadata_cidr_list()) + "\n"@
        + private_block_section(rfc1918_cidr_list(), rules) + "\n"@ + agent_sections(rules)
        + ruleset_tail()
}

fn push_metadata_lines(out: &mut String, cidrs: &Vec<&'static str>)
    ensures
        final(out)@ == old(out)@ + metadata_lines(str_views(cidrs@)),
{
    let mut i: usize = 0;
    while i < cidrs.len()
        invariant
            i <= cidrs@.len(),
            out@ == old(out)@ + metadata_lines(str_views(cidrs@.take(i as int))),
        decreases cidrs.len() - i,
    {
        let ghost before = out@;
        out.append("    ip daddr ");
        out.append(cidrs[i]);
        out.append(" drop comment \"block cloud metadata\"\n");
        proof {
            let t = str_views(cidrs@.take(i + 1));
            assert(t.drop_last() =~= str_views(cidrs@.take(i as int)));
            assert(t.last() == cidrs@[i as int]@);
            assert(out@ =~= before + metadata_line(cidrs@[i as int]@));
            assert(out@ =~= old(out)@ + metadata_lines(t));
        }
        i = i + 1;
    }
    assert(cidrs@.take(cidrs@.len() as int) =~= cidrs@);
}

fn push_private_block_lines(out: &mut String, cidr: &str, rules: &[AgentAllowRule])
    ensures
        final(out)@ == old(out)@ + private_block_lines(cidr@, rules@),
{
    let mut i: usize = 0;
    while i < rules.len()
        invariant
            i <= rules@.len(),
            out@ == old(out)@ + private_block_lines(cidr@, rules@.take(i as int)),
        decreases rules.len() - i,
    {
        let ghost before = out@;
        out.append("    iifname \"");
        out.append(rules[i].tap_device.as_str());
        out.append("\" ip daddr ");
        out.append(cidr);
        out.append(" drop comment \"block RFC-1918 from ");
        out.append(rules[i].agent_name.as_str());
        out.append("\"\n");
        proof {
            let t = rules@.take(i + 1);
            assert(t.drop_last() =~= rules@.take(i as int));
            assert(out@ =~= before + private_block_line(cidr@, rules@[i as int]));
            assert(out@ =~= old(out)@ + private_block_lines(cidr@, t));
        }
        i = i + 1;
    }
    assert(rules@.take(rules@.len() as int) =~= rules@);
}

fn push_private_block_section(out: &mut String, cidrs: &Vec<&'static str>, rules: &[AgentAllowRule])
    ensures
        final(out)@ == old(out)@ + private_block_section(str_views(cidrs@), rules@),
{
    let mut j: usize = 0;
    while j < cidrs.len()
        invariant
            j <= cidrs@.len(),
            out@ == old(out)@ + private_block_section(str_views(cidrs@.take(j as int)), rules@),
        decreases cidrs.len() - j,
    {
        let ghost before = out@;
        push_private_block_lines(out, cidrs[j], rules);
        proof {
            let t = str_views(cidrs@.take(j + 1));
            assert(t.drop_last() =~= str_views(cidrs@.take(j as int)));
            assert(t.last() == cidrs@[j as int]@);
            assert(out@ =~= old(out)@ + private_block_section(t, rules@));
        }
        j = j + 1;
    }
    assert(cidrs@.take(cidrs@.len() as int) =~= cidrs@);
}

fn push_agent_section(out: &mut String, r: &AgentAllowRule)
    ensures
        final(out)@ == old(out)@ + agent_section(*r),
{
    out.append("    # Agent: ");
    out.append(r.agent_name.as_str());
    out.append("\n");
    let ghost head = out@;
    let ips = &r.allowed_ips;
    let mut i: usize = 0;
    while i < ips.len()
        invariant
            ips@ == r.allowed_ips@,
            i <= ips@.len(),
            out@ == head + allow_lines(*r, ips@.take(i as int)),
        decreases ips.len() - i,
    {
        let ghost before = out@;
        out.append("    iifname \"");
        out.append(r.tap_device.as_str());
        out.append("\" ip daddr ");
        push_ip(out, &ips[i]);
        out.append(" accept\n");
        proof {
            let t = ips@.take(i + 1);
            assert(t.drop_last() =~= ips@.take(i as int));
            assert(out@ =~= before + allow_line(*r, ips@[i as int]));
            assert(out@ =~= head + allow_lines(*r, t));
        }
        i = i + 1;
    }
    out.append("\n");
    proof {
        assert(ips@.take(ips@.len() as int) =~= ips@);
        assert(out@ =~= old(out)@ + agent_section(*r));
    }
}

fn push_agent_sections(out: &mut String, rules: &[AgentAllowRule])
    ensures
        final(out)@ == old(out)@ + agent_sections(rules@),
{
    let mut i: usize = 0;
    while i < rules.len()
        invariant
            i <= rules@.len(),
            out@ == old(out)@ + agent_sections(rules@.take(i as int)),
        decreases rules.len() - i,
    {
        push_agent_section(out, &rules[i]);
        proof {
            let t = rules@.take(i + 1);
            assert(t.drop_last() =~= rules@.take(i as int));
            assert(out@ =~= old(out)@ + agent_sections(t));
        }
        i = i + 1;
    }
    assert(rules@.take(rules@.len() as int) =~= rules@);
}

/// Generates the complete nftables ruleset:
/// 1. flush existing rules and create the `nullbox` table;
/// 2. a forward chain that drops by default and accepts established and
///    related connections;
/// 3. drop rules for the cloud metadata endpoints;
/// 4. for each RFC-1918 range, a drop rule per agent tap device;
/// 5. per agent, an accept rule for each permitted address;
/// 6. an output chain that accepts host traffic and an input chain that
///    drops unsolicited traffic.
pub fn generate_ruleset(agent_rules: &[AgentAllowRule]) -> (r: Ruleset)
    ensures
        r.content@ == ruleset_text(agent_rules@),
{
    let mut rules = String::from_str(
        "flush ruleset\n\ntable inet nullbox {\n  chain forward {\n    type filter hook forward priority 0; policy drop;\n\n    ct state established,related accept\n\n",
    );
    let metadata = cloud_metadata_cidrs();
    push_metadata_lines(&mut rules, &metadata);
    rules.append("\n");
    let private = rfc1918_cidrs();
    push_private_block_section(&mut rules, &private, agent_rules);
    rules.append("\n");
    push_agent_sections(&mut rules, agent_rules);
    rules.append(
        "  }\n\n  chain output {\n    type filter hook output priority 0; policy accept;\n  }\n\n  chain input {\n    type filter hook input priority 0; policy drop;\n    iif lo accept\n    ct state established,related accept\n  }\n}\n",
    );
    assert(rules@ =~= ruleset_text(agent_rules@));
    Ruleset { content: rules }
}

// ---------------------------------------------------------------------------
// Which lines a ruleset holds, and where
// ---------------------------------------------------------------------------

/// `line` stands in `text` from position `p` on.
pub open spec fn occurs_at(text: Seq<char>, line: Seq<char>, p: int) -> bool {
    &&& 0 <= p
    &&& p + line.len() <= text.len()
    &&& text.subrange(p, p + line.len()) == line
}

/// The part of the ruleset that holds its drop rules: everything before the
/// agents' accept sections.
pub open spec fn ruleset_drop_part(rules: Seq<AgentAllowRule>) -> Seq<char> {
    ruleset_head() + metadata_lines(cloud_metadata_cidr_list()) + "\n"@
        + private_block_section(rfc1918_cidr_list(), rules) + "\n"@
}

proof fn lemma_occurs_self(line: Seq<char>)
    ensures
        occurs_at(line, line, 0),
{
    assert(line.subrange(0, line.len() as int) =~= line);
}

proof fn lemma_occurs_in_prefix(a: Seq<char>, b: Seq<char>, line: Seq<char>, p: int)
    requires
        occurs_at(a, line, p),
    ensures
        occurs_at(a + b, line, p),
{
    assert((a + b).subrange(p, p + line.len()) =~= a.subrange(p, p + line.len()));
}

proof fn lemma_occurs_in_suffix(a: Seq<char>, b: Seq<char>, line: Seq<char>, p: int)
    requires
        occurs_at(b, line, p),
    ensures
        occurs_at(a + b, line, p + a.len()),
{
    assert((a + b).subrange(p + a.len(), p + a.len() + line.len()) =~= b.subrange(p, p + line.len()));
}

proof fn lemma_occurs_within(text: Seq<char>, part: Seq<char>, line: Seq<char>, p: int, q: int)
    requires
        occurs_at(text, part, p),
        occurs_at(part, line, q),
    ensures
        occurs_at(text, line, p + q),
{
    assert(text.subrange(p + q, p + q + line.len()) =~= part.subrange(q, q + line.len()));
}

proof fn lemma_metadata_line_occurs(cidrs: Seq<Seq<char>>, i: int) -> (p: int)
    requires
        0 <= i < cidrs.len(),
    ensures
        occurs_at(metadata_lines(cidrs), metadata_line(cidrs[i]), p),
    decreases cidrs.len(),
{
    let init = cidrs.drop_last();
    if i == cidrs.len() - 1 {
        lemma_occurs_self(metadata_line(cidrs[i]));
        lemma_occurs_in_suffix(metadata_lines(init), metadata_line(cidrs[i]), metadata_line(cidrs[i]), 0);
        metadata_lines(init).len() as int
    } else {
        let p = lemma_metadata_line_occurs(init, i);
        lemma_occurs_in_prefix(metadata_lines(init), metadata_line(cidrs.last()), metadata_line(cidrs[i]), p);
        p
    }
}

proof fn lemma_private_line_in_lines(cidr: Seq<char>, rules: Seq<AgentAllowRule>, j: int) -> (p: int)
    requires
        0 <= j < rules.len(),
    ensures
        occurs_at(private_block_lines(cidr, rules), private_block_line(cidr, rules[j]), p),
    decreases rules.len(),
{
    let init = rules.drop_last();
    let line = private_block_line(cidr, rules[j]);
    if j == rules.len() - 1 {
        lemma_occurs_self(line);
        lemma_occurs_in_suffix(private_block_lines(cidr, init), line, line, 0);
        private_block_lines(cidr, init).len() as int
    } else {
        let p = lemma_private_line_in_lines(cidr, init, j);
        lemma_occurs_in_prefix(private_block_lines(cidr, init), private_block_line(cidr, rules.last()), line, p);
        p
    }
}

proof fn lemma_private_line_occurs(cidrs: Seq<Seq<char>>, rules: Seq<AgentAllowRule>, i: int, j: int) -> (p: int)
    requires
        0 <= i < cidrs.len(),
        0 <= j < rules.len(),
    ensures
        occurs_at(private_block_section(cidrs, rules), private_block_line(cidrs[i], rules[j]), p),
    decreases cidrs.len(),
{
    let init = cidrs.drop_last();
    let line = private_block_line(cidrs[i], rules[j]);
    if i == cidrs.len() - 1 {
        let q = lemma_private_line_in_lines(cidrs[i], rules, j);
        lemma_occurs_in_suffix(private_block_section(init, rules), private_block_lines(cidrs[i], rules), line, q);
        q + private_block_section(init, rules).len()
    } else {
        let p = lemma_private_line_occurs(init, rules, i, j);
        lemma_occurs_in_prefix(private_block_section(init, rules), private_block_lines(cidrs.last(), rules), line, p);
        p
    }
}

proof fn lemma_allow_line_in_lines(r: AgentAllowRule, ips: Seq<IpAddress>, m: int) -> (p: int)
    requires
        0 <= m < ips.len(),
    ensures
        occurs_at(allow_lines(r, ips), allow_line(r, ips[m]), p),
    decreases ips.len(),
{
    let init = ips.drop_last();
    let line = allow_line(r, ips[m]);
    if m == ips.len() - 1 {
        lemma_occurs_self(line);
        lemma_occurs_in_suffix(allow_lines(r, init), line, line, 0);
        allow_lines(r, init).len() as int
    } else {
        let p = lemma_allow_line_in_lines(r, init, m);
        lemma_occurs_in_prefix(allow_lines(r, init), allow_line(r, ips.last()), line, p);
        p
    }
}

proof fn lemma_allow_line_occurs(rules: Seq<AgentAllowRule>, j: int, m: int) -> (p: int)
    requires
        0 <= j < rules.len(),
        0 <= m < rules[j].allowed_ips@.len(),
    ensures
        occurs_at(agent_sections(rules), allow_line(rules[j], rules[j].allowed_ips@[m]), p),
    decreases rules.len(),
{
    let init = rules.drop_last();
    let r = rules[j];
    let line = allow_line(r, r.allowed_ips@[m]);
    if j == rules.len() - 1 {
        let head = "    # Agent: "@ + r.agent_name@ + "\n"@;
        let q = lemma_allow_line_in_lines(r, r.allowed_ips@, m);
        lemma_occurs_in_suffix(head, allow_lines(r, r.allowed_ips@), line, q);
        lemma_occurs_in_prefix(head + allow_lines(r, r.allowed_ips@), "\n"@, line, q + head.len());
        assert(agent_section(r) == head + allow_lines(r, r.allowed_ips@) + "\n"@);
        lemma_occurs_in_suffix(agent_sections(init), agent_section(r), line, q + head.len());
        q + head.len() + agent_sections(init).len()
    } else {
        let p = lemma_allow_line_occurs(init, j, m);
        lemma_occurs_in_prefix(agent_sections(init), agent_section(rules.last()), line, p);
        p
    }
}

/// Every generated ruleset begins with `flush ruleset`, and is its drop
/// part, then the agents' sections, then the closing chains.
pub proof fn lemma_ruleset_layout(rules: Seq<AgentAllowRule>)
    ensures
        ruleset_text(rules).take(14) == "flush ruleset\n"@,
        ruleset_text(rules) == ruleset_drop_part(rules) + agent_sections(rules) + ruleset_tail(),
{
    let text = ruleset_text(rules);
    assert(text =~= ruleset_drop_part(rules) + agent_sections(rules) + ruleset_tail());
    reveal_strlit("flush ruleset\n");
    reveal_strlit("flush ruleset\n\ntable inet nullbox {\n  chain forward {\n    type filter hook forward priority 0; policy drop;\n\n    ct state established,related accept\n\n");
    assert(text.take(14) =~= "flush ruleset\n"@);
}

/// Every generated ruleset's drop part holds the line that drops traffic to
/// each cloud metadata range.
pub proof fn lemma_ruleset_drops_metadata(rules: Seq<AgentAllowRule>, i: int) -> (p: int)
    requires
        0 <= i < cloud_metadata_cidr_list().len(),
    ensures
        occurs_at(ruleset_text(rules), metadata_line(cloud_metadata_cidr_list()[i]), p),
        p + metadata_line(cloud_metadata_cidr_list()[i]).len() <= ruleset_drop_part(rules).len(),
{
    let text = ruleset_text(rules);
    let meta = metadata_lines(cloud_metadata_cidr_list());
    let private = private_block_section(rfc1918_cidr_list(), rules);
    let agents = agent_sections(rules);
    let line = metadata_line(cloud_metadata_cidr_list()[i]);
    let q = lemma_metadata_line_occurs(cloud_metadata_cidr_list(), i);
    lemma_occurs_in_suffix(ruleset_head(), meta, line, q);
    let p = q + ruleset_head().len();
    lemma_occurs_in_prefix(ruleset_head() + meta, "\n"@ + private + "\n"@ + agents + ruleset_tail(), line, p);
    assert(ruleset_head() + meta + ("\n"@ + private + "\n"@ + agents + ruleset_tail()) =~= text);
    p
}

/// Every generated ruleset's drop part holds, for each RFC-1918 range and
/// each agent, the line that drops that agent's traffic to the range.
pub proof fn lemma_ruleset_drops_private(rules: Seq<AgentAllowRule>, i: int, j: int) -> (p: int)
    requires
        0 <= i < rfc1918_cidr_list().len(),
        0 <= j < rules.len(),
    ensures
        occurs_at(ruleset_text(rules), private_block_line(rfc1918_cidr_list()[i], rules[j]), p),
        p + private_block_line(rfc1918_cidr_list()[i], rules[j]).len() <= ruleset_drop_part(rules).len(),
{
    let text = ruleset_text(rules);
    let meta = metadata_lines(cloud_metadata_cidr_list());
    let private = private_block_section(rfc1918_cidr_list(), rules);
    let agents = agent_sections(rules);
    let line = private_block_line(rfc1918_cidr_list()[i], rules[j]);
    let before = ruleset_head() + meta + "\n"@;
    let q = lemma_private_line_occurs(rfc1918_cidr_list(), rules, i, j);
    lemma_occurs_in_suffix(before, private, line, q);
    let p = q + before.len();
    lemma_occurs_in_prefix(before + private, "\n"@ + agents + ruleset_tail(), line, p);
    assert(before + private + ("\n"@ + agents + ruleset_tail()) =~= text);
    p
}

/// Every generated ruleset holds, after its drop part, the line that
/// accepts each agent's traffic to each of its permitted addresses.
pub proof fn lemma_ruleset_accepts_allowed(rules: Seq<AgentAllowRule>, j: int, m: int) -> (p: int)
    requires
        0 <= j < rules.len(),
        0 <= m < rules[j].allowed_ips@.len(),
    ensures
        occurs_at(ruleset_text(rules), allow_line(rules[j], rules[j].allowed_ips@[m]), p),
        p >= ruleset_drop_part(rules).len(),
{
    let drop_part = ruleset_drop_part(rules);
    let agents = agent_sections(rules);
    let line = allow_line(rules[j], rules[j].allowed_ips@[m]);
    let q = lemma_allow_line_occurs(rules, j, m);
    lemma_occurs_in_suffix(drop_part, agents, line, q);
    lemma_occurs_in_prefix(drop_part + agents, ruleset_tail(), line, q + drop_part.len());
    lemma_ruleset_layout(rules);
    q + drop_part.len()
}

// ---------------------------------------------------------------------------
// The pieces a ruleset is made of
// ---------------------------------------------------------------------------

/// The comment line that opens an agent's section.
pub open spec fn agent_comment(r: AgentAllowRule) -> Seq<char> {
    "    # Agent: "@ + r.agent_name@ + "\n"@
}

/// For each private range in turn, its drop rule for each agent.
pub open spec fn private_pieces(cidrs: Seq<Seq<char>>, rules: Seq<AgentAllowRule>) -> Seq<Seq<char>>
    decreases cidrs.len(),
{
    if cidrs.len() == 0 {
        Seq::empty()
    } else {
        private_pieces(cidrs.drop_last(), rules) + rules.map_values(|r: AgentAllowRule| private_block_line(cidrs.last(), r))
    }
}

/// An agent's section: its comment line, an accept rule per address, and a
/// blank line.
pub open spec fn agent_section_pieces(r: AgentAllowRule) -> Seq<Seq<char>> {
    seq![agent_comment(r)] + r.allowed_ips@.map_values(|ip: IpAddress| allow_line(r, ip)) + seq!["\n"@]
}

/// The agents' sections, in order.
pub open spec fn agent_pieces(rules: Seq<AgentAllowRule>) -> Seq<Seq<char>>
    decreases rules.len(),
{
    if rules.len() == 0 {
        Seq::empty()
    } else {
        agent_pieces(rules.drop_last()) + agent_section_pieces(rules.last())
    }
}

/// The ruleset as a sequence of pieces: the fixed opening, one drop rule per
/// cloud metadata range, a blank line, the private-range drop rules, a blank
/// line, the agents' sections, and the fixed closing chains.
pub open spec fn ruleset_pieces(rules: Seq<AgentAllowRule>) -> Seq<Seq<char>> {
    seq![ruleset_head()] + cloud_metadata_cidr_list().map_values(|c: Seq<char>| metadata_line(c)) + seq!["\n"@]
        + private_pieces(rfc1918_cidr_list(), rules) + seq!["\n"@] + agent_pieces(rules) + seq![ruleset_tail()]
}

proof fn lemma_single_flatten(x: Seq<char>)
    ensures
        seq![x].flatten_alt() == x,
{
    let e = Seq::<Seq<char>>::empty();
    assert(seq![x].drop_last() =~= e);
    assert(e.flatten_alt() == Seq::<char>::empty());
    assert(seq![x].last() == x);
    assert(Seq::<char>::empty() + x =~= x);
}

proof fn lemma_metadata_pieces(cidrs: Seq<Seq<char>>)
    ensures
        cidrs.map_values(|c: Seq<char>| metadata_line(c)).flatten_alt() == metadata_lines(cidrs),
    decreases cidrs.len(),
{
    let m = cidrs.map_values(|c: Seq<char>| metadata_line(c));
    if cidrs.len() > 0 {
        assert(m.drop_last() =~= cidrs.drop_last().map_values(|c: Seq<char>| metadata_line(c)));
        lemma_metadata_pieces(cidrs.drop_last());
    } else {
        assert(m =~= Seq::<Seq<char>>::empty());
    }
}

proof fn lemma_private_line_pieces(cidr: Seq<char>, rules: Seq<AgentAllowRule>)
    ensures
        rules.map_values(|r: AgentAllowRule| private_block_line(cidr, r)).flatten_alt() == private_block_lines(cidr, rules),
    decreases rules.len(),
{
    let m = rules.map_values(|r: AgentAllowRule| private_block_line(cidr, r));
    if rules.len() > 0 {
        assert(m.drop_last() =~= rules.drop_last().map_values(|r: AgentAllowRule| private_block_line(cidr, r)));
        lemma_private_line_pieces(cidr, rules.drop_last());
    } else {
        assert(m =~= Seq::<Seq<char>>::empty());
    }
}

proof fn lemma_private_pieces(cidrs: Seq<Seq<char>>, rules: Seq<AgentAllowRule>)
    ensures
        private_pieces(cidrs, rules).flatten_alt() == private_block_section(cidrs, rules),
    decreases cidrs.len(),
{
    if cidrs.len() > 0 {
        lemma_private_pieces(cidrs.drop_last(), rules);
        lemma_private_line_pieces(cidrs.last(), rules);
        lemma_flatten_alt_concat(
            private_pieces(cidrs.drop_last(), rules),
            rules.map_values(|r: AgentAllowRule| private_block_line(cidrs.last(), r)),
        );
    }
}

proof fn lemma_allow_pieces(r: AgentAllowRule, ips: Seq<IpAddress>)
    ensures
        ips.map_values(|ip: IpAddress| allow_line(r, ip)).flatten_alt() == allow_lines(r, ips),
    decreases ips.len(),
{
    let m = ips.map_values(|ip: IpAddress| allow_line(r, ip));
    if ips.len() > 0 {
        assert(m.drop_last() =~= ips.drop_last().map_values(|ip: IpAddress| allow_line(r, ip)));
        lemma_allow_pieces(r, ips.drop_last());
    } else {
        assert(m =~= Seq::<Seq<char>>::empty());
    }
}

proof fn lemma_agent_pieces(rules: Seq<AgentAllowRule>)
    ensures
        agent_pieces(rules).flatten_alt() == agent_sections(rules),
    decreases rules.len(),
{
    if rules.len() > 0 {
        let r = rules.last();
        let ips = r.allowed_ips@.map_values(|ip: IpAddress| allow_line(r, ip));
        lemma_agent_pieces(rules.drop_last());
        lemma_allow_pieces(r, r.allowed_ips@);
        lemma_single_flatten(agent_comment(r));
        lemma_single_flatten("\n"@);
        lemma_flatten_alt_concat(seq![agent_comment(r)], ips);
        lemma_flatten_alt_concat(seq![agent_comment(r)] + ips, seq!["\n"@]);
        assert(agent_section_pieces(r).flatten_alt() == agent_section(r));
        lemma_flatten_alt_concat(agent_pieces(rules.drop_last()), agent_section_pieces(r));
    }
}

proof fn lemma_ruleset_pieces_text(rules: Seq<AgentAllowRule>)
    ensures
        ruleset_pieces(rules).flatten_alt() == ruleset_text(rules),
{
    let a = seq![ruleset_head()];
    let b = cloud_metadata_cidr_list().map_values(|c: Seq<char>| metadata_line(c));
    let nl = seq!["\n"@];
    let c = private_pieces(rfc1918_cidr_list(), rules);
    let d = agent_pieces(rules);
    let e = seq![ruleset_tail()];
    lemma_single_flatten(ruleset_head());
    lemma_single_flatten("\n"@);
    lemma_single_flatten(ruleset_tail());
    lemma_metadata_pieces(cloud_metadata_cidr_list());
    lemma_private_pieces(rfc1918_cidr_list(), rules);
    lemma_agent_pieces(rules);
    lemma_flatten_alt_concat(a, b);
    lemma_flatten_alt_concat(a + b, nl);
    lemma_flatten_alt_concat(a + b + nl, c);
    lemma_flatten_alt_concat(a + b + nl + c, nl);
    lemma_flatten_alt_concat(a + b + nl + c + nl, d);
    lemma_flatten_alt_concat(a + b + nl + c + nl + d, e);
}

/// An nftables rule accepting traffic from interface `tap` to `addr`.
pub open spec fn accept_rule(tap: Seq<char>, addr: Seq<char>) -> Seq<char> {
    "    iifname \""@ + tap + "\" ip daddr "@ + addr + " accept\n"@
}

/// `l` is a rule accepting an interface's traffic to an address.
pub open spec fn accepts_address(l: Seq<char>) -> bool {
    exists|tap: Seq<char>, addr: Seq<char>| l == accept_rule(tap, addr)
}

/// `l` is the accept rule of one of the agents for one of its permitted
/// addresses.
pub open spec fn is_allowed_accept(rules: Seq<AgentAllowRule>, l: Seq<char>) -> bool {
    exists|j: int, m: int|
        0 <= j < rules.len() && 0 <= m < rules[j].allowed_ips@.len() && l == #[trigger] allow_line(
            rules[j],
            rules[j].allowed_ips@[m],
        )
}

/// Every piece that accepts traffic to an address is an agent's accept rule
/// for one of its permitted addresses.
pub open spec fn only_allowed_accepts(rules: Seq<AgentAllowRule>, pieces: Seq<Seq<char>>) -> bool {
    forall|i: int| 0 <= i < pieces.len() && accepts_address(#[trigger] pieces[i]) ==> is_allowed_accept(rules, pieces[i])
}

proof fn lemma_accept_rule_shape(tap: Seq<char>, addr: Seq<char>)
    ensures
        accept_rule(tap, addr).len() >= 21,
        accept_rule(tap, addr)[0] == ' ',
        accept_rule(tap, addr)[2] == ' ',
        accept_rule(tap, addr)[4] == 'i',
        accept_rule(tap, addr)[accept_rule(tap, addr).len() - 2] == 't',
{
    reveal_strlit("    iifname \"");
    reveal_strlit("\" ip daddr ");
    reveal_strlit(" accept\n");
    let l = accept_rule(tap, addr);
    let front = "    iifname \""@ + tap + "\" ip daddr "@ + addr;
    assert(l == front + " accept\n"@);
    assert(l[l.len() - 2] == (" accept\n"@)[6]);
    let p = "    iifname \""@;
    assert(front == p + (tap + "\" ip daddr "@ + addr));
    assert(l == p + (tap + "\" ip daddr "@ + addr + " accept\n"@));
}

proof fn lemma_no_accept_head_tail_blank()
    ensures
        !accepts_address(ruleset_head()),
        !accepts_address(ruleset_tail()),
        !accepts_address("\n"@),
{
    reveal_strlit("flush ruleset\n\ntable inet nullbox {\n  chain forward {\n    type filter hook forward priority 0; policy drop;\n\n    ct state established,related accept\n\n");
    reveal_strlit("  }\n\n  chain output {\n    type filter hook output priority 0; policy accept;\n  }\n\n  chain input {\n    type filter hook input priority 0; policy drop;\n    iif lo accept\n    ct state established,related accept\n  }\n}\n");
    reveal_strlit("\n");
    if accepts_address(ruleset_head()) {
        let (tap, addr) = choose|tap: Seq<char>, addr: Seq<char>| ruleset_head() == accept_rule(tap, addr);
        lemma_accept_rule_shape(tap, addr);
    }
    if accepts_address(ruleset_tail()) {
        let (tap, addr) = choose|tap: Seq<char>, addr: Seq<char>| ruleset_tail() == accept_rule(tap, addr);
        lemma_accept_rule_shape(tap, addr);
    }
    if accepts_address("\n"@) {
        let (tap, addr) = choose|tap: Seq<char>, addr: Seq<char>| "\n"@ == accept_rule(tap, addr);
        lemma_accept_rule_shape(tap, addr);
    }
}

proof fn lemma_metadata_line_accepts_nothing(c: Seq<char>)
    ensures
        !accepts_address(metadata_line(c)),
{
    reveal_strlit(" drop comment \"block cloud metadata\"\n");
    let m = metadata_line(c);
    assert(m[m.len() - 2] == (" drop comment \"block cloud metadata\"\n"@)[35]);
    if accepts_address(m) {
        let (tap, addr) = choose|tap: Seq<char>, addr: Seq<char>| m == accept_rule(tap, addr);
        lemma_accept_rule_shape(tap, addr);
    }
}

proof fn lemma_drop_rules_accept_nothing(c: Seq<char>, r: AgentAllowRule)
    ensures
        !accepts_address(private_block_line(c, r)),
        !accepts_address(agent_comment(r)),
{
    reveal_strlit("\"\n");
    reveal_strlit("    # Agent: ");
    let pl = private_block_line(c, r);
    assert(pl[pl.len() - 2] == ("\"\n"@)[0]);
    let cm = agent_comment(r);
    assert(cm == "    # Agent: "@ + (r.agent_name@ + "\n"@));
    assert(cm[4] == ("    # Agent: "@)[4]);
    if accepts_address(pl) {
        let (tap, addr) = choose|tap: Seq<char>, addr: Seq<char>| pl == accept_rule(tap, addr);
        lemma_accept_rule_shape(tap, addr);
    }
    if accepts_address(cm) {
        let (tap, addr) = choose|tap: Seq<char>, addr: Seq<char>| cm == accept_rule(tap, addr);
        lemma_accept_rule_shape(tap, addr);
    }
}

proof fn lemma_only_allowed_concat(rules: Seq<AgentAllowRule>, a: Seq<Seq<char>>, b: Seq<Seq<char>>)
    requires
        only_allowed_accepts(rules, a),
        only_allowed_accepts(rules, b),
    ensures
        only_allowed_accepts(rules, a + b),
{
    assert forall|i: int| 0 <= i < (a + b).len() && accepts_address(#[trigger] (a + b)[i]) implies is_allowed_accept(
        rules,
        (a + b)[i],
    ) by {
        if i < a.len() {
            assert((a + b)[i] == a[i]);
        } else {
            assert((a + b)[i] == b[i - a.len()]);
        }
    }
}

proof fn lemma_private_pieces_accept_nothing(cidrs: Seq<Seq<char>>, rules: Seq<AgentAllowRule>, all: Seq<AgentAllowRule>)
    ensures
        only_allowed_accepts(all, private_pieces(cidrs, rules)),
    decreases cidrs.len(),
{
    if cidrs.len() > 0 {
        lemma_private_pieces_accept_nothing(cidrs.drop_last(), rules, all);
        let m = rules.map_values(|r: AgentAllowRule| private_block_line(cidrs.last(), r));
        assert forall|i: int| 0 <= i < m.len() && accepts_address(#[trigger] m[i]) implies is_allowed_accept(all, m[i]) by {
            lemma_drop_rules_accept_nothing(cidrs.last(), rules[i]);
        }
        lemma_only_allowed_concat(all, private_pieces(cidrs.drop_last(), rules), m);
    }
}

proof fn lemma_agent_pieces_allowed(rules: Seq<AgentAllowRule>, all: Seq<AgentAllowRule>)
    requires
        rules.len() <= all.len(),
        rules == all.take(rules.len() as int),
    ensures
        only_allowed_accepts(all, agent_pieces(rules)),
    decreases rules.len(),
{
    if rules.len() > 0 {
        let n = rules.len() - 1;
        let init = rules.drop_last();
        assert(init == all.take(n));
        lemma_agent_pieces_allowed(init, all);
        let r = rules.last();
        assert(r == all[n]);
        let ips = r.allowed_ips@.map_values(|ip: IpAddress| allow_line(r, ip));
        let sec = agent_section_pieces(r);
        assert forall|i: int| 0 <= i < sec.len() && accepts_address(#[trigger] sec[i]) implies is_allowed_accept(all, sec[i]) by {
            lemma_drop_rules_accept_nothing(Seq::empty(), r);
            lemma_no_accept_head_tail_blank();
            if i == 0 {
                assert(sec[i] == agent_comment(r));
            } else if i < 1 + ips.len() {
                let m = i - 1;
                assert(sec[i] == ips[m]);
                assert(sec[i] == allow_line(all[n], all[n].allowed_ips@[m]));
            } else {
                assert(sec[i] == "\n"@);
            }
        }
        lemma_only_allowed_concat(all, agent_pieces(init), sec);
    }
}

/// The only rules in a generated ruleset that accept traffic to an address
/// are the agents' accept rules for their permitted addresses: the ruleset
/// is the concatenation of its pieces, and every piece of the form
/// `iifname "<tap>" ip daddr <addr> accept` is the accept rule of some agent
/// for one of its permitted addresses.
pub proof fn lemma_ruleset_accepts_only_allowed(rules: Seq<AgentAllowRule>)
    ensures
        ruleset_pieces(rules).flatten_alt() == ruleset_text(rules),
        only_allowed_accepts(rules, ruleset_pieces(rules)),
{
    lemma_ruleset_pieces_text(rules);
    lemma_no_accept_head_tail_blank();
    let a = seq![ruleset_head()];
    let b = cloud_metadata_cidr_list().map_values(|c: Seq<char>| metadata_line(c));
    let nl = seq!["\n"@];
    let c = private_pieces(rfc1918_cidr_list(), rules);
    let d = agent_pieces(rules);
    let e = seq![ruleset_tail()];
    assert(only_allowed_accepts(rules, a));
    assert(only_allowed_accepts(rules, nl));
    assert(only_allowed_accepts(rules, e));
    assert forall|i: int| 0 <= i < b.len() && accepts_address(#[trigger] b[i]) implies is_allowed_accept(rules, b[i]) by {
        lemma_metadata_line_accepts_nothing(cloud_metadata_cidr_list()[i]);
    }
    lemma_private_pieces_accept_nothing(rfc1918_cidr_list(), rules, rules);
    assert(rules == rules.take(rules.len() as int));
    lemma_agent_pieces_allowed(rules, rules);
    lemma_only_allowed_concat(rules, a, b);
    lemma_only_allowed_concat(rules, a + b, nl);
    lemma_only_allowed_concat(rules, a + b + nl, c);
    lemma_only_allowed_concat(rules, a + b + nl + c, nl);
    lemma_only_allowed_concat(rules, a + b + nl + c + nl, d);
    lemma_only_allowed_concat(rules, a + b + nl + c + nl + d, e);
}

} // verus!
