use nullbox::egress::blocklist::{cloud_metadata_cidrs, is_blocked, link_local_cidrs, rfc1918_cidrs};
use nullbox::egress::firewall::{generate_ruleset, AgentAllowRule};
use nullbox::egress::ip::{compare_ip, ip_to_string, IpAddress};
use nullbox::egress::registry::AgentRegistry;
use nullbox::order::Cmp;

fn v4(a: u8, b: u8, c: u8, d: u8) -> IpAddress {
    IpAddress::V4([a, b, c, d])
}

fn v6(segments: [u16; 8]) -> IpAddress {
    IpAddress::V6(segments)
}

fn parse(text: &str) -> IpAddress {
    let parts: Vec<u8> = text.split('.').map(|p| p.parse().unwrap()).collect();
    v4(parts[0], parts[1], parts[2], parts[3])
}

#[test]
fn blocks_cloud_metadata() {
    assert!(is_blocked(&parse("169.254.169.254")));
}

#[test]
fn blocks_rfc1918_10() {
    assert!(is_blocked(&parse("10.0.0.1")));
}

#[test]
fn blocks_rfc1918_172() {
    assert!(is_blocked(&parse("172.16.0.1")));
    assert!(is_blocked(&parse("172.31.255.255")));
}

#[test]
fn blocks_rfc1918_192() {
    assert!(is_blocked(&parse("192.168.1.1")));
}

#[test]
fn allows_public_ip() {
    assert!(!is_blocked(&parse("104.18.0.1")));
}

#[test]
fn allows_cloudflare_dns() {
    assert!(!is_blocked(&parse("1.1.1.1")));
}

#[test]
fn blocks_alibaba_metadata() {
    assert!(is_blocked(&parse("100.100.100.200")));
}

#[test]
fn blocks_ipv6() {
    assert!(is_blocked(&v6([0x2001, 0xdb8, 0, 0, 0, 0, 0, 1])));
}

#[test]
fn does_not_block_172_outside_range() {
    assert!(!is_blocked(&parse("172.32.0.1")));
}

#[test]
fn does_not_block_neighbours_of_alibaba_metadata() {
    assert!(!is_blocked(&v4(100, 100, 100, 201)));
    assert!(!is_blocked(&v4(172, 15, 255, 255)));
}

#[test]
fn blocklists_in_cidr_notation() {
    assert_eq!(cloud_metadata_cidrs(), vec!["169.254.169.254/32", "100.100.100.200/32", "fd00:ec2::254/128"]);
    assert_eq!(rfc1918_cidrs(), vec!["10.0.0.0/8", "172.16.0.0/12", "192.168.0.0/16"]);
    assert_eq!(link_local_cidrs(), vec!["169.254.0.0/16", "fe80::/10"]);
}

#[test]
fn ip_text_forms() {
    assert_eq!(ip_to_string(&v4(104, 18, 0, 1)), "104.18.0.1");
    assert_eq!(ip_to_string(&v4(0, 0, 0, 0)), "0.0.0.0");
    assert_eq!(ip_to_string(&v4(255, 255, 255, 255)), "255.255.255.255");
    let cases: [([u16; 8], &str); 13] = [
        ([0, 0, 0, 0, 0, 0, 0, 0], "::"),
        ([0, 0, 0, 0, 0, 0, 0, 1], "::1"),
        ([0x2001, 0xdb8, 0, 0, 0, 0, 0, 1], "2001:db8::1"),
        ([0xfd00, 0xec2, 0, 0, 0, 0, 0, 0x254], "fd00:ec2::254"),
        ([0xfe80, 0, 0, 0, 0, 0, 1, 2], "fe80::1:2"),
        ([1, 0, 0, 2, 0, 0, 0, 3], "1:0:0:2::3"),
        ([1, 0, 0, 2, 0, 0, 3, 4], "1::2:0:0:3:4"),
        ([1, 2, 3, 4, 5, 6, 7, 8], "1:2:3:4:5:6:7:8"),
        ([1, 0, 0, 0, 0, 0, 0, 0], "1::"),
        ([0, 0, 0, 0, 0, 0xffff, 0xc000, 0x201], "::ffff:192.0.2.1"),
        ([0, 0, 0, 0, 0, 0xffff, 0, 0], "::ffff:0.0.0.0"),
        ([0, 0, 0, 0, 0, 0xfffe, 0xc000, 0x201], "::fffe:c000:201"),
        ([0x2001, 0xdb8, 0, 1, 1, 1, 1, 1], "2001:db8:0:1:1:1:1:1"),
    ];
    for (segments, expected) in cases {
        assert_eq!(ip_to_string(&v6(segments)), expected, "{:?}", segments);
    }
}

#[test]
fn ip_order() {
    let ordered = [
        v4(1, 1, 1, 1),
        v4(1, 1, 1, 2),
        v4(10, 0, 0, 1),
        v4(255, 0, 0, 0),
        v6([0, 0, 0, 0, 0, 0, 0, 0]),
        v6([0, 0, 0, 0, 0, 0, 0, 1]),
        v6([0x2001, 0xdb8, 0, 0, 0, 0, 0, 1]),
    ];
    for (i, a) in ordered.iter().enumerate() {
        for (j, b) in ordered.iter().enumerate() {
            let expected = if i < j {
                Cmp::Less
            } else if i == j {
                Cmp::Equal
            } else {
                Cmp::Greater
            };
            assert_eq!(compare_ip(a, b), expected, "{:?} {:?}", a, b);
        }
    }
}

#[test]
fn allow_keeps_addresses_sorted_and_distinct() {
    let mut rule = AgentAllowRule::new("researcher".to_string(), "tap-researcher".to_string());
    assert!(rule.allow(v4(104, 18, 0, 1)));
    assert!(rule.allow(v4(1, 1, 1, 1)));
    assert!(rule.allow(v6([0x2001, 0xdb8, 0, 0, 0, 0, 0, 1])));
    assert!(!rule.allow(v4(1, 1, 1, 1)));
    assert_eq!(rule.allowed_ips, vec![v4(1, 1, 1, 1), v4(104, 18, 0, 1), v6([0x2001, 0xdb8, 0, 0, 0, 0, 0, 1])]);
}

#[test]
fn empty_agent_rules_produces_default_deny() {
    let ruleset = generate_ruleset(&[]);
    assert!(ruleset.content.contains("policy drop"));
    assert!(ruleset.content.contains("flush ruleset"));
    assert!(ruleset.content.contains("169.254.169.254"));
}

#[test]
fn agent_allow_rule_appears_in_output() {
    let mut rule = AgentAllowRule::new("researcher".to_string(), "tap-researcher".to_string());
    rule.allow(parse("104.18.0.1"));
    let rules = vec![rule];

    let ruleset = generate_ruleset(&rules);
    assert!(ruleset.content.contains("tap-researcher"));
    assert!(ruleset.content.contains("104.18.0.1"));
    assert!(ruleset.content.contains("# Agent: researcher"));
}

#[test]
fn rfc1918_blocked_per_agent() {
    let rules = vec![AgentAllowRule::new("test".to_string(), "tap-test".to_string())];

    let ruleset = generate_ruleset(&rules);
    assert!(ruleset.content.contains("10.0.0.0/8"));
    assert!(ruleset.content.contains("172.16.0.0/12"));
    assert!(ruleset.content.contains("192.168.0.0/16"));
}

#[test]
fn host_output_is_allowed() {
    let ruleset = generate_ruleset(&[]);
    // Host output chain should accept by default
    assert!(ruleset.content.contains("chain output"));
    assert!(ruleset.content.contains("policy accept"));
}

#[test]
fn ruleset_exact_text_for_one_agent() {
    let mut rule = AgentAllowRule::new("a".to_string(), "tap-a".to_string());
    rule.allow(v4(1, 2, 3, 4));
    let ruleset = generate_ruleset(&[rule]);
    let expected = [
        "flush ruleset\n",
        "\n",
        "table inet nullbox {\n",
        "  chain forward {\n",
        "    type filter hook forward priority 0; policy drop;\n",
        "\n",
        "    ct state established,related accept\n",
        "\n",
        "    ip daddr 169.254.169.254/32 drop comment \"block cloud metadata\"\n",
        "    ip daddr 100.100.100.200/32 drop comment \"block cloud metadata\"\n",
        "    ip daddr fd00:ec2::254/128 drop comment \"block cloud metadata\"\n",
        "\n",
        "    iifname \"tap-a\" ip daddr 10.0.0.0/8 drop comment \"block RFC-1918 from a\"\n",
        "    iifname \"tap-a\" ip daddr 172.16.0.0/12 drop comment \"block RFC-1918 from a\"\n",
        "    iifname \"tap-a\" ip daddr 192.168.0.0/16 drop comment \"block RFC-1918 from a\"\n",
        "\n",
        "    # Agent: a\n",
        "    iifname \"tap-a\" ip daddr 1.2.3.4 accept\n",
        "\n",
        "  }\n",
        "\n",
        "  chain output {\n",
        "    type filter hook output priority 0; policy accept;\n",
        "  }\n",
        "\n",
        "  chain input {\n",
        "    type filter hook input priority 0; policy drop;\n",
        "    iif lo accept\n",
        "    ct state established,related accept\n",
        "  }\n",
        "}\n",
    ]
    .concat();
    assert_eq!(ruleset.content, expected);
}

#[test]
fn registry_filters_blocked_addresses() {
    let mut reg = AgentRegistry::new();
    let resolved = vec![v4(104, 18, 0, 1), v4(10, 0, 0, 5), v4(169, 254, 169, 254), v4(1, 1, 1, 1), v4(104, 18, 0, 1)];
    let n = reg.register("researcher", vec!["api.example.com".to_string()], &resolved).unwrap();
    assert_eq!(n, 2);
    let rules = reg.agent_rules();
    assert_eq!(rules.len(), 1);
    assert_eq!(rules[0].agent_name, "researcher");
    assert_eq!(rules[0].tap_device, "tap-researcher");
    assert_eq!(rules[0].allowed_ips, vec![v4(1, 1, 1, 1), v4(104, 18, 0, 1)]);
    assert_eq!(reg.agent_domains(0), &vec!["api.example.com".to_string()]);
    let ruleset = reg.ruleset();
    assert!(ruleset.content.contains("iifname \"tap-researcher\" ip daddr 104.18.0.1 accept"));
    assert!(!ruleset.content.contains("ip daddr 10.0.0.5 accept"));
}

#[test]
fn registry_replaces_and_removes() {
    let mut reg = AgentRegistry::new();
    reg.register("a", vec![], &vec![v4(1, 1, 1, 1)]).unwrap();
    reg.register("b", vec![], &vec![v4(2, 2, 2, 2)]).unwrap();
    reg.register("a", vec![], &vec![v4(3, 3, 3, 3)]).unwrap();
    let rules = reg.agent_rules();
    assert_eq!(rules.len(), 2);
    assert_eq!(rules[0].allowed_ips, vec![v4(3, 3, 3, 3)]);
    assert!(reg.unregister("a").is_ok());
    assert_eq!(reg.agent_rules().len(), 1);
    assert_eq!(reg.unregister("a").unwrap_err().to_string(), "agent 'a' not registered");
    assert_eq!(reg.unregister("").unwrap_err().to_string(), "missing or empty 'agent' field");
    assert_eq!(reg.register("", vec![], &vec![]).unwrap_err().to_string(), "missing or empty 'agent' field");
}

#[test]
fn ruleset_drop_lines_precede_accept_lines() {
    let mut a = AgentAllowRule::new("a".to_string(), "tap-a".to_string());
    a.allow(v4(1, 2, 3, 4));
    a.allow(v4(5, 6, 7, 8));
    let mut b = AgentAllowRule::new("b".to_string(), "tap-b".to_string());
    b.allow(v4(9, 9, 9, 9));
    let text = generate_ruleset(&[a, b]).content;
    assert!(text.starts_with("flush ruleset\n"));
    let first_accept = text.find("ip daddr 1.2.3.4 accept").unwrap();
    for tap in ["tap-a", "tap-b"] {
        for cidr in ["10.0.0.0/8", "172.16.0.0/12", "192.168.0.0/16"] {
            let line = format!("iifname \"{tap}\" ip daddr {cidr} drop");
            assert!(text.find(&line).unwrap() < first_accept);
        }
    }
    assert!(text.find("ip daddr 169.254.169.254/32 drop").unwrap() < first_accept);
    assert!(text.contains("iifname \"tap-a\" ip daddr 5.6.7.8 accept\n"));
    assert!(text.contains("iifname \"tap-b\" ip daddr 9.9.9.9 accept\n"));
    let accepts = text.lines().filter(|l| l.contains("ip daddr") && l.ends_with(" accept")).count();
    assert_eq!(accepts, 3);
}
