//! The agents that egress knows of: for each, the domains it declared and
//! the rule built from the addresses they resolved to. Blocked addresses
//! never enter a rule, so no ruleset accepts traffic to them.
use vstd::prelude::*;
use crate::egress::blocklist::{blocked, is_blocked};
use crate::egress::firewall::{AgentAllowRule, Ruleset, generate_ruleset, ruleset_text};
use crate::egress::ip::IpAddress;
use crate::text::{str_eq, views};

verus! {

/// Why a registry request was refused.
#[derive(Debug)]
pub enum EgressError {
    MissingAgent,
    NotRegistered(String),
}

/// The text of a registry error.
pub open spec fn egress_error_message(e: EgressError) -> Seq<char> {
    match e {
        EgressError::MissingAgent => "missing or empty 'agent' field"@,
        EgressError::NotRegistered(n) => "agent '"@ + n@ + "' not registered"@,
    }
}

impl EgressError {
    /// The human-readable description of the error.
    pub fn to_string(&self) -> (s: String)
        ensures
            s@ == egress_error_message(*self),
    {
        match self {
            EgressError::MissingAgent => String::from_str("missing or empty 'agent' field"),
            EgressError::NotRegistered(n) => {
                let mut s = String::from_str("agent '");
                s.append(n.as_str());
                s.append("' not registered");
                s
            },
        }
    }
}

/// The tap device of an agent: `tap-` and its name.
pub open spec fn tap_device_for(name: Seq<char>) -> Seq<char> {
    "tap-"@ + name
}

/// An agent's tap device is named `tap-` followed by the agent's name.
pub proof fn lemma_tap_device_name(name: Seq<char>)
    ensures
        tap_device_for(name).len() == name.len() + 4,
        tap_device_for(name).take(4) == seq!['t', 'a', 'p', '-'],
        tap_device_for(name).skip(4) == name,
{
    reveal_strlit("tap-");
    assert(tap_device_for(name).take(4) =~= seq!['t', 'a', 'p', '-']);
    assert(tap_device_for(name).skip(4) =~= name);
}

/// The position of the agent named `name`, if registered.
pub open spec fn agent_index(rules: Seq<AgentAllowRule>, name: Seq<char>) -> Option<int> {
    if exists|i: int| 0 <= i < rules.len() && #[trigger] rules[i].agent_name@ == name {
        Some(choose|i: int| 0 <= i < rules.len() && #[trigger] rules[i].agent_name@ == name)
    } else {
        None
    }
}

/// The rule for an agent that resolved to `resolved`: its name, its tap
/// device, and exactly the resolved addresses that are not blocked, in
/// ascending order without repetitions.
pub open spec fn is_rule_for(r: AgentAllowRule, name: Seq<char>, resolved: Seq<IpAddress>) -> bool {
    &&& r.agent_name@ == name
    &&& r.tap_device@ == tap_device_for(name)
    &&& r.wf()
    &&& forall|ip: IpAddress| r.allowed_ips@.contains(ip) <==> (resolved.contains(ip) && !blocked(ip))
}

/// The registered agents, each name once, in the order first registered.
pub struct AgentRegistry {
    rules: Vec<AgentAllowRule>,
    domains: Vec<Vec<String>>,
}

impl AgentRegistry {
    /// The agents' rules, in registration order.
    pub closed spec fn rules(&self) -> Seq<AgentAllowRule> {
        self.rules@
    }

    /// The agents' declared domains, in the same order.
    pub closed spec fn domain_lists(&self) -> Seq<Seq<Seq<char>>> {
        self.domains@.map_values(|d: Vec<String>| views(d@))
    }

    /// Names are distinct, every rule keeps its addresses ascending, and no
    /// rule allows a blocked address.
    pub closed spec fn wf(&self) -> bool {
        &&& self.rules@.len() == self.domains@.len()
        &&& forall|i: int, j: int|
            0 <= i < self.rules@.len() && 0 <= j < self.rules@.len() && i != j
                ==> #[trigger] self.rules@[i].agent_name@ != #[trigger] self.rules@[j].agent_name@
        &&& forall|i: int| 0 <= i < self.rules@.len() ==> (#[trigger] self.rules@[i]).wf()
        &&& forall|i: int, k: int|
            0 <= i < self.rules@.len() && 0 <= k < self.rules@[i].allowed_ips@.len()
                ==> !blocked(#[trigger] self.rules@[i].allowed_ips@[k])
    }

    /// An empty registry.
    pub fn new() -> (r: Self)
        ensures
            r.wf(),
            r.rules().len() == 0,
            r.domain_lists().len() == 0,
    {
        let r = AgentRegistry { rules: Vec::new(), domains: Vec::new() };
        assert(r.domain_lists() =~= Seq::<Seq<Seq<char>>>::empty());
        r
    }

    /// A well-formed registry holds one domain list per rule.
    pub proof fn lemma_one_domain_list_per_rule(&self)
        requires
            self.wf(),
        ensures
            self.domain_lists().len() == self.rules().len(),
    {
    }

    /// The agents' rules, for generating the ruleset.
    pub fn agent_rules(&self) -> (r: &Vec<AgentAllowRule>)
        ensures
            r@ == self.rules(),
    {
        &self.rules
    }

    /// The domains an agent declared, by its position.
    pub fn agent_domains(&self, i: usize) -> (d: &Vec<String>)
        requires
            self.wf(),
            i < self.rules().len(),
        ensures
            views(d@) == self.domain_lists()[i as int],
    {
        &self.domains[i]
    }

    fn find(&self, name: &str) -> (r: Option<usize>)
        requires
            self.wf(),
        ensures
            match r {
                Some(i) => i < self.rules().len() && self.rules()[i as int].agent_name@ == name@
                    && agent_index(self.rules(), name@) == Some(i as int),
                None => agent_index(self.rules(), name@) is None,
            },
    {
        let mut i: usize = 0;
        while i < self.rules.len()
            invariant
                self.wf(),
                i <= self.rules@.len(),
                forall|j: int| 0 <= j < i ==> (#[trigger] self.rules@[j]).agent_name@ != name@,
            decreases self.rules@.len() - i,
        {
            if str_eq(self.rules[i].agent_name.as_str(), name) {
                proof {
                    let c = choose|j: int| 0 <= j < self.rules@.len() && #[trigger] self.rules@[j].agent_name@ == name@;
                    if c != i {
                        assert(self.rules@[c].agent_name@ != self.rules@[i as int].agent_name@);
                    }
                }
                return Some(i);
            }
            i = i + 1;
        }
        None
    }

    /// Registers an agent with the domains it declared and the addresses
    /// they resolved to, replacing any earlier registration of that name.
    /// Blocked addresses are left out. Returns how many addresses the agent
    /// may reach. An empty name is refused.
    pub fn register(&mut self, name: &str, domains: Vec<String>, resolved: &Vec<IpAddress>) -> (r: Result<usize, EgressError>)
        requires
            old(self).wf(),
        ensures
            final(self).wf(),
            final(self).domain_lists().len() == final(self).rules().len(),
            name@.len() == 0 ==> (r matches Err(EgressError::MissingAgent) && final(self).rules() == old(self).rules()
                && final(self).domain_lists() == old(self).domain_lists()),
            name@.len() > 0 ==> r is Ok && match agent_index(old(self).rules(), name@) {
                Some(p) => {
                    &&& final(self).rules().len() == old(self).rules().len()
                    &&& is_rule_for(final(self).rules()[p], name@, resolved@)
                    &&& r == Ok::<usize, EgressError>(final(self).rules()[p].allowed_ips@.len() as usize)
                    &&& final(self).domain_lists() == old(self).domain_lists().update(p, views(domains@))
                    &&& forall|i: int| 0 <= i < old(self).rules().len() && i != p
                        ==> #[trigger] final(self).rules()[i] == old(self).rules()[i]
                },
                None => {
                    &&& final(self).rules().len() == old(self).rules().len() + 1
                    &&& final(self).rules().drop_last() == old(self).rules()
                    &&& is_rule_for(final(self).rules().last(), name@, resolved@)
                    &&& r == Ok::<usize, EgressError>(final(self).rules().last().allowed_ips@.len() as usize)
                    &&& final(self).domain_lists() == old(self).domain_lists().push(views(domains@))
                },
            },
    {
        if name.unicode_len() == 0 {
            return Err(EgressError::MissingAgent);
        }
        let mut tap = String::from_str("tap-");
        tap.append(name);
        let mut rule = AgentAllowRule::new(String::from_str(name), tap);
        let mut i: usize = 0;
        while i < resolved.len()
            invariant
                rule.wf(),
                rule.agent_name@ == name@,
                rule.tap_device@ == tap_device_for(name@),
                i <= resolved@.len(),
                forall|x: IpAddress|
                    #![trigger rule.allowed_ips@.contains(x)]
                    #![trigger resolved@.take(i as int).contains(x)]
                    rule.allowed_ips@.contains(x) <==> (resolved@.take(i as int).contains(x) && !blocked(x)),
            decreases resolved@.len() - i,
        {
            let ip = resolved[i];
            let ghost before = rule.allowed_ips@;
            let ghost t = resolved@.take(i as int);
            if !is_blocked(&ip) {
                rule.allow(ip);
            }
            proof {
                assert(resolved@.take(i + 1) =~= t.push(ip));
                assert forall|x: IpAddress| #![trigger rule.allowed_ips@.contains(x)] rule.allowed_ips@.contains(x) <==> (t.push(ip).contains(x) && !blocked(x)) by {
                    let a = rule.allowed_ips@;
                    assert(before.contains(x) <==> (t.contains(x) && !blocked(x)));
                    if !blocked(ip) {
                        assert(a.to_set() == before.to_set().insert(ip));
                        assert(a.contains(x) <==> a.to_set().contains(x));
                        assert(before.contains(x) <==> before.to_set().contains(x));
                        assert(a.contains(x) <==> (before.contains(x) || x == ip));
                    } else {
                        assert(a == before);
                    }
                    if t.push(ip).contains(x) {
                        let q = choose|q: int| 0 <= q < t.push(ip).len() && t.push(ip)[q] == x;
                        if q < t.len() {
                            assert(t[q] == x);
                        }
                    }
                    if t.contains(x) {
                        let q = choose|q: int| 0 <= q < t.len() && t[q] == x;
                        assert(t.push(ip)[q] == x);
                    }
                    if x == ip {
                        assert(t.push(ip)[t.len() as int] == ip);
                    }
                }
                assert forall|x: IpAddress| #![trigger rule.allowed_ips@.contains(x)] rule.allowed_ips@.contains(x) <==> (resolved@.take(i + 1).contains(x) && !blocked(x)) by {
                    assert(resolved@.take(i + 1) == t.push(ip));
                    assert(rule.allowed_ips@.contains(x) <==> (t.push(ip).contains(x) && !blocked(x)));
                }
            }
            i = i + 1;
        }
        proof {
            assert(resolved@.take(resolved@.len() as int) =~= resolved@);
            assert forall|k: int| 0 <= k < rule.allowed_ips@.len() implies !blocked(#[trigger] rule.allowed_ips@[k]) by {
                assert(rule.allowed_ips@.contains(rule.allowed_ips@[k]));
            }
        }
        let count = rule.allowed_ips.len();
        let ghost old_rules = self.rules@;
        let ghost old_lists = self.domain_lists();
        let ghost dv = views(domains@);
        match self.find(name) {
            Some(p) => {
                self.rules.set(p, rule);
                self.domains.set(p, domains);
                proof {
                    assert(self.domain_lists() =~= old_lists.update(p as int, dv));
                    assert forall|a: int, b: int|
                        0 <= a < self.rules@.len() && 0 <= b < self.rules@.len() && a != b
                            implies #[trigger] self.rules@[a].agent_name@ != #[trigger] self.rules@[b].agent_name@ by {
                        assert(self.rules@[a].agent_name@ == old_rules[a].agent_name@);
                        assert(self.rules@[b].agent_name@ == old_rules[b].agent_name@);
                    }
                }
            },
            None => {
                self.rules.push(rule);
                self.domains.push(domains);
                proof {
                    assert(self.domain_lists() =~= old_lists.push(dv));
                    assert(self.rules@.drop_last() =~= old_rules);
                    assert forall|a: int, b: int|
                        0 <= a < self.rules@.len() && 0 <= b < self.rules@.len() && a != b
                            implies #[trigger] self.rules@[a].agent_name@ != #[trigger] self.rules@[b].agent_name@ by {
                        if a == old_rules.len() {
                            assert(old_rules[b].agent_name@ != name@);
                        } else if b == old_rules.len() {
                            assert(old_rules[a].agent_name@ != name@);
                        }
                    }
                }
            },
        }
        Ok(count)
    }

    /// Forgets an agent. Refuses an empty name, and a name not registered.
    pub fn unregister(&mut self, name: &str) -> (r: Result<(), EgressError>)
        requires
            old(self).wf(),
        ensures
            final(self).wf(),
            final(self).domain_lists().len() == final(self).rules().len(),
            r is Err ==> final(self).domain_lists() == old(self).domain_lists(),
            name@.len() == 0 ==> (r matches Err(EgressError::MissingAgent) && final(self).rules() == old(self).rules()),
            name@.len() > 0 ==> match agent_index(old(self).rules(), name@) {
                Some(p) => r is Ok && final(self).rules() == old(self).rules().remove(p)
                    && final(self).domain_lists() == old(self).domain_lists().remove(p),
                None => (r matches Err(EgressError::NotRegistered(n)) && n@ == name@
                    && final(self).rules() == old(self).rules()),
            },
    {
        if name.unicode_len() == 0 {
            return Err(EgressError::MissingAgent);
        }
        match self.find(name) {
            Some(p) => {
                let ghost old_rules = self.rules@;
                let ghost old_lists = self.domain_lists();
                let _rule = self.rules.remove(p);
                let _domains = self.domains.remove(p);
                proof {
                    assert(self.domain_lists() =~= old_lists.remove(p as int));
                    assert forall|a: int, b: int|
                        0 <= a < self.rules@.len() && 0 <= b < self.rules@.len() && a != b
                            implies #[trigger] self.rules@[a].agent_name@ != #[trigger] self.rules@[b].agent_name@ by {
                        let a0 = if a < p { a } else { a + 1 };
                        let b0 = if b < p { b } else { b + 1 };
                        assert(self.rules@[a] == old_rules[a0]);
                        assert(self.rules@[b] == old_rules[b0]);
                    }
                    assert forall|i: int| 0 <= i < self.rules@.len() implies (#[trigger] self.rules@[i]).wf() by {
                        let i0 = if i < p { i } else { i + 1 };
                        assert(self.rules@[i] == old_rules[i0]);
                    }
                    assert forall|i: int, k: int|
                        0 <= i < self.rules@.len() && 0 <= k < self.rules@[i].allowed_ips@.len()
                            implies !blocked(#[trigger] self.rules@[i].allowed_ips@[k]) by {
                        let i0 = if i < p { i } else { i + 1 };
                        assert(self.rules@[i] == old_rules[i0]);
                    }
                }
                Ok(())
            },
            None => {
                let mut n = String::new();
                n.append(name);
                Err(EgressError::NotRegistered(n))
            },
        }
    }

    /// The ruleset for the registered agents.
    pub fn ruleset(&self) -> (r: Ruleset)
        ensures
            r.content@ == ruleset_text(self.rules()),
    {
        generate_ruleset(self.rules.as_slice())
    }
}

/// No registered agent may reach a blocked address: none is in any rule.
pub proof fn lemma_registered_rules_allow_no_blocked_address(reg: AgentRegistry)
    requires
        reg.wf(),
    ensures
        forall|i: int, k: int|
            0 <= i < reg.rules().len() && 0 <= k < reg.rules()[i].allowed_ips@.len()
                ==> !blocked(#[trigger] reg.rules()[i].allowed_ips@[k]),
{
}

} // verus!
