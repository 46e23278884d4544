//! Service definitions and dependency ordering for nulld.
//!
//! Services are started so that every service comes after the services it
//! depends on, and stopped in the opposite order.  Ordering uses Kahn's
//! algorithm: a service becomes ready once all of its dependencies have
//! been placed, and placing a service releases the services waiting on it.
use vstd::prelude::*;
use crate::text::{clone_strings, views};

verus! {

/// A service managed by nulld.
#[derive(Debug)]
pub struct ServiceDef {
    pub name: String,
    pub binary: String,
    pub args: Vec<String>,
    pub depends_on: Vec<String>,
    pub restart: RestartPolicy,
}

/// What nulld does when a service exits.
#[derive(Debug, Clone, Copy, PartialEq, Eq, Structural)]
pub enum RestartPolicy {
    Always,
    OnFailure,
    Never,
}

impl Clone for ServiceDef {
    fn clone(&self) -> (r: Self)
        ensures
            r.name@ == self.name@,
            r.binary@ == self.binary@,
            r.args@ == self.args@,
            r.depends_on@ == self.depends_on@,
            r.restart == self.restart,
    {
        ServiceDef {
            name: self.name.clone(),
            binary: self.binary.clone(),
            args: clone_strings(&self.args),
            depends_on: clone_strings(&self.depends_on),
            restart: self.restart,
        }
    }
}

/// Why no start order could be produced.
#[derive(Debug)]
pub enum DepError {
    MissingDependency { service: String, dependency: String },
    CycleDetected,
}

impl DepError {
    /// The human-readable description of the error.
    pub fn to_string(&self) -> (s: String)
        ensures
            s@ == dep_error_message(*self),
    {
        match self {
            DepError::MissingDependency { service, dependency } => {
                let mut s = String::from_str("service '");
                s.append(service.as_str());
                s.append("' depends on unknown service '");
                s.append(dependency.as_str());
                s.append("'");
                s
            },
            DepError::CycleDetected => String::from_str("dependency cycle detected"),
        }
    }
}

/// The text of a dependency error.
pub open spec fn dep_error_message(e: DepError) -> Seq<char> {
    match e {
        DepError::MissingDependency { service, dependency } => "service '"@ + service@
            + "' depends on unknown service '"@ + dependency@ + "'"@,
        DepError::CycleDetected => "dependency cycle detected"@,
    }
}

// ---------------------------------------------------------------------------
// Specification of an acceptable start order
// ---------------------------------------------------------------------------

/// The names of the services, in declaration order.
pub open spec fn names_of(s: Seq<ServiceDef>) -> Seq<Seq<char>> {
    s.map_values(|d: ServiceDef| d.name@)
}

/// Dependency `k` of service `i` names no declared service.
pub open spec fn is_missing(s: Seq<ServiceDef>, i: int, k: int) -> bool {
    &&& 0 <= i < s.len()
    &&& 0 <= k < s[i].depends_on@.len()
    &&& !names_of(s).contains(s[i].depends_on@[k]@)
}

/// Every dependency of every service names a declared service.
pub open spec fn all_deps_known(s: Seq<ServiceDef>) -> bool {
    forall|i: int, k: int| !#[trigger] is_missing(s, i, k)
}

/// `(i, k)` is the first missing dependency, scanning services in order and
/// each service's dependencies in order.
pub open spec fn first_missing(s: Seq<ServiceDef>, i: int, k: int) -> bool {
    &&& is_missing(s, i, k)
    &&& forall|i2: int, k2: int| #[trigger] is_missing(s, i2, k2) ==> (i < i2 || (i == i2 && k <= k2))
}

/// `order` names every service exactly once, and every service comes after
/// all the services it depends on.
pub open spec fn is_start_order(s: Seq<ServiceDef>, order: Seq<Seq<char>>) -> bool {
    &&& order.len() == s.len()
    &&& order.no_duplicates()
    &&& forall|i: int| 0 <= i < s.len() ==> order.contains(#[trigger] s[i].name@)
    &&& forall|t: int| 0 <= t < order.len() ==> names_of(s).contains(#[trigger] order[t])
    &&& forall|t: int, i: int, k: int|
        0 <= t < order.len() && 0 <= i < s.len() && #[trigger] s[i].name@ == #[trigger] order[t]
            && 0 <= k < s[i].depends_on@.len()
            ==> order.take(t).contains(#[trigger] s[i].depends_on@[k]@)
}

/// Some order starts every service after its dependencies.
pub open spec fn has_start_order(s: Seq<ServiceDef>) -> bool {
    exists|order: Seq<Seq<char>>| is_start_order(s, order)
}

/// `order` names every service exactly once, and every service comes before
/// all the services it depends on (the shutdown order).
pub open spec fn is_stop_order(s: Seq<ServiceDef>, order: Seq<Seq<char>>) -> bool {
    &&& order.len() == s.len()
    &&& order.no_duplicates()
    &&& forall|i: int| 0 <= i < s.len() ==> order.contains(#[trigger] s[i].name@)
    &&& forall|t: int| 0 <= t < order.len() ==> names_of(s).contains(#[trigger] order[t])
    &&& forall|t: int, i: int, k: int|
        0 <= t < order.len() && 0 <= i < s.len() && #[trigger] s[i].name@ == #[trigger] order[t]
            && 0 <= k < s[i].depends_on@.len()
            ==> order.skip(t + 1).contains(#[trigger] s[i].depends_on@[k]@)
}

/// The outcome that ordering must give for `s`, apart from which of the
/// acceptable orders it picks.
pub open spec fn resolves_as(s: Seq<ServiceDef>, r: Result<Seq<Seq<char>>, DepError>, stop: bool) -> bool {
    match r {
        Ok(order) => all_deps_known(s) && (if stop {
            is_stop_order(s, order)
        } else {
            is_start_order(s, order)
        }),
        Err(DepError::MissingDependency { service, dependency }) => exists|i: int, k: int|
            #[trigger] first_missing(s, i, k) && service@ == s[i].name@ && dependency@
                == s[i].depends_on@[k]@,
        Err(DepError::CycleDetected) => all_deps_known(s) && !has_start_order(s),
    }
}

/// The result with the order taken by its view.
pub open spec fn order_view(r: Result<Vec<String>, DepError>) -> Result<Seq<Seq<char>>, DepError> {
    match r {
        Ok(v) => Ok(views(v@)),
        Err(e) => Err(e),
    }
}

// ---------------------------------------------------------------------------
// Index-level facts used by the ordering algorithm
// ---------------------------------------------------------------------------

/// How many entries of `d` are not yet in `done`.
pub open spec fn pending(d: Seq<usize>, done: Seq<usize>) -> nat
    decreases d.len(),
{
    if d.len() == 0 {
        0
    } else {
        pending(d.drop_last(), done) + if done.contains(d.last()) { 0nat } else { 1nat }
    }
}

/// How many times `p` occurs in `d`.
pub open spec fn occurrences(d: Seq<usize>, p: usize) -> nat
    decreases d.len(),
{
    if d.len() == 0 {
        0
    } else {
        occurrences(d.drop_last(), p) + if d.last() == p { 1nat } else { 0nat }
    }
}

proof fn lemma_pending_zero(d: Seq<usize>, done: Seq<usize>)
    ensures
        pending(d, done) == 0 <==> forall|k: int| 0 <= k < d.len() ==> done.contains(#[trigger] d[k]),
    decreases d.len(),
{
    if d.len() > 0 {
        lemma_pending_zero(d.drop_last(), done);
        if pending(d, done) == 0 {
            assert forall|k: int| 0 <= k < d.len() implies done.contains(#[trigger] d[k]) by {
                if k < d.len() - 1 {
                    assert(d[k] == d.drop_last()[k]);
                }
            }
        }
        if forall|k: int| 0 <= k < d.len() ==> done.contains(#[trigger] d[k]) {
            assert forall|k: int| 0 <= k < d.drop_last().len() implies done.contains(
                #[trigger] d.drop_last()[k],
            ) by {
                assert(d.drop_last()[k] == d[k]);
            }
            assert(done.contains(d[d.len() - 1]));
        }
    }
}

proof fn lemma_pending_push(d: Seq<usize>, done: Seq<usize>, p: usize)
    requires
        !done.contains(p),
    ensures
        pending(d, done) == pending(d, done.push(p)) + occurrences(d, p),
    decreases d.len(),
{
    if d.len() > 0 {
        lemma_pending_push(d.drop_last(), done, p);
        assert(done.push(p).contains(d.last()) <==> (done.contains(d.last()) || d.last() == p)) by {
            if done.push(p).contains(d.last()) {
                let j = choose|j: int| 0 <= j < done.push(p).len() && done.push(p)[j] == d.last();
                if j < done.len() {
                    assert(done[j] == d.last());
                }
            }
            if done.contains(d.last()) {
                let j = choose|j: int| 0 <= j < done.len() && done[j] == d.last();
                assert(done.push(p)[j] == d.last());
            }
            if d.last() == p {
                assert(done.push(p)[done.len() as int] == p);
            }
        }
    }
}

proof fn lemma_occurrences_take(d: Seq<usize>, p: usize, k: int)
    requires
        0 <= k < d.len(),
    ensures
        occurrences(d.take(k + 1), p) == occurrences(d.take(k), p) + if d[k] == p { 1nat } else { 0nat },
{
    assert(d.take(k + 1).drop_last() =~= d.take(k));
}

proof fn lemma_occurrences_full(d: Seq<usize>, p: usize)
    ensures
        d.take(d.len() as int) == d,
{
    assert(d.take(d.len() as int) =~= d);
}

proof fn lemma_occurrences_positive(d: Seq<usize>, p: usize, k: int)
    requires
        0 <= k < d.len(),
        d[k] == p,
    ensures
        occurrences(d, p) >= occurrences(d.take(k), p) + 1,
    decreases d.len(),
{
    if k == d.len() - 1 {
        assert(d.drop_last() =~= d.take(k));
    } else {
        lemma_occurrences_positive(d.drop_last(), p, k);
        assert(d.drop_last().take(k) =~= d.take(k));
    }
}

proof fn lemma_occurrences_le_pending(d: Seq<usize>, done: Seq<usize>, p: usize)
    requires
        !done.contains(p),
    ensures
        occurrences(d, p) <= pending(d, done),
    decreases d.len(),
{
    if d.len() > 0 {
        lemma_occurrences_le_pending(d.drop_last(), done, p);
    }
}

proof fn lemma_occurrences_take_le(d: Seq<usize>, p: usize, k: int)
    requires
        0 <= k <= d.len(),
    ensures
        occurrences(d.take(k), p) <= occurrences(d, p),
    decreases d.len() - k,
{
    if k < d.len() {
        lemma_occurrences_take_le(d, p, k + 1);
        lemma_occurrences_take(d, p, k);
    } else {
        assert(d.take(k) =~= d);
    }
}

/// A duplicate-free sequence of indices below `n` has at most `n` entries,
/// and holds every index below `n` when it has exactly `n`.
proof fn lemma_index_pigeonhole(q: Seq<usize>, n: nat)
    requires
        q.no_duplicates(),
        forall|t: int| 0 <= t < q.len() ==> (#[trigger] q[t] as nat) < n,
    ensures
        q.len() <= n,
        q.len() == n ==> forall|i: usize| (i as nat) < n ==> q.contains(i),
    decreases n,
{
    if n == 0 {
        if q.len() > 0 {
            assert(q[0] < 0);
        }
    } else {
        let top = (n - 1) as usize;
        if q.contains(top) {
            let j = choose|j: int| 0 <= j < q.len() && q[j] == top;
            let r = q.remove(j);
            assert forall|t: int| 0 <= t < r.len() implies (#[trigger] r[t] as nat) < (n - 1) as nat by {
                if t < j {
                    assert(r[t] == q[t]);
                    assert(q[t] != q[j]);
                } else {
                    assert(r[t] == q[t + 1]);
                    assert(q[t + 1] != q[j]);
                }
            }
            assert(r.no_duplicates()) by {
                assert forall|a: int, b: int| 0 <= a < r.len() && 0 <= b < r.len() && a != b implies r[a]
                    != r[b] by {
                    let qa = if a < j { a } else { a + 1 };
                    let qb = if b < j { b } else { b + 1 };
                    assert(r[a] == q[qa]);
                    assert(r[b] == q[qb]);
                }
            }
            lemma_index_pigeonhole(r, (n - 1) as nat);
            if q.len() == n {
                assert forall|i: usize| (i as nat) < n implies q.contains(i) by {
                    if i == top {
                        assert(q[j] == i);
                    } else {
                        assert(r.contains(i));
                        let t = choose|t: int| 0 <= t < r.len() && r[t] == i;
                        if t < j {
                            assert(q[t] == i);
                        } else {
                            assert(q[t + 1] == i);
                        }
                    }
                }
            }
        } else {
            assert forall|t: int| 0 <= t < q.len() implies (#[trigger] q[t] as nat) < (n - 1) as nat by {
                assert(q[t] != top);
            }
            lemma_index_pigeonhole(q, (n - 1) as nat);
        }
    }
}

// ---------------------------------------------------------------------------
// Lemmas relating the index-level result to the specification
// ---------------------------------------------------------------------------

/// Names are pairwise distinct.
pub open spec fn names_distinct(s: Seq<ServiceDef>) -> bool {
    forall|a: int, b: int| 0 <= a < s.len() && 0 <= b < s.len() && a != b ==> #[trigger] s[a].name@ != #[trigger] s[b].name@
}

/// `deps[i][k]` is the index of the service named by dependency `k` of service `i`.
pub open spec fn resolves_deps(s: Seq<ServiceDef>, deps: Seq<Seq<usize>>) -> bool {
    &&& deps.len() == s.len()
    &&& forall|i: int| 0 <= i < s.len() ==> (#[trigger] deps[i]).len() == s[i].depends_on@.len()
    &&& forall|i: int, k: int| 0 <= i < s.len() && 0 <= k < deps[i].len() ==> {
        &&& (#[trigger] deps[i][k] as int) < s.len()
        &&& s[deps[i][k] as int].name@ == s[i].depends_on@[k]@
    }
}

/// Service `i` still waits on a dependency outside `placed`.
pub open spec fn waits_on_unplaced(deps: Seq<Seq<usize>>, placed: Seq<usize>, i: int) -> bool {
    exists|k: int| 0 <= k < deps[i].len() && !placed.contains(#[trigger] deps[i][k])
}

/// Two services sharing a name leave no order naming each service once.
proof fn lemma_duplicate_names_no_order(s: Seq<ServiceDef>, a: int, b: int)
    requires
        0 <= a < b < s.len(),
        s[a].name@ == s[b].name@,
    ensures
        !has_start_order(s),
{
    if has_start_order(s) {
        let order = choose|order: Seq<Seq<char>>| is_start_order(s, order);
        let names = names_of(s);
        let rest = names.remove(b);
        assert forall|x: Seq<char>| order.to_set().contains(x) implies rest.to_set().contains(x) by {
            let t = choose|t: int| 0 <= t < order.len() && order[t] == x;
            assert(names.contains(order[t]));
            let i = choose|i: int| 0 <= i < names.len() && names[i] == x;
            let i2 = if i == b { a } else { i };
            assert(names[i2] == x);
            let ri = if i2 < b { i2 } else { i2 - 1 };
            assert(rest[ri] == x);
        }
        order.unique_seq_to_set();
        rest.lemma_cardinality_of_set();
        vstd::set_lib::lemma_len_subset(order.to_set(), rest.to_set());
    }
}

/// If every service outside `placed` still waits on some service outside
/// `placed`, then no service outside `placed` can appear in any start order.
proof fn lemma_blocked_never_placed(
    s: Seq<ServiceDef>,
    deps: Seq<Seq<usize>>,
    placed: Seq<usize>,
    order: Seq<Seq<char>>,
    t: int,
)
    requires
        names_distinct(s),
        resolves_deps(s, deps),
        is_start_order(s, order),
        0 <= t < order.len(),
        forall|i: int| 0 <= i < s.len() && !placed.contains(i as usize) ==> #[trigger] waits_on_unplaced(deps, placed, i),
    ensures
        forall|i: int| 0 <= i < s.len() && s[i].name@ == order[t] ==> placed.contains(i as usize),
    decreases t,
{
    assert forall|i: int| 0 <= i < s.len() && s[i].name@ == order[t] implies placed.contains(i as usize) by {
        if !placed.contains(i as usize) {
            assert(waits_on_unplaced(deps, placed, i));
            let k = choose|k: int| 0 <= k < deps[i].len() && !placed.contains(#[trigger] deps[i][k]);
            let j = deps[i][k] as int;
            assert(s[j].name@ == s[i].depends_on@[k]@);
            assert(order.take(t).contains(s[i].depends_on@[k]@));
            let u = choose|u: int| 0 <= u < order.take(t).len() && order.take(t)[u] == s[i].depends_on@[k]@;
            assert(order[u] == s[j].name@);
            lemma_blocked_never_placed(s, deps, placed, order, u);
            assert(placed.contains(j as usize));
        }
    }
}

proof fn lemma_blocked_no_order(s: Seq<ServiceDef>, deps: Seq<Seq<usize>>, placed: Seq<usize>, r: int)
    requires
        names_distinct(s),
        resolves_deps(s, deps),
        0 <= r < s.len(),
        !placed.contains(r as usize),
        forall|i: int| 0 <= i < s.len() && !placed.contains(i as usize) ==> #[trigger] waits_on_unplaced(deps, placed, i),
    ensures
        !has_start_order(s),
{
    if has_start_order(s) {
        let order = choose|order: Seq<Seq<char>>| is_start_order(s, order);
        assert(order.contains(s[r].name@));
        let t = choose|t: int| 0 <= t < order.len() && order[t] == s[r].name@;
        lemma_blocked_never_placed(s, deps, placed, order, t);
    }
}

// ---------------------------------------------------------------------------
// Dependency cycles
// ---------------------------------------------------------------------------

/// Service `j` is among the direct dependencies of service `i`.
pub open spec fn depends_directly(s: Seq<ServiceDef>, i: int, j: int) -> bool {
    &&& 0 <= i < s.len()
    &&& 0 <= j < s.len()
    &&& exists|k: int| 0 <= k < s[i].depends_on@.len() && #[trigger] s[i].depends_on@[k]@ == s[j].name@
}

/// `c` lists services each of which depends directly on the next, the last
/// on the first (a service that depends on itself is a cycle of one).
pub open spec fn is_dependency_cycle(s: Seq<ServiceDef>, c: Seq<int>) -> bool {
    &&& c.len() > 0
    &&& forall|m: int| 0 <= m < c.len() - 1 ==> #[trigger] depends_directly(s, c[m], c[m + 1])
    &&& depends_directly(s, c[c.len() - 1], c[0])
}

/// The dependency graph of `s` has a cycle.
pub open spec fn has_dependency_cycle(s: Seq<ServiceDef>) -> bool {
    exists|c: Seq<int>| is_dependency_cycle(s, c)
}

/// The position of `x` in `order`.
spec fn position(order: Seq<Seq<char>>, x: Seq<char>) -> int {
    choose|t: int| 0 <= t < order.len() && order[t] == x
}

/// In a start order, each service of a cycle stands before the one that
/// depends on it: walking `m` steps along the cycle moves at least `m`
/// places towards the front.
proof fn lemma_cycle_positions(s: Seq<ServiceDef>, c: Seq<int>, order: Seq<Seq<char>>, m: int)
    requires
        is_dependency_cycle(s, c),
        is_start_order(s, order),
        0 <= m < c.len(),
    ensures
        0 <= position(order, s[c[m]].name@) < order.len(),
        order[position(order, s[c[m]].name@)] == s[c[m]].name@,
        position(order, s[c[m]].name@) <= position(order, s[c[0]].name@) - m,
    decreases m,
{
    let i = c[m];
    if m == 0 {
        assert(depends_directly(s, c[c.len() - 1], c[0]));
    } else {
        lemma_cycle_positions(s, c, order, m - 1);
        let m1 = m - 1;
        assert(depends_directly(s, c[m1], c[m1 + 1]));
    }
    assert(0 <= i < s.len());
    assert(order.contains(s[i].name@));
    if m > 0 {
        let prev = c[m - 1];
        let tp = position(order, s[prev].name@);
        let k = choose|k: int| 0 <= k < s[prev].depends_on@.len() && #[trigger] s[prev].depends_on@[k]@ == s[i].name@;
        assert(order.take(tp).contains(s[prev].depends_on@[k]@));
        let u = choose|u: int| 0 <= u < order.take(tp).len() && order.take(tp)[u] == s[prev].depends_on@[k]@;
        let t = position(order, s[i].name@);
        assert(order[u] == order[t]);
    }
}

/// A dependency cycle leaves no start order: each service of the cycle
/// would have to start before itself.
pub proof fn lemma_cycle_means_no_start_order(s: Seq<ServiceDef>, c: Seq<int>)
    requires
        is_dependency_cycle(s, c),
    ensures
        !has_start_order(s),
{
    if has_start_order(s) {
        let order = choose|order: Seq<Seq<char>>| is_start_order(s, order);
        let last = c.len() - 1;
        lemma_cycle_positions(s, c, order, last);
        lemma_cycle_positions(s, c, order, 0);
        let first = c[0];
        let tl = position(order, s[c[last]].name@);
        let t0 = position(order, s[first].name@);
        assert(depends_directly(s, c[last], first));
        let k = choose|k: int| 0 <= k < s[c[last]].depends_on@.len() && #[trigger] s[c[last]].depends_on@[k]@ == s[first].name@;
        assert(order.take(tl).contains(s[c[last]].depends_on@[k]@));
        let u = choose|u: int| 0 <= u < order.take(tl).len() && order.take(tl)[u] == s[c[last]].depends_on@[k]@;
        assert(order[u] == order[t0]);
    }
}

/// A walk that keeps to services outside `placed`, each step to a
/// dependency that is outside `placed` too.
spec fn blocked_walk(deps: Seq<Seq<usize>>, placed: Seq<usize>, r: usize, m: nat) -> usize
    decreases m,
{
    if m == 0 {
        r
    } else {
        let prev = blocked_walk(deps, placed, r, (m - 1) as nat) as int;
        let k = choose|k: int| 0 <= k < deps[prev].len() && !placed.contains(#[trigger] deps[prev][k]);
        deps[prev][k]
    }
}

proof fn lemma_blocked_walk(s: Seq<ServiceDef>, deps: Seq<Seq<usize>>, placed: Seq<usize>, r: usize, m: nat)
    requires
        resolves_deps(s, deps),
        (r as int) < s.len(),
        !placed.contains(r),
        forall|i: int| 0 <= i < s.len() && !placed.contains(i as usize) ==> #[trigger] waits_on_unplaced(deps, placed, i),
    ensures
        (blocked_walk(deps, placed, r, m) as int) < s.len(),
        !placed.contains(blocked_walk(deps, placed, r, m)),
        depends_directly(s, blocked_walk(deps, placed, r, m) as int, blocked_walk(deps, placed, r, m + 1) as int),
    decreases m,
{
    if m > 0 {
        lemma_blocked_walk(s, deps, placed, r, (m - 1) as nat);
        let prev = blocked_walk(deps, placed, r, (m - 1) as nat) as int;
        assert(waits_on_unplaced(deps, placed, prev));
    }
    let w = blocked_walk(deps, placed, r, m) as int;
    assert(w < s.len());
    assert(!placed.contains(w as usize));
    assert(waits_on_unplaced(deps, placed, w));
    let k = choose|k: int| 0 <= k < deps[w].len() && !placed.contains(#[trigger] deps[w][k]);
    assert(blocked_walk(deps, placed, r, m + 1) == deps[w][k]);
    assert(s[w].depends_on@[k]@ == s[deps[w][k] as int].name@);
}

/// Where every service outside `placed` waits on another service outside
/// `placed`, following those dependencies must come back to a service
/// already visited: the dependency graph has a cycle.
proof fn lemma_blocked_has_cycle(s: Seq<ServiceDef>, deps: Seq<Seq<usize>>, placed: Seq<usize>, r: usize)
    requires
        resolves_deps(s, deps),
        (r as int) < s.len(),
        !placed.contains(r),
        forall|i: int| 0 <= i < s.len() && !placed.contains(i as usize) ==> #[trigger] waits_on_unplaced(deps, placed, i),
    ensures
        has_dependency_cycle(s),
{
    let n = s.len();
    let q = Seq::new(n + 1, |m: int| blocked_walk(deps, placed, r, m as nat));
    assert forall|t: int| 0 <= t < q.len() implies (#[trigger] q[t] as nat) < n by {
        lemma_blocked_walk(s, deps, placed, r, t as nat);
    }
    if q.no_duplicates() {
        lemma_index_pigeonhole(q, n);
    }
    let (a, b) = choose|a: int, b: int| 0 <= a < q.len() && 0 <= b < q.len() && a != b && q[a] == q[b];
    let lo = if a < b { a } else { b };
    let hi = if a < b { b } else { a };
    let c = Seq::new((hi - lo) as nat, |m: int| q[lo + m] as int);
    assert forall|m: int| 0 <= m < c.len() - 1 implies #[trigger] depends_directly(s, c[m], c[m + 1]) by {
        lemma_blocked_walk(s, deps, placed, r, (lo + m) as nat);
    }
    lemma_blocked_walk(s, deps, placed, r, (hi - 1) as nat);
    assert(q[hi - 1 + 1] == q[lo]);
    assert(is_dependency_cycle(s, c));
}

// ---------------------------------------------------------------------------
// Executable ordering
// ---------------------------------------------------------------------------

/// The index of the first service named `name`, if any.
fn find_service(services: &[ServiceDef], name: &String) -> (r: Option<usize>)
    ensures
        match r {
            Some(j) => j < services@.len() && services@[j as int].name@ == name@ && forall|j2: int|
                0 <= j2 < j ==> services@[j2].name@ != name@,
            None => !names_of(services@).contains(name@),
        },
{
    let mut j: usize = 0;
    while j < services.len()
        invariant
            j <= services@.len(),
            forall|j2: int| 0 <= j2 < j ==> services@[j2].name@ != name@,
        decreases services@.len() - j,
    {
        if services[j].name == *name {
            return Some(j);
        }
        j = j + 1;
    }
    proof {
        if names_of(services@).contains(name@) {
            let j2 = choose|j2: int| 0 <= j2 < names_of(services@).len() && names_of(services@)[j2] == name@;
            assert(services@[j2].name@ == name@);
        }
    }
    None
}

/// The first missing dependency, scanning services and dependencies in order.
fn find_missing(services: &[ServiceDef]) -> (r: Option<(usize, usize)>)
    ensures
        match r {
            Some((i, k)) => first_missing(services@, i as int, k as int),
            None => all_deps_known(services@),
        },
{
    let n = services.len();
    let mut i: usize = 0;
    while i < n
        invariant
            n == services@.len(),
            i <= n,
            forall|i2: int, k2: int| 0 <= i2 < i ==> !#[trigger] is_missing(services@, i2, k2),
        decreases n - i,
    {
        let mut k: usize = 0;
        while k < services[i].depends_on.len()
            invariant
                n == services@.len(),
                i < n,
                k <= services@[i as int].depends_on@.len(),
                forall|i2: int, k2: int| 0 <= i2 < i ==> !#[trigger] is_missing(services@, i2, k2),
                forall|k2: int| 0 <= k2 < k ==> !#[trigger] is_missing(services@, i as int, k2),
            decreases services@[i as int].depends_on@.len() - k,
        {
            match find_service(services, &services[i].depends_on[k]) {
                None => {
                    return Some((i, k));
                },
                Some(j) => {
                    assert(names_of(services@)[j as int] == services@[i as int].depends_on@[k as int]@);
                },
            }
            k = k + 1;
        }
        i = i + 1;
    }
    None
}

/// Whether two services share a name; if so, the first such pair.
fn find_duplicate(services: &[ServiceDef]) -> (r: Option<(usize, usize)>)
    ensures
        match r {
            Some((a, b)) => a < b < services@.len() && services@[a as int].name@ == services@[b as int].name@,
            None => names_distinct(services@),
        },
{
    let n = services.len();
    let mut b: usize = 0;
    while b < n
        invariant
            n == services@.len(),
            b <= n,
            forall|a2: int, b2: int| 0 <= a2 < b2 < b ==> #[trigger] services@[a2].name@ != #[trigger] services@[b2].name@,
        decreases n - b,
    {
        let mut a: usize = 0;
        while a < b
            invariant
                n == services@.len(),
                a <= b < n,
                forall|a2: int, b2: int| 0 <= a2 < b2 < b ==> #[trigger] services@[a2].name@ != #[trigger] services@[b2].name@,
                forall|a2: int| 0 <= a2 < a ==> #[trigger] services@[a2].name@ != services@[b as int].name@,
            decreases b - a,
        {
            if services[a].name == services[b].name {
                return Some((a, b));
            }
            a = a + 1;
        }
        b = b + 1;
    }
    assert forall|x: int, y: int| 0 <= x < n && 0 <= y < n && x != y implies #[trigger] services@[x].name@
        != #[trigger] services@[y].name@ by {
        if x < y {
        } else {
        }
    }
    None
}

/// The dependency lists as service indices.
fn dependency_indices(services: &[ServiceDef]) -> (deps: Vec<Vec<usize>>)
    requires
        all_deps_known(services@),
    ensures
        resolves_deps(services@, deps@.map_values(|d: Vec<usize>| d@)),
{
    let n = services.len();
    let mut deps: Vec<Vec<usize>> = Vec::new();
    let mut i: usize = 0;
    while i < n
        invariant
            n == services@.len(),
            i <= n,
            all_deps_known(services@),
            deps@.len() == i,
            forall|i2: int| 0 <= i2 < i ==> (#[trigger] deps@[i2])@.len() == services@[i2].depends_on@.len(),
            forall|i2: int, k: int| 0 <= i2 < i && 0 <= k < deps@[i2]@.len() ==> {
                &&& (#[trigger] deps@[i2]@[k] as int) < n
                &&& services@[deps@[i2]@[k] as int].name@ == services@[i2].depends_on@[k]@
            },
        decreases n - i,
    {
        let mut row: Vec<usize> = Vec::new();
        let mut k: usize = 0;
        while k < services[i].depends_on.len()
            invariant
                n == services@.len(),
                i < n,
                all_deps_known(services@),
                k <= services@[i as int].depends_on@.len(),
                row@.len() == k,
                forall|k2: int| 0 <= k2 < k ==> {
                    &&& (#[trigger] row@[k2] as int) < n
                    &&& services@[row@[k2] as int].name@ == services@[i as int].depends_on@[k2]@
                },
            decreases services@[i as int].depends_on@.len() - k,
        {
            assert(!is_missing(services@, i as int, k as int));
            match find_service(services, &services[i].depends_on[k]) {
                Some(j) => {
                    row.push(j);
                },
                None => {
                    assert(false);
                },
            }
            k = k + 1;
        }
        deps.push(row);
        i = i + 1;
    }
    deps
}

/// Topological sort of services by dependency order.
///
/// Returns the names in an order in which every service comes after all the
/// services it depends on.  Fails with `MissingDependency` for the first
/// dependency (in declaration order) that names no service, and otherwise
/// with `CycleDetected` when no such order exists: exactly when the
/// dependencies form a cycle or two services share a name.
pub fn resolve_start_order(services: &[ServiceDef]) -> (r: Result<Vec<String>, DepError>)
    ensures
        resolves_as(services@, order_view(r), false),
        r is Ok <==> (all_deps_known(services@) && has_start_order(services@)),
        r == Err::<Vec<String>, DepError>(DepError::CycleDetected) <==> (all_deps_known(services@) && (
        !names_distinct(services@) || has_dependency_cycle(services@))),
{
    if let Some((i, k)) = find_missing(services) {
        return Err(DepError::MissingDependency {
            service: services[i].name.clone(),
            dependency: services[i].depends_on[k].clone(),
        });
    }
    if let Some((a, b)) = find_duplicate(services) {
        proof {
            lemma_duplicate_names_no_order(services@, a as int, b as int);
        }
        return Err(DepError::CycleDetected);
    }
    let n = services.len();
    let deps = dependency_indices(services);
    let ghost dv = deps@.map_values(|d: Vec<usize>| d@);

    // in_degree[i]: dependencies of service i not yet placed.
    let mut in_degree: Vec<usize> = Vec::new();
    let mut i: usize = 0;
    while i < n
        invariant
            n == services@.len(),
            i <= n,
            dv == deps@.map_values(|d: Vec<usize>| d@),
            resolves_deps(services@, dv),
            in_degree@.len() == i,
            forall|i2: int| 0 <= i2 < i ==> #[trigger] in_degree@[i2] == pending(dv[i2], seq![]),
        decreases n - i,
    {
        proof {
            lemma_pending_le_len(dv[i as int], seq![]);
        }
        in_degree.push(deps[i].len());
        proof {
            lemma_pending_empty(dv[i as int]);
        }
        i = i + 1;
    }

    // The ready queue: queue[0..head] are placed, queue[head..] are ready.
    let mut queue: Vec<usize> = Vec::new();
    let mut i: usize = 0;
    while i < n
        invariant
            n == services@.len(),
            i <= n,
            in_degree@.len() == n,
            queue@.no_duplicates(),
            forall|t: int| 0 <= t < queue@.len() ==> (#[trigger] queue@[t] as int) < i,
            forall|j: int| 0 <= j < i ==> (queue@.contains(j as usize) <==> #[trigger] in_degree@[j] == 0),
            forall|t: int| 0 <= t < queue@.len() ==> #[trigger] in_degree@[queue@[t] as int] == 0,
            dv == deps@.map_values(|d: Vec<usize>| d@),
            forall|i2: int| 0 <= i2 < n ==> #[trigger] in_degree@[i2] == pending(dv[i2], seq![]),
        decreases n - i,
    {
        if in_degree[i] == 0 {
            let ghost before = queue@;
            queue.push(i);
            proof {
                assert forall|j: int| 0 <= j <= i implies (queue@.contains(j as usize) <==> #[trigger] in_degree@[j] == 0) by {
                    if j < i {
                        if queue@.contains(j as usize) {
                            let u = choose|u: int| 0 <= u < queue@.len() && queue@[u] == j as usize;
                            assert(u < before.len());
                            assert(before[u] == j as usize);
                        }
                        if before.contains(j as usize) {
                            let u = choose|u: int| 0 <= u < before.len() && before[u] == j as usize;
                            assert(queue@[u] == j as usize);
                        }
                    } else {
                        assert(queue@[before.len() as int] == i);
                    }
                }
                assert(!before.contains(i)) by {
                    if before.contains(i) {
                        let u = choose|u: int| 0 <= u < before.len() && before[u] == i;
                    }
                }
                assert forall|a: int, b: int| 0 <= a < queue@.len() && 0 <= b < queue@.len() && a != b implies queue@[a] != queue@[b] by {
                    if a < before.len() && b < before.len() {
                        assert(before[a] != before[b]);
                    } else if a < before.len() {
                        assert(before[a] != i);
                    } else if b < before.len() {
                        assert(before[b] != i);
                    }
                }
            }
        } else {
            proof {
                assert forall|j: int| 0 <= j <= i implies (queue@.contains(j as usize) <==> #[trigger] in_degree@[j] == 0) by {
                    if j == i && queue@.contains(j as usize) {
                        let u = choose|u: int| 0 <= u < queue@.len() && queue@[u] == j as usize;
                    }
                }
            }
        }
        i = i + 1;
    }
    proof {
        assert forall|t: int, k: int| 0 <= t < queue@.len() && 0 <= k < dv[queue@[t] as int].len() implies queue@.take(
            t,
        ).contains(#[trigger] dv[queue@[t] as int][k]) by {
            let q = queue@[t] as int;
            assert(in_degree@[q] == 0);
            assert(in_degree@[q] == pending(dv[q], seq![]));
            lemma_pending_empty(dv[q]);
        }
    }

    proof {
        assert(queue@.take(0) =~= Seq::<usize>::empty());
        lemma_index_pigeonhole(queue@, n as nat);
    }
    let mut head: usize = 0;
    while head < queue.len()
        invariant
            n == services@.len(),
            names_distinct(services@),
            dv == deps@.map_values(|d: Vec<usize>| d@),
            resolves_deps(services@, dv),
            in_degree@.len() == n,
            head <= queue@.len() <= n,
            queue@.no_duplicates(),
            forall|t: int| 0 <= t < queue@.len() ==> (#[trigger] queue@[t] as int) < n,
            forall|j: int| 0 <= j < n ==> #[trigger] in_degree@[j] == pending(dv[j], queue@.take(head as int)),
            forall|j: int| 0 <= j < n ==> (queue@.contains(j as usize) <==> #[trigger] in_degree@[j] == 0),
            forall|t: int, k: int| 0 <= t < queue@.len() && 0 <= k < dv[queue@[t] as int].len() ==> queue@.take(
                t,
            ).contains(#[trigger] dv[queue@[t] as int][k]),
        decreases n - head,
    {
        let p = queue[head];
        let ghost done = queue@.take(head as int);
        proof {
            assert(!done.contains(p)) by {
                if done.contains(p) {
                    let u = choose|u: int| 0 <= u < done.len() && done[u] == p;
                    assert(queue@[u] == queue@[head as int]);
                }
            }
            assert(queue@.take(head + 1) =~= done.push(p));
        }
        head = head + 1;
        let ghost done2 = queue@.take(head as int);
        let ghost queue_before = queue@;

        // Release the services that depend on p.
        let mut d: usize = 0;
        while d < n
            invariant
                n == services@.len(),
                names_distinct(services@),
                dv == deps@.map_values(|d: Vec<usize>| d@),
                resolves_deps(services@, dv),
                in_degree@.len() == n,
                d <= n,
                0 < head <= queue@.len() <= n,
                queue@.take(head as int) == done2,
                done2 == done.push(p),
                !done.contains(p),
                queue@.no_duplicates(),
                queue_before.len() <= queue@.len(),
                forall|t: int| 0 <= t < queue_before.len() ==> queue@[t] == queue_before[t],
                forall|t: int| 0 <= t < queue@.len() ==> (#[trigger] queue@[t] as int) < n,
                forall|j: int| 0 <= j < d ==> #[trigger] in_degree@[j] == pending(dv[j], done2),
                forall|j: int| d <= j < n ==> #[trigger] in_degree@[j] == pending(dv[j], done),
                forall|j: int| 0 <= j < n ==> (queue@.contains(j as usize) <==> #[trigger] in_degree@[j] == 0),
                forall|t: int, k: int| 0 <= t < queue@.len() && 0 <= k < dv[queue@[t] as int].len() ==> queue@.take(
                    t,
                ).contains(#[trigger] dv[queue@[t] as int][k]),
            decreases n - d,
        {
            let ghost start_deg = in_degree@[d as int];
            proof {
                lemma_occurrences_le_pending(dv[d as int], done, p);
            }
            let mut k: usize = 0;
            while k < deps[d].len()
                invariant
                    n == services@.len(),
                    dv == deps@.map_values(|d: Vec<usize>| d@),
                    resolves_deps(services@, dv),
                    in_degree@.len() == n,
                    d < n,
                    k <= dv[d as int].len(),
                    0 < head <= queue@.len() <= n,
                    queue@.take(head as int) == done2,
                    done2 == done.push(p),
                    !done.contains(p),
                    queue@.no_duplicates(),
                    queue_before.len() <= queue@.len(),
                    forall|t: int| 0 <= t < queue_before.len() ==> queue@[t] == queue_before[t],
                    forall|t: int| 0 <= t < queue@.len() ==> (#[trigger] queue@[t] as int) < n,
                    start_deg == pending(dv[d as int], done),
                    occurrences(dv[d as int], p) <= start_deg,
                    in_degree@[d as int] == start_deg - occurrences(dv[d as int].take(k as int), p),
                    forall|j: int| 0 <= j < d ==> #[trigger] in_degree@[j] == pending(dv[j], done2),
                    forall|j: int| d < j < n ==> #[trigger] in_degree@[j] == pending(dv[j], done),
                    forall|j: int| 0 <= j < n ==> (queue@.contains(j as usize) <==> #[trigger] in_degree@[j] == 0),
                    forall|t: int, kk: int| 0 <= t < queue@.len() && 0 <= kk < dv[queue@[t] as int].len() ==> queue@.take(
                        t,
                    ).contains(#[trigger] dv[queue@[t] as int][kk]),
                decreases dv[d as int].len() - k,
            {
                proof {
                    lemma_occurrences_take(dv[d as int], p, k as int);
                    lemma_occurrences_take_le(dv[d as int], p, k as int + 1);
                }
                if deps[d][k] == p {
                    let deg = in_degree[d] - 1;
                    in_degree.set(d, deg);
                    if deg == 0 {
                        proof {
                            lemma_occurrences_take_le(dv[d as int], p, k as int + 1);
                            // every dependency of d is now placed
                            lemma_pending_push(dv[d as int], done, p);
                            lemma_pending_zero(dv[d as int], done2);
                            assert(!queue@.contains(d)) by {
                                lemma_occurrences_positive(dv[d as int], p, k as int);
                            }
                            assert forall|kk: int| 0 <= kk < dv[d as int].len() implies queue@.contains(
                                #[trigger] dv[d as int][kk],
                            ) by {
                                assert(done2.contains(dv[d as int][kk]));
                                let u = choose|u: int| 0 <= u < done2.len() && done2[u] == dv[d as int][kk];
                                assert(queue@[u] == dv[d as int][kk]);
                            }
                        }
                        let ghost before_push = queue@;
                        queue.push(d);
                        proof {
                            assert forall|a: int, b: int| 0 <= a < queue@.len() && 0 <= b < queue@.len() && a != b implies queue@[a] != queue@[b] by {
                                if a < before_push.len() && b < before_push.len() {
                                    assert(before_push[a] != before_push[b]);
                                } else if a < before_push.len() {
                                    assert(before_push.contains(before_push[a]));
                                } else if b < before_push.len() {
                                    assert(before_push.contains(before_push[b]));
                                }
                            }
                            lemma_index_pigeonhole(queue@, n as nat);
                            assert(queue@.take(head as int) =~= before_push.take(head as int));
                            assert(queue@.take(before_push.len() as int) =~= before_push);
                            assert forall|t: int, kk: int| 0 <= t < queue@.len() && 0 <= kk < dv[queue@[t] as int].len() implies queue@.take(
                                t,
                            ).contains(#[trigger] dv[queue@[t] as int][kk]) by {
                                if t < before_push.len() {
                                    assert(queue@.take(t) =~= before_push.take(t));
                                } else {
                                    let x = dv[d as int][kk];
                                    assert(before_push.contains(x));
                                }
                            }
                            assert forall|j: int| 0 <= j < n implies (queue@.contains(j as usize) <==> #[trigger] in_degree@[j] == 0) by {
                                if j != d {
                                    if queue@.contains(j as usize) {
                                        let u = choose|u: int| 0 <= u < queue@.len() && queue@[u] == j as usize;
                                        assert(before_push[u] == j as usize);
                                    }
                                    if before_push.contains(j as usize) {
                                        let u = choose|u: int| 0 <= u < before_push.len() && before_push[u] == j as usize;
                                        assert(queue@[u] == j as usize);
                                    }
                                } else {
                                    assert(queue@[before_push.len() as int] == d);
                                }
                            }
                        }
                    } else {
                        proof {
                            assert forall|j: int| 0 <= j < n implies (queue@.contains(j as usize) <==> #[trigger] in_degree@[j] == 0) by {
                                if j == d {
                                    lemma_occurrences_positive(dv[d as int], p, k as int);
                                }
                            }
                        }
                    }
                }
                k = k + 1;
            }
            proof {
                lemma_occurrences_full(dv[d as int], p);
                lemma_pending_push(dv[d as int], done, p);
            }
            d = d + 1;
        }
        proof {
            lemma_index_pigeonhole(queue@, n as nat);
        }
    }

    let ghost placed = queue@;
    proof {
        assert(placed.take(head as int) =~= placed);
        assert forall|i: int| 0 <= i < n && !placed.contains(i as usize) implies #[trigger] waits_on_unplaced(dv, placed, i) by {
            assert(in_degree@[i] != 0);
            lemma_pending_zero(dv[i], placed);
        }
        lemma_index_pigeonhole(queue@, n as nat);
    }
    if queue.len() != n {
        proof {
            // some service was never placed
            if forall|i: usize| (i as nat) < n ==> placed.contains(i) {
                lemma_all_indices_len(placed, n as nat);
            }
            let r = choose|r: usize| (r as nat) < n && !placed.contains(r);
            lemma_blocked_no_order(services@, dv, placed, r as int);
            lemma_blocked_has_cycle(services@, dv, placed, r);
        }
        return Err(DepError::CycleDetected);
    }

    let mut order: Vec<String> = Vec::new();
    let mut t: usize = 0;
    while t < n
        invariant
            n == services@.len(),
            queue@.len() == n,
            t <= n,
            forall|u: int| 0 <= u < n ==> (#[trigger] queue@[u] as int) < n,
            order@.len() == t,
            forall|u: int| 0 <= u < t ==> (#[trigger] order@[u])@ == services@[queue@[u] as int].name@,
        decreases n - t,
    {
        order.push(services[queue[t]].name.clone());
        t = t + 1;
    }
    proof {
        let o = views(order@);
        assert forall|u: int| 0 <= u < n implies #[trigger] o[u] == services@[queue@[u] as int].name@ by {}
        // each service appears
        assert forall|i: int| 0 <= i < n implies o.contains(#[trigger] services@[i].name@) by {
            assert(placed.contains(i as usize));
            let u = choose|u: int| 0 <= u < n && placed[u] == i as usize;
            assert(o[u] == services@[i].name@);
        }
        assert forall|u: int| 0 <= u < o.len() implies names_of(services@).contains(#[trigger] o[u]) by {
            assert(names_of(services@)[queue@[u] as int] == o[u]);
        }
        assert(o.no_duplicates()) by {
            assert forall|a: int, b: int| 0 <= a < o.len() && 0 <= b < o.len() && a != b implies o[a] != o[b] by {
                assert(queue@[a] != queue@[b]);
            }
        }
        assert forall|u: int, i: int, k: int|
            0 <= u < o.len() && 0 <= i < n && #[trigger] services@[i].name@ == #[trigger] o[u]
                && 0 <= k < services@[i].depends_on@.len()
            implies o.take(u).contains(#[trigger] services@[i].depends_on@[k]@) by {
            let q = queue@[u] as int;
            if q != i {
                assert(services@[q].name@ == services@[i].name@);
            }
            assert(placed.take(u).contains(dv[i][k]));
            let w = choose|w: int| 0 <= w < placed.take(u).len() && placed.take(u)[w] == dv[i][k];
            assert(o.take(u)[w] == services@[i].depends_on@[k]@);
        }
        assert(is_start_order(services@, o));
        if has_dependency_cycle(services@) {
            let c = choose|c: Seq<int>| is_dependency_cycle(services@, c);
            lemma_cycle_means_no_start_order(services@, c);
        }
    }
    Ok(order)
}

/// The reverse of the start order, for shutdown: every service comes before
/// all the services it depends on.  Fails exactly as `resolve_start_order` does.
pub fn resolve_stop_order(services: &[ServiceDef]) -> (r: Result<Vec<String>, DepError>)
    ensures
        resolves_as(services@, order_view(r), true),
        r is Ok <==> (all_deps_known(services@) && has_start_order(services@)),
        r == Err::<Vec<String>, DepError>(DepError::CycleDetected) <==> (all_deps_known(services@) && (
        !names_distinct(services@) || has_dependency_cycle(services@))),
{
    match resolve_start_order(services) {
        Ok(start) => {
            let ghost s = views(start@);
            let mut stop: Vec<String> = Vec::new();
            let mut t: usize = start.len();
            while t > 0
                invariant
                    t <= start@.len(),
                    stop@.len() == start@.len() - t,
                    forall|u: int| 0 <= u < stop@.len() ==> (#[trigger] stop@[u])@ == start@[start@.len() - 1 - u]@,
                decreases t,
            {
                t = t - 1;
                stop.push(start[t].clone());
            }
            proof {
                assert(views(stop@) =~= s.reverse());
                lemma_start_stop_reverse(services@, s);
            }
            Ok(stop)
        },
        Err(e) => Err(e),
    }
}

// ---------------------------------------------------------------------------
// Laws
// ---------------------------------------------------------------------------

proof fn lemma_pending_le_len(d: Seq<usize>, done: Seq<usize>)
    ensures
        pending(d, done) <= d.len(),
    decreases d.len(),
{
    if d.len() > 0 {
        lemma_pending_le_len(d.drop_last(), done);
    }
}

proof fn lemma_pending_empty(d: Seq<usize>)
    ensures
        pending(d, seq![]) == d.len(),
    decreases d.len(),
{
    if d.len() > 0 {
        lemma_pending_empty(d.drop_last());
    }
}

proof fn lemma_all_indices_len(q: Seq<usize>, n: nat)
    requires
        n <= usize::MAX,
        q.no_duplicates(),
        forall|t: int| 0 <= t < q.len() ==> (#[trigger] q[t] as nat) < n,
        forall|i: usize| (i as nat) < n ==> q.contains(i),
    ensures
        q.len() == n,
{
    let full = Seq::new(n, |i: int| i as usize);
    assert forall|u: int| 0 <= u < full.len() implies (#[trigger] full[u] as nat) < n by {}
    assert forall|a: int, b: int| 0 <= a < full.len() && 0 <= b < full.len() && a != b implies full[a] != full[b] by {}
    assert(full.no_duplicates());
    let qs = q.to_set();
    let fs = full.to_set();
    assert forall|x: usize| qs.contains(x) implies fs.contains(x) by {
        let t = choose|t: int| 0 <= t < q.len() && q[t] == x;
        assert(full[x as int] == x);
    }
    assert forall|x: usize| fs.contains(x) implies qs.contains(x) by {
        let t = choose|t: int| 0 <= t < full.len() && full[t] == x;
        assert(q.contains(x));
    }
    assert(qs =~= fs);
    q.unique_seq_to_set();
    full.unique_seq_to_set();
}

/// A sequence is a start order exactly when its reverse is a stop order:
/// shutdown visits services in the reverse of an acceptable start order.
pub proof fn lemma_start_stop_reverse(s: Seq<ServiceDef>, order: Seq<Seq<char>>)
    ensures
        is_start_order(s, order) <==> is_stop_order(s, order.reverse()),
{
    let r = order.reverse();
    let n = order.len();
    assert forall|t: int| 0 <= t < n implies #[trigger] r[t] == order[n - 1 - t] by {}
    assert forall|x: Seq<char>| order.contains(x) <==> r.contains(x) by {
        if order.contains(x) {
            let t = choose|t: int| 0 <= t < n && order[t] == x;
            assert(r[n - 1 - t] == x);
        }
        if r.contains(x) {
            let t = choose|t: int| 0 <= t < n && r[t] == x;
            assert(order[n - 1 - t] == x);
        }
    }
    assert(order.no_duplicates() <==> r.no_duplicates()) by {
        if order.no_duplicates() {
            assert forall|a: int, b: int| 0 <= a < n && 0 <= b < n && a != b implies r[a] != r[b] by {
                assert(r[a] == order[n - 1 - a]);
                assert(r[b] == order[n - 1 - b]);
            }
        }
        if r.no_duplicates() {
            assert forall|a: int, b: int| 0 <= a < n && 0 <= b < n && a != b implies order[a] != order[b] by {
                assert(order[a] == r[n - 1 - a]);
                assert(order[b] == r[n - 1 - b]);
            }
        }
    }
    // prefixes of the order are suffixes of the reverse
    assert forall|t: int, x: Seq<char>| 0 <= t < n implies (order.take(t).contains(x) <==> r.skip(
        n - t,
    ).contains(x)) by {
        if order.take(t).contains(x) {
            let u = choose|u: int| 0 <= u < t && #[trigger] order.take(t)[u] == x;
            assert(r.skip(n - t)[t - 1 - u] == x);
        }
        if r.skip(n - t).contains(x) {
            let u = choose|u: int| 0 <= u < t && #[trigger] r.skip(n - t)[u] == x;
            assert(order.take(t)[t - 1 - u] == x);
        }
    }
    if is_start_order(s, order) {
        assert forall|t: int| 0 <= t < r.len() implies names_of(s).contains(#[trigger] r[t]) by {
            assert(r[t] == order[n - 1 - t]);
        }
        assert forall|t: int, i: int, k: int|
            0 <= t < r.len() && 0 <= i < s.len() && #[trigger] s[i].name@ == #[trigger] r[t]
                && 0 <= k < s[i].depends_on@.len()
            implies r.skip(t + 1).contains(#[trigger] s[i].depends_on@[k]@) by {
            let t2 = n - 1 - t;
            assert(order[t2] == r[t]);
            assert(order.take(t2).contains(s[i].depends_on@[k]@));
            assert(n - t2 == t + 1);
        }
    }
    if is_stop_order(s, r) {
        assert forall|t: int| 0 <= t < order.len() implies names_of(s).contains(#[trigger] order[t]) by {
            assert(order[t] == r[n - 1 - t]);
        }
        assert forall|t: int, i: int, k: int|
            0 <= t < order.len() && 0 <= i < s.len() && #[trigger] s[i].name@ == #[trigger] order[t]
                && 0 <= k < s[i].depends_on@.len()
            implies order.take(t).contains(#[trigger] s[i].depends_on@[k]@) by {
            let t2 = n - 1 - t;
            assert(r[t2] == order[t]);
            assert(r.skip(t2 + 1).contains(s[i].depends_on@[k]@));
        }
    }
}

/// Ordering succeeds exactly when every dependency names a declared service,
/// names are distinct and the dependency relation has no cycle; in
/// particular a list of services without dependencies and with distinct
/// names always has a start order.
pub proof fn lemma_independent_services_order(s: Seq<ServiceDef>)
    requires
        names_distinct(s),
        forall|i: int| 0 <= i < s.len() ==> (#[trigger] s[i]).depends_on@.len() == 0,
    ensures
        has_start_order(s),
        all_deps_known(s),
{
    let order = names_of(s);
    assert forall|i: int| 0 <= i < s.len() implies order.contains(#[trigger] s[i].name@) by {
        assert(order[i] == s[i].name@);
    }
    assert(order.no_duplicates());
    assert(is_start_order(s, order));
}

} // verus!
