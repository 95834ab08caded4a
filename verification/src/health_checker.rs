//! The availability state machine: which target addresses are currently
//! excluded from DNS, how one probe result changes that, and the
//! last-survivor guard that keeps a DNS name from losing its final record.

use vstd::prelude::*;
use crate::models::Ipv4Address;
use crate::models::ServiceTarget;
use crate::reconcile::ZoneListing;
use crate::reconcile::listed;

verus! {

/// Whether startup reconciliation marks `addr` unavailable: some target has
/// that address and no listed record for the target's zone and name carries
/// it.
pub open spec fn seeded(
    targets: Seq<ServiceTarget>,
    listings: Seq<ZoneListing>,
    addr: Ipv4Address,
) -> bool {
    exists|i: int|
        0 <= i < targets.len() && (#[trigger] targets[i]).target == addr && !listed(
            listings,
            targets[i],
        )
}

proof fn lemma_seeded_take_step(
    targets: Seq<ServiceTarget>,
    listings: Seq<ZoneListing>,
    i: int,
    addr: Ipv4Address,
)
    requires
        0 <= i < targets.len(),
    ensures
        seeded(targets.take(i + 1), listings, addr) <==> (seeded(targets.take(i), listings, addr)
            || (targets[i].target == addr && !listed(listings, targets[i]))),
{
    let pre = targets.take(i);
    let cur = targets.take(i + 1);
    if seeded(pre, listings, addr) {
        let k = choose|k: int|
            0 <= k < pre.len() && (#[trigger] pre[k]).target == addr && !listed(listings, pre[k]);
        assert(cur[k].target == addr && !listed(listings, cur[k]));
    }
    if targets[i].target == addr && !listed(listings, targets[i]) {
        assert(cur[i].target == addr && !listed(listings, cur[i]));
    }
    if seeded(cur, listings, addr) {
        let k = choose|k: int|
            0 <= k < cur.len() && (#[trigger] cur[k]).target == addr && !listed(listings, cur[k]);
        if k < i {
            assert(pre[k].target == addr && !listed(listings, pre[k]));
        }
    }
}

/// No address appears twice.
pub open spec fn unique_addrs(s: Seq<Ipv4Address>) -> bool {
    forall|i: int, j: int| 0 <= i < j < s.len() ==> s[i] != s[j]
}

/// How many of `targets` advertise the DNS name `dns`.
pub open spec fn group_size(targets: Seq<ServiceTarget>, dns: Seq<char>) -> nat
    decreases targets.len(),
{
    if targets.len() == 0 {
        0
    } else {
        group_size(targets.drop_last(), dns) + if targets.last().dns@ == dns {
            1nat
        } else {
            0nat
        }
    }
}

/// How many of `targets` advertise `dns` and stand in the unavailable list.
pub open spec fn group_excluded(
    targets: Seq<ServiceTarget>,
    dns: Seq<char>,
    unavail: Seq<Ipv4Address>,
) -> nat
    decreases targets.len(),
{
    if targets.len() == 0 {
        0
    } else {
        group_excluded(targets.drop_last(), dns, unavail) + if targets.last().dns@ == dns
            && unavail.contains(targets.last().target) {
            1nat
        } else {
            0nat
        }
    }
}

/// How many members of the `dns` group are still advertised.
pub open spec fn group_available(
    targets: Seq<ServiceTarget>,
    dns: Seq<char>,
    unavail: Seq<Ipv4Address>,
) -> int {
    group_size(targets, dns) - group_excluded(targets, dns, unavail)
}

/// How many of `targets` are not excluded.
pub open spec fn count_available(targets: Seq<ServiceTarget>, unavail: Seq<Ipv4Address>) -> nat
    decreases targets.len(),
{
    if targets.len() == 0 {
        0
    } else {
        count_available(targets.drop_last(), unavail) + if !unavail.contains(
            targets.last().target,
        ) {
            1nat
        } else {
            0nat
        }
    }
}

proof fn lemma_group_size_take_step(targets: Seq<ServiceTarget>, dns: Seq<char>, i: int)
    requires
        0 <= i < targets.len(),
    ensures
        group_size(targets.take(i + 1), dns) == group_size(targets.take(i), dns) + if targets[i].dns@
            == dns {
            1nat
        } else {
            0nat
        },
{
    assert(targets.take(i + 1).drop_last() =~= targets.take(i));
}

proof fn lemma_group_excluded_take_step(
    targets: Seq<ServiceTarget>,
    dns: Seq<char>,
    unavail: Seq<Ipv4Address>,
    i: int,
)
    requires
        0 <= i < targets.len(),
    ensures
        group_excluded(targets.take(i + 1), dns, unavail) == group_excluded(
            targets.take(i),
            dns,
            unavail,
        ) + if targets[i].dns@ == dns && unavail.contains(targets[i].target) {
            1nat
        } else {
            0nat
        },
{
    assert(targets.take(i + 1).drop_last() =~= targets.take(i));
}

proof fn lemma_count_available_take_step(
    targets: Seq<ServiceTarget>,
    unavail: Seq<Ipv4Address>,
    i: int,
)
    requires
        0 <= i < targets.len(),
    ensures
        count_available(targets.take(i + 1), unavail) == count_available(targets.take(i), unavail)
            + if !unavail.contains(targets[i].target) {
            1nat
        } else {
            0nat
        },
{
    assert(targets.take(i + 1).drop_last() =~= targets.take(i));
}

/// A group never has more excluded members than members.
pub proof fn lemma_group_excluded_le_size(
    targets: Seq<ServiceTarget>,
    dns: Seq<char>,
    unavail: Seq<Ipv4Address>,
)
    ensures
        group_excluded(targets, dns, unavail) <= group_size(targets, dns),
    decreases targets.len(),
{
    if targets.len() > 0 {
        lemma_group_excluded_le_size(targets.drop_last(), dns, unavail);
    }
}

proof fn lemma_push_contains<A>(s: Seq<A>, y: A, x: A)
    ensures
        s.push(y).contains(x) <==> (s.contains(x) || x == y),
{
    if s.contains(x) {
        let i = choose|i: int| 0 <= i < s.len() && s[i] == x;
        assert(s.push(y)[i] == x);
    }
    if x == y {
        assert(s.push(y)[s.len() as int] == x);
    }
    if s.push(y).contains(x) {
        let i = choose|i: int| 0 <= i < s.push(y).len() && s.push(y)[i] == x;
        if i < s.len() {
            assert(s[i] == x);
        }
    }
}

proof fn lemma_drop_last_contains<A>(s: Seq<A>, x: A)
    requires
        s.len() > 0,
    ensures
        s.contains(x) <==> (s.drop_last().contains(x) || s.last() == x),
{
    if s.drop_last().contains(x) {
        let i = choose|i: int| 0 <= i < s.drop_last().len() && s.drop_last()[i] == x;
        assert(s[i] == x);
    }
    if s.last() == x {
        assert(s[s.len() - 1] == x);
    }
    if s.contains(x) {
        let i = choose|i: int| 0 <= i < s.len() && s[i] == x;
        if i < s.len() - 1 {
            assert(s.drop_last()[i] == x);
        }
    }
}

/// `unavail` with every entry equal to `addr` removed, order kept.
pub open spec fn remove_addr(unavail: Seq<Ipv4Address>, addr: Ipv4Address) -> Seq<Ipv4Address>
    decreases unavail.len(),
{
    if unavail.len() == 0 {
        Seq::empty()
    } else {
        let rest = remove_addr(unavail.drop_last(), addr);
        if unavail.last() == addr {
            rest
        } else {
            rest.push(unavail.last())
        }
    }
}

/// What `remove_addr` leaves in the list: everything but the removed address.
pub proof fn lemma_remove_addr_contains(
    unavail: Seq<Ipv4Address>,
    addr: Ipv4Address,
    x: Ipv4Address,
)
    ensures
        remove_addr(unavail, addr).contains(x) <==> (unavail.contains(x) && x != addr),
    decreases unavail.len(),
{
    if unavail.len() > 0 {
        let rest = remove_addr(unavail.drop_last(), addr);
        lemma_remove_addr_contains(unavail.drop_last(), addr, x);
        lemma_drop_last_contains(unavail, x);
        if unavail.last() != addr {
            lemma_push_contains(rest, unavail.last(), x);
        }
    }
}

/// The remote operation a transition asks the DNS reconciler to perform for
/// the probed target.
#[derive(Clone, Copy, PartialEq, Eq, Structural, Debug)]
pub enum ReconcileOp {
    Add,
    Remove,
}

/// What one probe result did to the availability state.
#[derive(Clone, Copy, PartialEq, Eq, Structural, Debug)]
pub enum TransitionEvent {
    /// An excluded target probed healthy: it is advertised again.
    BecameAvailable,
    /// An available target probed unhealthy with at least one sibling still
    /// advertised: it is withdrawn.
    WentUnavailable,
    /// An available target probed unhealthy, but it is its group's last
    /// advertised member: it is kept.
    LastSurvivorKept,
    /// The probe result matched the current state: nothing to do.
    NoChange,
}

/// The reconciler call (if any) and the event one transition produced.
#[derive(Clone, Copy, PartialEq, Eq, Debug)]
pub struct TransitionOutcome {
    pub op: Option<ReconcileOp>,
    pub event: TransitionEvent,
}

/// The unavailable list after one probe result is applied.
pub open spec fn step_unavailable(
    targets: Seq<ServiceTarget>,
    unavail: Seq<Ipv4Address>,
    target: ServiceTarget,
    healthy: bool,
) -> Seq<Ipv4Address> {
    if healthy {
        if unavail.contains(target.target) {
            remove_addr(unavail, target.target)
        } else {
            unavail
        }
    } else {
        if !unavail.contains(target.target) && group_available(targets, target.dns@, unavail) > 1 {
            unavail.push(target.target)
        } else {
            unavail
        }
    }
}

/// The reconciler call and event one probe result produces.
pub open spec fn step_outcome(
    targets: Seq<ServiceTarget>,
    unavail: Seq<Ipv4Address>,
    target: ServiceTarget,
    healthy: bool,
) -> TransitionOutcome {
    if healthy {
        if unavail.contains(target.target) {
            TransitionOutcome {
                op: Some(ReconcileOp::Add),
                event: TransitionEvent::BecameAvailable,
            }
        } else {
            TransitionOutcome { op: None, event: TransitionEvent::NoChange }
        }
    } else {
        if unavail.contains(target.target) {
            TransitionOutcome { op: None, event: TransitionEvent::NoChange }
        } else if group_available(targets, target.dns@, unavail) > 1 {
            TransitionOutcome {
                op: Some(ReconcileOp::Remove),
                event: TransitionEvent::WentUnavailable,
            }
        } else {
            TransitionOutcome { op: None, event: TransitionEvent::LastSurvivorKept }
        }
    }
}

/// The unavailable list after the first `n` probe results of a round.
pub open spec fn round_unavailable(
    targets: Seq<ServiceTarget>,
    unavail: Seq<Ipv4Address>,
    results: Seq<bool>,
    n: int,
) -> Seq<Ipv4Address>
    decreases n,
{
    if n <= 0 {
        unavail
    } else {
        step_unavailable(
            targets,
            round_unavailable(targets, unavail, results, n - 1),
            targets[n - 1],
            results[n - 1],
        )
    }
}

/// The reconciler call and event of the round's transition number `i`.
pub open spec fn round_outcome(
    targets: Seq<ServiceTarget>,
    unavail: Seq<Ipv4Address>,
    results: Seq<bool>,
    i: int,
) -> TransitionOutcome {
    step_outcome(targets, round_unavailable(targets, unavail, results, i), targets[i], results[i])
}

/// Law: an available target that probes unhealthy is withdrawn, with exactly
/// one remove call, only when at least one other member of its DNS-name group
/// stays advertised; a group's sole advertised member is kept, with no call.
pub proof fn lemma_down_transition(
    targets: Seq<ServiceTarget>,
    unavail: Seq<Ipv4Address>,
    target: ServiceTarget,
)
    requires
        !unavail.contains(target.target),
    ensures
        group_available(targets, target.dns@, unavail) > 1 ==> {
            &&& step_unavailable(targets, unavail, target, false) == unavail.push(target.target)
            &&& step_unavailable(targets, unavail, target, false).contains(target.target)
            &&& step_outcome(targets, unavail, target, false) == (TransitionOutcome {
                op: Some(ReconcileOp::Remove),
                event: TransitionEvent::WentUnavailable,
            })
        },
        group_available(targets, target.dns@, unavail) <= 1 ==> {
            &&& step_unavailable(targets, unavail, target, false) == unavail
            &&& step_outcome(targets, unavail, target, false) == (TransitionOutcome {
                op: None,
                event: TransitionEvent::LastSurvivorKept,
            })
        },
{
    lemma_push_contains(unavail, target.target, target.target);
}

/// Law: an excluded target that probes healthy is advertised again, with
/// exactly one add call; further healthy results for it change nothing and
/// trigger no further call.
pub proof fn lemma_recovery_idempotent(
    targets: Seq<ServiceTarget>,
    unavail: Seq<Ipv4Address>,
    target: ServiceTarget,
)
    requires
        unavail.contains(target.target),
    ensures
        ({
            let once = step_unavailable(targets, unavail, target, true);
            &&& step_outcome(targets, unavail, target, true) == (TransitionOutcome {
                op: Some(ReconcileOp::Add),
                event: TransitionEvent::BecameAvailable,
            })
            &&& !once.contains(target.target)
            &&& step_unavailable(targets, once, target, true) == once
            &&& step_outcome(targets, once, target, true) == (TransitionOutcome {
                op: None,
                event: TransitionEvent::NoChange,
            })
        }),
{
    lemma_remove_addr_contains(unavail, target.target, target.target);
}

/// Pairwise distinct target addresses.
pub open spec fn distinct_addrs(targets: Seq<ServiceTarget>) -> bool {
    forall|i: int, j: int|
        0 <= i < j < targets.len() ==> (#[trigger] targets[i]).target != (#[trigger] targets[j]).target
}

proof fn lemma_group_excluded_mono(
    targets: Seq<ServiceTarget>,
    dns: Seq<char>,
    u1: Seq<Ipv4Address>,
    u2: Seq<Ipv4Address>,
)
    requires
        forall|x: Ipv4Address| #[trigger] u2.contains(x) ==> u1.contains(x),
    ensures
        group_excluded(targets, dns, u2) <= group_excluded(targets, dns, u1),
    decreases targets.len(),
{
    if targets.len() > 0 {
        lemma_group_excluded_mono(targets.drop_last(), dns, u1, u2);
    }
}

proof fn lemma_group_excluded_push(
    targets: Seq<ServiceTarget>,
    dns: Seq<char>,
    unavail: Seq<Ipv4Address>,
    a: Ipv4Address,
)
    requires
        distinct_addrs(targets),
    ensures
        group_excluded(targets, dns, unavail) <= group_excluded(targets, dns, unavail.push(a))
            <= group_excluded(targets, dns, unavail) + 1,
        (forall|k: int|
            0 <= k < targets.len() ==> !((#[trigger] targets[k]).dns@ == dns && targets[k].target
                == a)) ==> group_excluded(targets, dns, unavail.push(a)) == group_excluded(
            targets,
            dns,
            unavail,
        ),
    decreases targets.len(),
{
    if targets.len() > 0 {
        let rest = targets.drop_last();
        assert forall|i: int, j: int| 0 <= i < j < rest.len() implies (#[trigger] rest[i]).target
            != (#[trigger] rest[j]).target by {
            assert(rest[i] == targets[i] && rest[j] == targets[j]);
        }
        lemma_group_excluded_push(rest, dns, unavail, a);
        lemma_push_contains(unavail, a, targets.last().target);
        if targets.last().target == a {
            assert forall|k: int| 0 <= k < rest.len() implies (#[trigger] rest[k]).target != a by {
                assert(rest[k] == targets[k]);
                assert(targets[k].target != targets[targets.len() - 1].target);
            }
        }
    }
}

/// Law: with pairwise distinct target addresses, no probe result for a listed
/// target empties a DNS-name group that still had an advertised member — at
/// least one record per name survives every transition.
pub proof fn lemma_last_survivor_invariant(
    targets: Seq<ServiceTarget>,
    unavail: Seq<Ipv4Address>,
    target: ServiceTarget,
    healthy: bool,
    dns: Seq<char>,
)
    requires
        distinct_addrs(targets),
        targets.contains(target),
        group_available(targets, dns, unavail) >= 1,
    ensures
        group_available(targets, dns, step_unavailable(targets, unavail, target, healthy)) >= 1,
{
    let a = target.target;
    let after = step_unavailable(targets, unavail, target, healthy);
    if healthy {
        if unavail.contains(a) {
            assert forall|x: Ipv4Address| #[trigger] after.contains(x) implies unavail.contains(
                x,
            ) by {
                lemma_remove_addr_contains(unavail, a, x);
            }
            lemma_group_excluded_mono(targets, dns, unavail, after);
        }
    } else {
        if !unavail.contains(a) && group_available(targets, target.dns@, unavail) > 1 {
            lemma_group_excluded_push(targets, dns, unavail, a);
            if exists|k: int|
                0 <= k < targets.len() && (#[trigger] targets[k]).dns@ == dns && targets[k].target
                    == a {
                let k = choose|k: int|
                    0 <= k < targets.len() && (#[trigger] targets[k]).dns@ == dns
                        && targets[k].target == a;
                let j = choose|j: int| 0 <= j < targets.len() && targets[j] == target;
                assert(k == j);
                assert(dns == target.dns@);
            }
        }
    }
}

/// Law: with pairwise distinct target addresses, a whole round of probe
/// results keeps at least one advertised member in every DNS-name group that
/// had one when the round began.
pub proof fn lemma_round_last_survivor(
    targets: Seq<ServiceTarget>,
    unavail: Seq<Ipv4Address>,
    results: Seq<bool>,
    n: int,
    dns: Seq<char>,
)
    requires
        distinct_addrs(targets),
        results.len() == targets.len(),
        0 <= n <= targets.len(),
        group_available(targets, dns, unavail) >= 1,
    ensures
        group_available(targets, dns, round_unavailable(targets, unavail, results, n)) >= 1,
    decreases n,
{
    if n > 0 {
        lemma_round_last_survivor(targets, unavail, results, n - 1, dns);
        assert(targets.contains(targets[n - 1]));
        lemma_last_survivor_invariant(
            targets,
            round_unavailable(targets, unavail, results, n - 1),
            targets[n - 1],
            results[n - 1],
            dns,
        );
    }
}

proof fn lemma_remove_addr_unique(unavail: Seq<Ipv4Address>, addr: Ipv4Address)
    requires
        unique_addrs(unavail),
    ensures
        unique_addrs(remove_addr(unavail, addr)),
    decreases unavail.len(),
{
    if unavail.len() > 0 {
        let rest = remove_addr(unavail.drop_last(), addr);
        assert(unique_addrs(unavail.drop_last())) by {
            assert forall|i: int, j: int|
                0 <= i < j < unavail.drop_last().len() implies unavail.drop_last()[i]
                != unavail.drop_last()[j] by {
                assert(unavail[i] != unavail[j]);
            }
        }
        lemma_remove_addr_unique(unavail.drop_last(), addr);
        if unavail.last() != addr {
            assert(!rest.contains(unavail.last())) by {
                lemma_remove_addr_contains(unavail.drop_last(), addr, unavail.last());
                if unavail.drop_last().contains(unavail.last()) {
                    let i = choose|i: int|
                        0 <= i < unavail.drop_last().len() && unavail.drop_last()[i]
                            == unavail.last();
                    assert(unavail[i] == unavail[unavail.len() - 1]);
                }
            }
            assert forall|i: int, j: int|
                0 <= i < j < rest.push(unavail.last()).len() implies rest.push(unavail.last())[i]
                != rest.push(unavail.last())[j] by {
                if j < rest.len() {
                    assert(rest[i] != rest[j]);
                } else {
                    if rest[i] == unavail.last() {
                        assert(rest.contains(unavail.last()));
                    }
                }
            }
        }
    }
}

/// Law: one probe result never puts an address into the unavailable list
/// twice: the list stays a set.
pub proof fn lemma_step_preserves_unique(
    targets: Seq<ServiceTarget>,
    unavail: Seq<Ipv4Address>,
    target: ServiceTarget,
    healthy: bool,
)
    requires
        unique_addrs(unavail),
    ensures
        unique_addrs(step_unavailable(targets, unavail, target, healthy)),
{
    let a = target.target;
    if healthy {
        if unavail.contains(a) {
            lemma_remove_addr_unique(unavail, a);
        }
    } else {
        if !unavail.contains(a) && group_available(targets, target.dns@, unavail) > 1 {
            assert forall|i: int, j: int|
                0 <= i < j < unavail.push(a).len() implies unavail.push(a)[i] != unavail.push(
                a,
            )[j] by {
                if j < unavail.len() {
                    assert(unavail[i] != unavail[j]);
                } else {
                    if unavail[i] == a {
                        assert(unavail.contains(a));
                    }
                }
            }
        }
    }
}

/// The in-memory availability state: the fixed target list and the addresses
/// currently excluded from DNS.
pub struct HealthChecker {
    pub targets: Vec<ServiceTarget>,
    pub unavailable: Vec<Ipv4Address>,
}

fn contains_addr(v: &Vec<Ipv4Address>, addr: Ipv4Address) -> (b: bool)
    ensures
        b == v@.contains(addr),
{
    let mut i: usize = 0;
    while i < v.len()
        invariant
            0 <= i <= v@.len(),
            forall|j: int| 0 <= j < i ==> v@[j] != addr,
        decreases v@.len() - i,
    {
        if v[i] == addr {
            assert(v@.contains(addr)) by {
                assert(v@[i as int] == addr);
            }
            return true;
        }
        i += 1;
    }
    assert(!v@.contains(addr)) by {
        if v@.contains(addr) {
            let j = choose|j: int| 0 <= j < v@.len() && v@[j] == addr;
            assert(v@[j] != addr);
        }
    }
    false
}

fn remove_addr_exec(v: &Vec<Ipv4Address>, addr: Ipv4Address) -> (r: Vec<Ipv4Address>)
    ensures
        r@ == remove_addr(v@, addr),
{
    let mut r: Vec<Ipv4Address> = Vec::new();
    let mut i: usize = 0;
    while i < v.len()
        invariant
            0 <= i <= v@.len(),
            r@ == remove_addr(v@.take(i as int), addr),
        decreases v@.len() - i,
    {
        proof {
            assert(v@.take(i + 1).drop_last() =~= v@.take(i as int));
            assert(v@.take(i + 1).last() == v@[i as int]);
        }
        if !(v[i] == addr) {
            r.push(v[i]);
        }
        i += 1;
    }
    proof {
        assert(v@.take(v@.len() as int) =~= v@);
    }
    r
}

fn is_listed(listings: &Vec<ZoneListing>, t: &ServiceTarget) -> (b: bool)
    ensures
        b == listed(listings@, *t),
{
    let mut i: usize = 0;
    while i < listings.len()
        invariant
            0 <= i <= listings@.len(),
            forall|j: int|
                0 <= j < i ==> !((#[trigger] listings@[j]).zone@ == t.zone@ && listings@[j].dns@
                    == t.dns@ && listings@[j].addresses@.contains(t.target)),
        decreases listings@.len() - i,
    {
        if listings[i].zone.eq(&t.zone) && listings[i].dns.eq(&t.dns) && contains_addr(
            &listings[i].addresses,
            t.target,
        ) {
            assert(listed(listings@, *t)) by {
                assert((listings@[i as int]).zone@ == t.zone@ && listings@[i as int].dns@ == t.dns@
                    && listings@[i as int].addresses@.contains(t.target));
            }
            return true;
        }
        i += 1;
    }
    assert(!listed(listings@, *t)) by {
        if listed(listings@, *t) {
            let j = choose|j: int|
                0 <= j < listings@.len() && (#[trigger] listings@[j]).zone@ == t.zone@
                    && listings@[j].dns@ == t.dns@ && listings@[j].addresses@.contains(t.target);
            assert(!((listings@[j]).zone@ == t.zone@ && listings@[j].dns@ == t.dns@
                && listings@[j].addresses@.contains(t.target)));
        }
    }
    false
}

impl HealthChecker {
    /// Starts with the given targets and nothing excluded; the initial
    /// exclusions come from startup reconciliation.
    pub fn new(targets: Vec<ServiceTarget>) -> (r: HealthChecker)
        ensures
            r.targets == targets,
            r.unavailable@ == Seq::<Ipv4Address>::empty(),
    {
        HealthChecker { targets, unavailable: Vec::new() }
    }

    /// Both counts for the DNS-name group of `dns`: how many targets carry it,
    /// and how many of those are excluded.
    fn count_group(&self, dns: &String) -> (counts: (usize, usize))
        ensures
            counts.0 == group_size(self.targets@, dns@),
            counts.1 == group_excluded(self.targets@, dns@, self.unavailable@),
    {
        let mut size: usize = 0;
        let mut excluded: usize = 0;
        let mut i: usize = 0;
        while i < self.targets.len()
            invariant
                0 <= i <= self.targets@.len(),
                size == group_size(self.targets@.take(i as int), dns@),
                excluded == group_excluded(
                    self.targets@.take(i as int),
                    dns@,
                    self.unavailable@,
                ),
                size <= i,
                excluded <= i,
            decreases self.targets@.len() - i,
        {
            proof {
                lemma_group_size_take_step(self.targets@, dns@, i as int);
                lemma_group_excluded_take_step(self.targets@, dns@, self.unavailable@, i as int);
            }
            if self.targets[i].dns.eq(dns) {
                size += 1;
                if contains_addr(&self.unavailable, self.targets[i].target) {
                    excluded += 1;
                }
            }
            i += 1;
        }
        proof {
            assert(self.targets@.take(self.targets@.len() as int) =~= self.targets@);
        }
        (size, excluded)
    }

    /// Applies a healthy probe result: an excluded target is advertised again
    /// and the reconciler is asked to add its record; anything else is a no-op.
    pub fn handle_target_up(&mut self, target: &ServiceTarget) -> (r: TransitionOutcome)
        ensures
            final(self).targets == old(self).targets,
            final(self).unavailable@ == step_unavailable(
                old(self).targets@,
                old(self).unavailable@,
                *target,
                true,
            ),
            r == step_outcome(old(self).targets@, old(self).unavailable@, *target, true),
    {
        if contains_addr(&self.unavailable, target.target) {
            self.unavailable = remove_addr_exec(&self.unavailable, target.target);
            TransitionOutcome {
                op: Some(ReconcileOp::Add),
                event: TransitionEvent::BecameAvailable,
            }
        } else {
            TransitionOutcome { op: None, event: TransitionEvent::NoChange }
        }
    }

    /// Applies an unhealthy probe result: an available target is withdrawn and
    /// the reconciler asked to remove its record, unless it is the last
    /// advertised member of its DNS-name group, which is kept.
    pub fn handle_target_down(&mut self, target: &ServiceTarget) -> (r: TransitionOutcome)
        ensures
            final(self).targets == old(self).targets,
            final(self).unavailable@ == step_unavailable(
                old(self).targets@,
                old(self).unavailable@,
                *target,
                false,
            ),
            r == step_outcome(old(self).targets@, old(self).unavailable@, *target, false),
    {
        if !contains_addr(&self.unavailable, target.target) {
            let counts = self.count_group(&target.dns);
            proof {
                lemma_group_excluded_le_size(self.targets@, target.dns@, self.unavailable@);
            }
            if counts.0 - counts.1 > 1 {
                self.unavailable.push(target.target);
                TransitionOutcome {
                    op: Some(ReconcileOp::Remove),
                    event: TransitionEvent::WentUnavailable,
                }
            } else {
                TransitionOutcome { op: None, event: TransitionEvent::LastSurvivorKept }
            }
        } else {
            TransitionOutcome { op: None, event: TransitionEvent::NoChange }
        }
    }

    /// Applies one probe result to the state machine.
    pub fn apply_probe_result(&mut self, target: &ServiceTarget, healthy: bool) -> (r:
        TransitionOutcome)
        ensures
            final(self).targets == old(self).targets,
            final(self).unavailable@ == step_unavailable(
                old(self).targets@,
                old(self).unavailable@,
                *target,
                healthy,
            ),
            r == step_outcome(old(self).targets@, old(self).unavailable@, *target, healthy),
    {
        if healthy {
            self.handle_target_up(target)
        } else {
            self.handle_target_down(target)
        }
    }

    /// Startup reconciliation: a target whose `(zone, dns)` listings show no
    /// record with its address is assumed unavailable and seeded as excluded
    /// before the first round.
    pub fn startup_reconcile(&mut self, listings: &Vec<ZoneListing>)
        requires
            old(self).unavailable@.len() == 0,
        ensures
            final(self).targets == old(self).targets,
            forall|addr: Ipv4Address| #[trigger]
                final(self).unavailable@.contains(addr) <==> seeded(
                    old(self).targets@,
                    listings@,
                    addr,
                ),
            unique_addrs(final(self).unavailable@),
    {
        let mut t: usize = 0;
        while t < self.targets.len()
            invariant
                0 <= t <= self.targets@.len(),
                self.targets == old(self).targets,
                forall|addr: Ipv4Address| #[trigger]
                    self.unavailable@.contains(addr) <==> seeded(
                        self.targets@.take(t as int),
                        listings@,
                        addr,
                    ),
                unique_addrs(self.unavailable@),
            decreases self.targets@.len() - t,
        {
            let ghost un_old = self.unavailable@;
            let addr = self.targets[t].target;
            let lst = is_listed(listings, &self.targets[t]);
            let cont = contains_addr(&self.unavailable, addr);
            if !lst && !cont {
                self.unavailable.push(addr);
                proof {
                    assert forall|i: int, j: int|
                        0 <= i < j < self.unavailable@.len() implies self.unavailable@[i]
                        != self.unavailable@[j] by {
                        if j == self.unavailable@.len() - 1 {
                            if un_old[i] == addr {
                                assert(un_old.contains(addr));
                            }
                        }
                    }
                }
            }
            t += 1;
            proof {
                assert forall|a: Ipv4Address| #[trigger]
                    self.unavailable@.contains(a) <==> seeded(
                        self.targets@.take(t as int),
                        listings@,
                        a,
                    ) by {
                    lemma_seeded_take_step(self.targets@, listings@, t - 1, a);
                    lemma_push_contains(un_old, addr, a);
                }
            }
        }
        proof {
            assert(self.targets@.take(self.targets@.len() as int) =~= self.targets@);
        }
    }

    /// Applies one full round of probe results, in target-list order:
    /// `results` holds one healthy flag per target, at the target's own index.
    pub fn process_round(&mut self, results: &Vec<bool>) -> (outcomes: Vec<TransitionOutcome>)
        requires
            results@.len() == old(self).targets@.len(),
        ensures
            final(self).targets == old(self).targets,
            final(self).unavailable@ == round_unavailable(
                old(self).targets@,
                old(self).unavailable@,
                results@,
                old(self).targets@.len() as int,
            ),
            outcomes@.len() == old(self).targets@.len(),
            forall|i: int|
                0 <= i < outcomes@.len() ==> outcomes@[i] == round_outcome(
                    old(self).targets@,
                    old(self).unavailable@,
                    results@,
                    i,
                ),
    {
        let ghost targets0 = old(self).targets@;
        let ghost unavail0 = old(self).unavailable@;
        let mut outcomes: Vec<TransitionOutcome> = Vec::new();
        let mut i: usize = 0;
        while i < self.targets.len()
            invariant
                0 <= i <= targets0.len(),
                self.targets == old(self).targets,
                self.targets@ == targets0,
                results@.len() == targets0.len(),
                self.unavailable@ == round_unavailable(targets0, unavail0, results@, i as int),
                outcomes@.len() == i,
                forall|j: int|
                    0 <= j < i ==> outcomes@[j] == round_outcome(targets0, unavail0, results@, j),
            decreases targets0.len() - i,
        {
            let target = self.targets[i].clone();
            let outcome = self.apply_probe_result(&target, results[i]);
            outcomes.push(outcome);
            i += 1;
        }
        outcomes
    }

    /// How many targets are currently advertised.
    pub fn available_count(&self) -> (n: usize)
        ensures
            n == count_available(self.targets@, self.unavailable@),
    {
        let mut n: usize = 0;
        let mut i: usize = 0;
        while i < self.targets.len()
            invariant
                0 <= i <= self.targets@.len(),
                n == count_available(self.targets@.take(i as int), self.unavailable@),
                n <= i,
            decreases self.targets@.len() - i,
        {
            proof {
                lemma_count_available_take_step(self.targets@, self.unavailable@, i as int);
            }
            if !contains_addr(&self.unavailable, self.targets[i].target) {
                n += 1;
            }
            i += 1;
        }
        proof {
            assert(self.targets@.take(self.targets@.len() as int) =~= self.targets@);
        }
        n
    }
}

} // verus!
