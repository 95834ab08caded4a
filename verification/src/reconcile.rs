//! DNS reconciliation planning: given the records the provider currently
//! lists for a zone and name, decide idempotently what to create or delete so
//! that the zone matches the availability state.

use vstd::prelude::*;
use crate::models::Ipv4Address;
use crate::models::ServiceTarget;

verus! {

/// What one remote record holds, as far as reconciliation reads it: an A
/// record's IPv4 content, or any other record type, which is ignored.
#[derive(Clone, Copy, PartialEq, Eq, Structural, Debug)]
pub enum RecordContent {
    A(Ipv4Address),
    Other,
}

/// One record as the DNS provider lists it.
#[derive(Clone, Debug)]
pub struct RemoteRecord {
    /// The provider-assigned identifier, used to delete the record.
    pub id: String,
    /// The record's DNS name.
    pub name: String,
    pub content: RecordContent,
}

/// Whether `rec` is an A record whose content is `addr`.
pub open spec fn record_matches(rec: RemoteRecord, addr: Ipv4Address) -> bool {
    rec.content == RecordContent::A(addr)
}

/// The request sent to the provider when a record is created.
#[derive(Clone, Debug)]
pub struct CreateRecordParams {
    pub name: String,
    pub content: Ipv4Address,
    /// The provider's proxying flag; records are created with it enabled.
    pub proxied: bool,
}

/// Decides an `add`: if some listed record already carries the target's
/// address, nothing is created; otherwise exactly one A record with the
/// target's address as content, under the target's DNS name, proxied.
pub fn plan_add(records: &Vec<RemoteRecord>, target: &ServiceTarget) -> (r: Option<
    CreateRecordParams,
>)
    ensures
        r is None <==> exists|i: int|
            0 <= i < records@.len() && record_matches(#[trigger] records@[i], target.target),
        match r {
            Some(p) => p.name@ == target.dns@ && p.content == target.target && p.proxied == true,
            None => true,
        },
{
    let mut i: usize = 0;
    while i < records.len()
        invariant
            0 <= i <= records@.len(),
            forall|j: int| 0 <= j < i ==> !record_matches(#[trigger] records@[j], target.target),
        decreases records@.len() - i,
    {
        if records[i].content == RecordContent::A(target.target) {
            assert(record_matches(records@[i as int], target.target));
            return None;
        }
        i += 1;
    }
    Some(
        CreateRecordParams {
            name: target.dns.clone(),
            content: target.target,
            proxied: true,
        },
    )
}

/// Decides a `remove`: the position of the first listed record whose content
/// is the target's address, to be deleted by its identifier; `None` (no call,
/// only a warning) when no record matches.
pub fn plan_remove(records: &Vec<RemoteRecord>, target: &ServiceTarget) -> (r: Option<usize>)
    ensures
        match r {
            Some(i) => 0 <= i < records@.len() && record_matches(records@[i as int], target.target)
                && forall|j: int|
                0 <= j < i ==> !record_matches(#[trigger] records@[j], target.target),
            None => forall|i: int|
                0 <= i < records@.len() ==> !record_matches(#[trigger] records@[i], target.target),
        },
{
    let mut i: usize = 0;
    while i < records.len()
        invariant
            0 <= i <= records@.len(),
            forall|j: int| 0 <= j < i ==> !record_matches(#[trigger] records@[j], target.target),
        decreases records@.len() - i,
    {
        if records[i].content == RecordContent::A(target.target) {
            return Some(i);
        }
        i += 1;
    }
    None
}

/// The A-record contents the provider listed for one `(zone, dns)` pair.
#[derive(Clone, Debug)]
pub struct ZoneListing {
    pub zone: String,
    pub dns: String,
    /// The IPv4 contents of the listed A records; other record types are
    /// already left out.
    pub addresses: Vec<Ipv4Address>,
}

/// Whether some listing for the target's zone and DNS name carries the
/// target's address.
pub open spec fn listed(listings: Seq<ZoneListing>, t: ServiceTarget) -> bool {
    exists|i: int|
        0 <= i < listings.len() && (#[trigger] listings[i]).zone@ == t.zone@ && listings[i].dns@
            == t.dns@ && listings[i].addresses@.contains(t.target)
}

/// Whether some pair of `pairs` reads (`zone`, `dns`).
pub open spec fn has_pair(pairs: Seq<(String, String)>, zone: Seq<char>, dns: Seq<char>) -> bool {
    exists|i: int| 0 <= i < pairs.len() && (#[trigger] pairs[i]).0@ == zone && pairs[i].1@ == dns
}

/// Whether some target carries the pair (`zone`, `dns`).
pub open spec fn targets_have_pair(
    targets: Seq<ServiceTarget>,
    zone: Seq<char>,
    dns: Seq<char>,
) -> bool {
    exists|i: int|
        0 <= i < targets.len() && (#[trigger] targets[i]).zone@ == zone && targets[i].dns@ == dns
}

fn pairs_contain(pairs: &Vec<(String, String)>, zone: &String, dns: &String) -> (b: bool)
    ensures
        b == has_pair(pairs@, zone@, dns@),
{
    let mut i: usize = 0;
    while i < pairs.len()
        invariant
            0 <= i <= pairs@.len(),
            forall|j: int|
                0 <= j < i ==> !((#[trigger] pairs@[j]).0@ == zone@ && pairs@[j].1@ == dns@),
        decreases pairs@.len() - i,
    {
        if pairs[i].0.eq(zone) && pairs[i].1.eq(dns) {
            assert(has_pair(pairs@, zone@, dns@)) by {
                assert((pairs@[i as int]).0@ == zone@ && pairs@[i as int].1@ == dns@);
            }
            return true;
        }
        i += 1;
    }
    false
}

/// Every `(zone, dns)` pair the targets advertise, once each: the pairs whose
/// records startup reconciliation lists.
pub fn distinct_zone_dns(targets: &Vec<ServiceTarget>) -> (r: Vec<(String, String)>)
    ensures
        forall|zone: Seq<char>, dns: Seq<char>|
            #![trigger has_pair(r@, zone, dns)]
            #![trigger targets_have_pair(targets@, zone, dns)]
            has_pair(r@, zone, dns) <==> targets_have_pair(targets@, zone, dns),
        forall|i: int, j: int|
            0 <= i < j < r@.len() ==> !((#[trigger] r@[i]).0@ == (#[trigger] r@[j]).0@ && r@[i].1@
                == r@[j].1@),
{
    let mut r: Vec<(String, String)> = Vec::new();
    let mut t: usize = 0;
    while t < targets.len()
        invariant
            0 <= t <= targets@.len(),
            forall|zone: Seq<char>, dns: Seq<char>|
                #![trigger has_pair(r@, zone, dns)]
                #![trigger targets_have_pair(targets@.take(t as int), zone, dns)]
                has_pair(r@, zone, dns) <==> targets_have_pair(targets@.take(t as int), zone, dns),
            forall|i: int, j: int|
                0 <= i < j < r@.len() ==> !((#[trigger] r@[i]).0@ == (#[trigger] r@[j]).0@
                    && r@[i].1@ == r@[j].1@),
        decreases targets@.len() - t,
    {
        let ghost r_old = r@;
        let ghost prefix = targets@.take(t as int);
        if !pairs_contain(&r, &targets[t].zone, &targets[t].dns) {
            r.push((targets[t].zone.clone(), targets[t].dns.clone()));
        }
        t += 1;
        proof {
            let prefix1 = targets@.take(t as int);
            assert(prefix1.drop_last() =~= prefix);
            assert(prefix1.last() == targets@[t - 1]);
            assert forall|zone: Seq<char>, dns: Seq<char>|
                #![trigger has_pair(r@, zone, dns)]
                #![trigger targets_have_pair(prefix1, zone, dns)]
                has_pair(r@, zone, dns) <==> targets_have_pair(prefix1, zone, dns) by {
                lemma_pair_take_step(targets@, t - 1, zone, dns);
                if r@ != r_old {
                    lemma_has_pair_push(r_old, (targets@[t - 1].zone, targets@[t - 1].dns), zone, dns);
                }
            }
        }
    }
    proof {
        assert(targets@.take(targets@.len() as int) =~= targets@);
    }
    r
}

proof fn lemma_pair_take_step(targets: Seq<ServiceTarget>, i: int, zone: Seq<char>, dns: Seq<char>)
    requires
        0 <= i < targets.len(),
    ensures
        targets_have_pair(targets.take(i + 1), zone, dns) <==> (targets_have_pair(
            targets.take(i),
            zone,
            dns,
        ) || (targets[i].zone@ == zone && targets[i].dns@ == dns)),
{
    let pre = targets.take(i);
    let cur = targets.take(i + 1);
    if targets_have_pair(pre, zone, dns) {
        let k = choose|k: int| 0 <= k < pre.len() && (#[trigger] pre[k]).zone@ == zone && pre[k].dns@ == dns;
        assert(cur[k].zone@ == zone && cur[k].dns@ == dns);
    }
    if targets[i].zone@ == zone && targets[i].dns@ == dns {
        assert(cur[i].zone@ == zone && cur[i].dns@ == dns);
    }
    if targets_have_pair(cur, zone, dns) {
        let k = choose|k: int| 0 <= k < cur.len() && (#[trigger] cur[k]).zone@ == zone && cur[k].dns@ == dns;
        if k < i {
            assert(pre[k].zone@ == zone && pre[k].dns@ == dns);
        }
    }
}

proof fn lemma_has_pair_push(
    pairs: Seq<(String, String)>,
    p: (String, String),
    zone: Seq<char>,
    dns: Seq<char>,
)
    ensures
        has_pair(pairs.push(p), zone, dns) <==> (has_pair(pairs, zone, dns) || (p.0@ == zone && p.1@
            == dns)),
{
    if has_pair(pairs, zone, dns) {
        let k = choose|k: int|
            0 <= k < pairs.len() && (#[trigger] pairs[k]).0@ == zone && pairs[k].1@ == dns;
        assert((pairs.push(p)[k]).0@ == zone && pairs.push(p)[k].1@ == dns);
    }
    if p.0@ == zone && p.1@ == dns {
        assert((pairs.push(p)[pairs.len() as int]).0@ == zone && pairs.push(p)[pairs.len() as int].1@
            == dns);
    }
    if has_pair(pairs.push(p), zone, dns) {
        let k = choose|k: int|
            0 <= k < pairs.push(p).len() && (#[trigger] pairs.push(p)[k]).0@ == zone
                && pairs.push(p)[k].1@ == dns;
        if k < pairs.len() {
            assert(pairs[k].0@ == zone && pairs[k].1@ == dns);
        }
    }
}

} // verus!
