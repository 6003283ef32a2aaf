//! The interface poller's reconciliation rules: which tabled links must
//! go, and which enumerated interfaces should become links. The poller
//! loop, the clock and socket creation live outside the library; this
//! module computes the plan a tick acts on.

use vstd::prelude::*;
use crate::exclusion::{effectively_excluded, is_excluded, ExclusionSwaps};
use crate::interfaces::{
    address_for, get_address_by_interface, interface_exists, present_in, IfaceRow, Ipv4Octets,
};
use crate::linktable::{record_with_name, LinkRecord, LinkTable};

verus! {

/// A tabled link must be evicted: its interface disappeared, is
/// effectively excluded, or changed its selected source address.
pub open spec fn should_remove(
    rec: LinkRecord,
    rows: Seq<IfaceRow>,
    excl: Seq<String>,
    swaps: ExclusionSwaps,
) -> bool {
    ||| !present_in(rec.name@, rows)
    ||| effectively_excluded(rec.name@, excl, swaps)
    ||| (address_for(rec.name@, rows) is Some && address_for(rec.name@, rows)->0
        != rec.source_address)
}

/// The names to evict, in table order.
pub open spec fn removal_names(
    records: Seq<LinkRecord>,
    rows: Seq<IfaceRow>,
    excl: Seq<String>,
    swaps: ExclusionSwaps,
) -> Seq<Seq<char>>
    decreases records.len(),
{
    if records.len() == 0 {
        Seq::empty()
    } else {
        let rest = removal_names(records.drop_last(), rows, excl, swaps);
        if should_remove(records.last(), rows, excl, swaps) {
            rest.push(records.last().name@)
        } else {
            rest
        }
    }
}

/// A link that a tick should create: an interface name and its chosen
/// source address.
#[derive(Debug)]
pub struct PlannedLink {
    pub name: String,
    pub ip: Ipv4Octets,
}

/// What one poller tick should do to the link table.
#[derive(Debug)]
pub struct ReconcilePlan {
    pub remove: Vec<String>,
    pub add: Vec<PlannedLink>,
}

/// Some planned addition carries this name.
pub open spec fn planned_has(add: Seq<PlannedLink>, name: Seq<char>) -> bool {
    exists|k: int| 0 <= k < add.len() && add[k].name@ == name
}

/// The name stays tabled through this tick: a record holds it and that
/// record is not due for eviction.
pub open spec fn kept_in_table(
    records: Seq<LinkRecord>,
    name: Seq<char>,
    rows: Seq<IfaceRow>,
    excl: Seq<String>,
    swaps: ExclusionSwaps,
) -> bool {
    &&& record_with_name(records, name)
    &&& !should_remove(
        records[choose|k: int| 0 <= k < records.len() && records[k].name@ == name],
        rows,
        excl,
        swaps,
    )
}

/// An enumerated name qualifies for addition this tick: not effectively
/// excluded, a usable source address exists, and it is not staying tabled.
pub open spec fn qualifies(
    name: Seq<char>,
    records: Seq<LinkRecord>,
    rows: Seq<IfaceRow>,
    excl: Seq<String>,
    swaps: ExclusionSwaps,
) -> bool {
    &&& !effectively_excluded(name, excl, swaps)
    &&& address_for(name, rows) is Some
    &&& !kept_in_table(records, name, rows, excl, swaps)
}

/// Whether one record is due for eviction this tick.
fn record_should_remove(
    rec: &LinkRecord,
    rows: &Vec<IfaceRow>,
    excluded: &Vec<String>,
    swaps: &ExclusionSwaps,
) -> (r: bool)
    ensures
        r == should_remove(*rec, rows@, excluded@, *swaps),
{
    let nm = rec.name.as_str();
    if !interface_exists(nm, rows) {
        return true;
    }
    if is_excluded(nm, excluded, swaps) {
        return true;
    }
    match get_address_by_interface(nm, rows) {
        Some(ip) => ip != rec.source_address,
        None => false,
    }
}

/// Whether the name stays tabled through this tick.
fn stays_tabled(
    records: &Vec<LinkRecord>,
    name: &str,
    rows: &Vec<IfaceRow>,
    excluded: &Vec<String>,
    swaps: &ExclusionSwaps,
) -> (r: bool)
    requires
        forall|i: int, j: int|
            0 <= i < j < records@.len() ==> (#[trigger] records@[i]).name@ != (
            #[trigger] records@[j]).name@,
    ensures
        r == kept_in_table(records@, name@, rows@, excluded@, *swaps),
{
    let n = records.len();
    let mut i: usize = 0;
    while i < n
        invariant
            n == records@.len(),
            i <= n,
            forall|k: int| 0 <= k < i ==> records@[k].name@ != name@,
            forall|x: int, y: int|
                0 <= x < y < records@.len() ==> (#[trigger] records@[x]).name@ != (
                #[trigger] records@[y]).name@,
        decreases n - i,
    {
        let sa = records[i].name.clone();
        let sb = name.to_owned();
        if sa == sb {
            let due = record_should_remove(&records[i], rows, excluded, swaps);
            proof {
                let k = choose|k: int| 0 <= k < records@.len() && records@[k].name@ == name@;
                assert(k == i as int);
            }
            return !due;
        }
        i = i + 1;
    }
    false
}

/// Whether the plan already schedules an addition under this name.
fn planned_contains(add: &Vec<PlannedLink>, name: &str) -> (r: bool)
    ensures
        r == planned_has(add@, name@),
{
    let n = add.len();
    let mut i: usize = 0;
    while i < n
        invariant
            n == add@.len(),
            i <= n,
            forall|k: int| 0 <= k < i ==> add@[k].name@ != name@,
        decreases n - i,
    {
        let sa = add[i].name.clone();
        let sb = name.to_owned();
        if sa == sb {
            return true;
        }
        i = i + 1;
    }
    false
}

/// Computes one tick's plan. Evictions: every tabled link whose interface
/// disappeared, is effectively excluded, or changed address. Additions:
/// one per qualifying enumerated name — never an excluded one, always
/// with its chosen source address, each name at most once.
pub fn plan_reconcile(
    table: &LinkTable,
    rows: &Vec<IfaceRow>,
    excluded: &Vec<String>,
    swaps: &ExclusionSwaps,
) -> (r: ReconcilePlan)
    requires
        table.wf(),
    ensures
        r.remove@.map(|i: int, s: String| s@) == removal_names(
            table.records@,
            rows@,
            excluded@,
            *swaps,
        ),
        forall|k: int|
            0 <= k < r.add@.len() ==> {
                let p = #[trigger] r.add@[k];
                &&& !effectively_excluded(p.name@, excluded@, *swaps)
                &&& address_for(p.name@, rows@) == Some(p.ip)
                &&& !kept_in_table(table.records@, p.name@, rows@, excluded@, *swaps)
            },
        forall|k1: int, k2: int|
            0 <= k1 < k2 < r.add@.len() ==> (#[trigger] r.add@[k1]).name@ != (
            #[trigger] r.add@[k2]).name@,
        forall|i: int|
            0 <= i < rows@.len() && qualifies(
                (#[trigger] rows@[i]).name@,
                table.records@,
                rows@,
                excluded@,
                *swaps,
            ) ==> planned_has(r.add@, rows@[i].name@),
{
    let mut remove: Vec<String> = Vec::new();
    let n = table.records.len();
    let mut i: usize = 0;
    while i < n
        invariant
            n == table.records@.len(),
            i <= n,
            remove@.map(|k: int, s: String| s@) == removal_names(
                table.records@.subrange(0, i as int),
                rows@,
                excluded@,
                *swaps,
            ),
        decreases n - i,
    {
        proof {
            assert(table.records@.subrange(0, i as int + 1).drop_last() =~= table
                .records@.subrange(0, i as int));
            assert(table.records@.subrange(0, i as int + 1).last() == table.records@[i as int]);
        }
        let ghost pre = remove@;
        if record_should_remove(&table.records[i], rows, excluded, swaps) {
            remove.push(table.records[i].name.clone());
            proof {
                assert(remove@.map(|k: int, s: String| s@) =~= pre.map(
                    |k: int, s: String| s@,
                ).push(table.records@[i as int].name@));
            }
        }
        i = i + 1;
    }
    proof {
        assert(table.records@.subrange(0, n as int) =~= table.records@);
    }

    let mut add: Vec<PlannedLink> = Vec::new();
    let m = rows.len();
    let mut i: usize = 0;
    while i < m
        invariant
            m == rows@.len(),
            i <= m,
            table.wf(),
            forall|k: int|
                0 <= k < add@.len() ==> {
                    let p = #[trigger] add@[k];
                    &&& !effectively_excluded(p.name@, excluded@, *swaps)
                    &&& address_for(p.name@, rows@) == Some(p.ip)
                    &&& !kept_in_table(table.records@, p.name@, rows@, excluded@, *swaps)
                },
            forall|k1: int, k2: int|
                0 <= k1 < k2 < add@.len() ==> (#[trigger] add@[k1]).name@ != (
                #[trigger] add@[k2]).name@,
            forall|r0: int|
                0 <= r0 < i && qualifies(
                    (#[trigger] rows@[r0]).name@,
                    table.records@,
                    rows@,
                    excluded@,
                    *swaps,
                ) ==> planned_has(add@, rows@[r0].name@),
        decreases m - i,
    {
        let nm = rows[i].name.clone();
        let ghost pre = add@;
        if !is_excluded(nm.as_str(), excluded, swaps) && !stays_tabled(
            &table.records,
            nm.as_str(),
            rows,
            excluded,
            swaps,
        ) && !planned_contains(&add, nm.as_str()) {
            match get_address_by_interface(nm.as_str(), rows) {
                Some(ip) => {
                    add.push(PlannedLink { name: nm, ip });
                    proof {
                        assert(add@.last().name@ == rows@[i as int].name@);
                        assert forall|r0: int|
                            0 <= r0 < i + 1 && qualifies(
                                (#[trigger] rows@[r0]).name@,
                                table.records@,
                                rows@,
                                excluded@,
                                *swaps,
                            ) implies planned_has(add@, rows@[r0].name@) by {
                            if r0 < i {
                                if planned_has(pre, rows@[r0].name@) {
                                    let k = choose|k: int|
                                        0 <= k < pre.len() && pre[k].name@ == rows@[r0].name@;
                                    assert(add@[k].name@ == rows@[r0].name@);
                                }
                            } else {
                                assert(add@[add@.len() - 1].name@ == rows@[r0].name@);
                            }
                        }
                    }
                },
                None => {
                    proof {
                        assert(!qualifies(
                            rows@[i as int].name@,
                            table.records@,
                            rows@,
                            excluded@,
                            *swaps,
                        ));
                    }
                },
            }
        } else {
            proof {
                if planned_has(add@, nm@) {
                    assert(qualifies(
                        rows@[i as int].name@,
                        table.records@,
                        rows@,
                        excluded@,
                        *swaps,
                    ) ==> planned_has(add@, rows@[i as int].name@));
                }
            }
        }
        i = i + 1;
    }
    ReconcilePlan { remove, add }
}

/// Exclusion safety of a tick's plan — the poller-side half of "no
/// datagram is ever delivered on an excluded interface": every tabled
/// link that is effectively excluded is evicted, and no planned addition
/// is effectively excluded. Since downstream targets are drawn from the
/// table, an excluded interface never carries a datagram past the tick
/// that excludes it.
pub proof fn lemma_plan_respects_exclusion(
    table: LinkTable,
    rows: Seq<IfaceRow>,
    excluded: Seq<String>,
    swaps: ExclusionSwaps,
    plan_remove: Seq<Seq<char>>,
    plan_add: Seq<PlannedLink>,
)
    requires
        plan_remove == removal_names(table.records@, rows, excluded, swaps),
        forall|k: int|
            0 <= k < plan_add.len() ==> !effectively_excluded(
                (#[trigger] plan_add[k]).name@,
                excluded,
                swaps,
            ),
    ensures
        forall|i: int|
            0 <= i < table.records@.len() && effectively_excluded(
                (#[trigger] table.records@[i]).name@,
                excluded,
                swaps,
            ) ==> plan_remove.contains(table.records@[i].name@),
        forall|k: int|
            0 <= k < plan_add.len() ==> !effectively_excluded(
                (#[trigger] plan_add[k]).name@,
                excluded,
                swaps,
            ),
{
    lemma_removals_cover_excluded(table.records@, rows, excluded, swaps);
}

/// Every excluded tabled name appears among the eviction names.
proof fn lemma_removals_cover_excluded(
    records: Seq<LinkRecord>,
    rows: Seq<IfaceRow>,
    excluded: Seq<String>,
    swaps: ExclusionSwaps,
)
    ensures
        forall|i: int|
            0 <= i < records.len() && effectively_excluded(
                (#[trigger] records[i]).name@,
                excluded,
                swaps,
            ) ==> removal_names(records, rows, excluded, swaps).contains(records[i].name@),
    decreases records.len(),
{
    if records.len() > 0 {
        let prefix = records.drop_last();
        lemma_removals_cover_excluded(prefix, rows, excluded, swaps);
        let all = removal_names(records, rows, excluded, swaps);
        let rest = removal_names(prefix, rows, excluded, swaps);
        assert forall|i: int|
            0 <= i < records.len() && effectively_excluded(
                (#[trigger] records[i]).name@,
                excluded,
                swaps,
            ) implies all.contains(records[i].name@) by {
            if i < records.len() - 1 {
                assert(prefix[i] == records[i]);
                assert(rest.contains(records[i].name@));
                let k = choose|k: int| 0 <= k < rest.len() && rest[k] == records[i].name@;
                assert(all[k] == records[i].name@);
            } else {
                assert(should_remove(records[i], rows, excluded, swaps));
                assert(all.last() == records[i].name@);
            }
        }
    }
}

} // verus!
