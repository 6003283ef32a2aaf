//! The management surface's view of the client: one row per enumerated
//! interface with its status, addresses and time since the last received
//! datagram. Serving this over HTTP, and JSON itself, live outside the
//! library.

use vstd::prelude::*;
use crate::config::{dst_for, get_dst_by_ifname, ClientConfig};
use crate::exclusion::{effectively_excluded, is_excluded, ExclusionSwaps};
use crate::interfaces::{address_for, get_address_by_interface, IfaceRow, Ipv4Octets};
use crate::linktable::{record_with_name, LinkRecord};

verus! {

/// An interface's standing: excluded from use, actively tabled as a link,
/// or merely present.
#[derive(Debug, Clone, Copy, PartialEq, Eq, Structural)]
pub enum LinkStatus {
    Active,
    Idle,
    Excluded,
}

/// One row of the management listing.
#[derive(Debug)]
pub struct InterfaceStatus {
    pub name: String,
    pub status: LinkStatus,
    pub sender_address: Option<Ipv4Octets>,
    pub dst_address: String,
    pub last_seconds: Option<u64>,
}

/// The standing of a named interface: exclusion wins, then membership in
/// the link table, then mere presence.
pub open spec fn status_of(
    name: Seq<char>,
    records: Seq<LinkRecord>,
    excl: Seq<String>,
    swaps: ExclusionSwaps,
) -> LinkStatus {
    if effectively_excluded(name, excl, swaps) {
        LinkStatus::Excluded
    } else if record_with_name(records, name) {
        LinkStatus::Active
    } else {
        LinkStatus::Idle
    }
}

/// Whole seconds since a link last received, given the current monotonic
/// time; a timestamp from the future counts as zero.
pub open spec fn seconds_since(now_micros: u64, last_micros: u64) -> u64 {
    if now_micros >= last_micros {
        ((now_micros - last_micros) / 1_000_000) as u64
    } else {
        0
    }
}

/// Some listing row carries this name.
pub open spec fn listed(rows: Seq<InterfaceStatus>, name: Seq<char>) -> bool {
    exists|k: int| 0 <= k < rows.len() && rows[k].name@ == name
}

/// A listing row is correct for its name.
pub open spec fn row_correct(
    row: InterfaceStatus,
    records: Seq<LinkRecord>,
    rows: Seq<IfaceRow>,
    cfg: ClientConfig,
    swaps: ExclusionSwaps,
    now_micros: u64,
) -> bool {
    &&& row.status == status_of(row.name@, records, cfg.excluded_interfaces@, swaps)
    &&& row.sender_address == address_for(row.name@, rows)
    &&& row.dst_address@ == dst_for(row.name@, cfg.dst_overrides@, cfg.dst_addr@)
    &&& if row.status == LinkStatus::Active {
        record_with_name(records, row.name@) && row.last_seconds == Some(
            seconds_since(
                now_micros,
                records[choose|i: int|
                    0 <= i < records.len() && records[i].name@ == row.name@].last_receive_micros,
            ),
        )
    } else {
        row.last_seconds is None
    }
}

/// Builds the management listing: one row per enumerated interface name,
/// each name once, with its standing, chosen source address, resolved
/// destination, and — for active links — seconds since the last receive.
pub fn build_interface_list(
    ifaces: &Vec<IfaceRow>,
    records: &Vec<LinkRecord>,
    cfg: &ClientConfig,
    swaps: &ExclusionSwaps,
    now_micros: u64,
) -> (r: Vec<InterfaceStatus>)
    requires
        forall|i: int, j: int|
            0 <= i < j < records@.len() ==> (#[trigger] records@[i]).name@ != (
            #[trigger] records@[j]).name@,
    ensures
        forall|k: int|
            0 <= k < r@.len() ==> row_correct(
                #[trigger] r@[k],
                records@,
                ifaces@,
                *cfg,
                *swaps,
                now_micros,
            ),
        forall|k1: int, k2: int|
            0 <= k1 < k2 < r@.len() ==> (#[trigger] r@[k1]).name@ != (#[trigger] r@[k2]).name@,
        forall|i: int| 0 <= i < ifaces@.len() ==> listed(r@, (#[trigger] ifaces@[i]).name@),
{
    let mut out: Vec<InterfaceStatus> = Vec::new();
    let n = ifaces.len();
    let mut i: usize = 0;
    while i < n
        invariant
            n == ifaces@.len(),
            i <= n,
            forall|x: int, y: int|
                0 <= x < y < records@.len() ==> (#[trigger] records@[x]).name@ != (
                #[trigger] records@[y]).name@,
            forall|k: int|
                0 <= k < out@.len() ==> row_correct(
                    #[trigger] out@[k],
                    records@,
                    ifaces@,
                    *cfg,
                    *swaps,
                    now_micros,
                ),
            forall|k1: int, k2: int|
                0 <= k1 < k2 < out@.len() ==> (#[trigger] out@[k1]).name@ != (
                #[trigger] out@[k2]).name@,
            forall|r0: int| 0 <= r0 < i ==> listed(out@, (#[trigger] ifaces@[r0]).name@),
        decreases n - i,
    {
        let nm = ifaces[i].name.clone();
        let ghost pre = out@;
        if !list_contains(&out, nm.as_str()) {
            let sender_address = get_address_by_interface(nm.as_str(), ifaces);
            let dst_address = get_dst_by_ifname(nm.as_str(), cfg);
            let mut status = LinkStatus::Idle;
            let mut last_seconds: Option<u64> = None;
            if is_excluded(nm.as_str(), &cfg.excluded_interfaces, swaps) {
                status = LinkStatus::Excluded;
            } else {
                match find_record(records, nm.as_str()) {
                    Some(j) => {
                        status = LinkStatus::Active;
                        let last = records[j].last_receive_micros;
                        let elapsed = if now_micros >= last {
                            (now_micros - last) / 1_000_000
                        } else {
                            0
                        };
                        last_seconds = Some(elapsed);
                        proof {
                            let k = choose|k: int|
                                0 <= k < records@.len() && records@[k].name@ == nm@;
                            assert(k == j as int);
                        }
                    },
                    None => {},
                }
            }
            out.push(
                InterfaceStatus { name: nm, status, sender_address, dst_address, last_seconds },
            );
            proof {
                assert(out@.last().name@ == ifaces@[i as int].name@);
                assert forall|r0: int| 0 <= r0 < i + 1 implies listed(
                    out@,
                    (#[trigger] ifaces@[r0]).name@,
                ) by {
                    if r0 < i {
                        let k = choose|k: int|
                            0 <= k < pre.len() && pre[k].name@ == ifaces@[r0].name@;
                        assert(out@[k].name@ == ifaces@[r0].name@);
                    } else {
                        assert(out@[out@.len() - 1].name@ == ifaces@[r0].name@);
                    }
                }
            }
        } else {
            proof {
                assert(listed(out@, ifaces@[i as int].name@));
            }
        }
        i = i + 1;
    }
    out
}

/// Whether the listing already holds a row under this name.
fn list_contains(rows: &Vec<InterfaceStatus>, name: &str) -> (r: bool)
    ensures
        r == listed(rows@, name@),
{
    let n = rows.len();
    let mut i: usize = 0;
    while i < n
        invariant
            n == rows@.len(),
            i <= n,
            forall|k: int| 0 <= k < i ==> rows@[k].name@ != name@,
        decreases n - i,
    {
        let sa = rows[i].name.clone();
        let sb = name.to_owned();
        if sa == sb {
            return true;
        }
        i = i + 1;
    }
    false
}

/// The position of the record under a name, if any.
fn find_record(records: &Vec<LinkRecord>, name: &str) -> (r: Option<usize>)
    ensures
        match r {
            Some(j) => j < records@.len() && records@[j as int].name@ == name@,
            None => !record_with_name(records@, name@),
        },
{
    let n = records.len();
    let mut i: usize = 0;
    while i < n
        invariant
            n == records@.len(),
            i <= n,
            forall|k: int| 0 <= k < i ==> records@[k].name@ != name@,
        decreases n - i,
    {
        let sa = records[i].name.clone();
        let sb = name.to_owned();
        if sa == sb {
            return Some(i);
        }
        i = i + 1;
    }
    None
}

} // verus!
