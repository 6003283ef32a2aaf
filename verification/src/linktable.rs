//! The link table: the canonical set of currently usable outbound paths,
//! keyed by interface name. One writer (the poller) mutates it; readers
//! work on snapshots, which are deep copies — a snapshot is never touched
//! by a later write.

use vstd::prelude::*;
use crate::interfaces::Ipv4Octets;
use crate::scheduler::{ids_distinct, LinkState, PathId};

verus! {

/// One usable outbound path.
#[derive(Debug)]
pub struct LinkRecord {
    pub name: String,
    pub source_address: Ipv4Octets,
    pub destination_address: String,
    /// Monotonic timestamp of the last datagram received on this link, in
    /// microseconds; timestamps are supplied by the caller.
    pub last_receive_micros: u64,
    pub id: PathId,
}

/// A record is in the list under this name.
pub open spec fn record_with_name(records: Seq<LinkRecord>, name: Seq<char>) -> bool {
    exists|i: int| 0 <= i < records.len() && records[i].name@ == name
}

/// The canonical set of links, keyed by interface name.
pub struct LinkTable {
    pub records: Vec<LinkRecord>,
    /// The next path id to hand out; ids are never reused.
    pub next_id: u32,
}

impl LinkTable {
    /// Validity: one record per name, one record per path id, and every
    /// id below the next to be handed out.
    pub open spec fn wf(self) -> bool {
        &&& forall|i: int, j: int|
            0 <= i < j < self.records@.len() ==> (#[trigger] self.records@[i]).name@ != (
            #[trigger] self.records@[j]).name@
        &&& forall|i: int, j: int|
            0 <= i < j < self.records@.len() ==> (#[trigger] self.records@[i]).id != (
            #[trigger] self.records@[j]).id
        &&& forall|i: int|
            0 <= i < self.records@.len() ==> (#[trigger] self.records@[i]).id.0 < self.next_id
    }

    pub fn new() -> (r: Self)
        ensures
            r.wf(),
            r.records@.len() == 0,
            r.next_id == 0,
    {
        LinkTable { records: Vec::new(), next_id: 0 }
    }

    /// The position of the record under a name, if any.
    fn find_pos(&self, name: &str) -> (r: Option<usize>)
        ensures
            match r {
                Some(j) => j < self.records@.len() && self.records@[j as int].name@ == name@,
                None => !record_with_name(self.records@, name@),
            },
    {
        let n = self.records.len();
        let mut i: usize = 0;
        while i < n
            invariant
                n == self.records@.len(),
                i <= n,
                forall|k: int| 0 <= k < i ==> self.records@[k].name@ != name@,
            decreases n - i,
        {
            let sa = self.records[i].name.clone();
            let sb = name.to_owned();
            if sa == sb {
                return Some(i);
            }
            i = i + 1;
        }
        None
    }

    /// Inserts a link under a fresh path id, or refreshes the destination
    /// of an existing record with the same source address. Returns false —
    /// and changes nothing — when a record under this name holds a
    /// different source address: the caller must remove it first.
    pub fn upsert(
        &mut self,
        name: &str,
        source_address: Ipv4Octets,
        destination_address: String,
        now_micros: u64,
    ) -> (ok: bool)
        requires
            old(self).wf(),
            old(self).next_id < u32::MAX,
        ensures
            final(self).wf(),
            ({
                let recs = old(self).records@;
                if record_with_name(recs, name@) {
                    let k = choose|k: int| 0 <= k < recs.len() && recs[k].name@ == name@;
                    if recs[k].source_address == source_address {
                        &&& ok
                        &&& final(self).records@ == recs.update(
                            k,
                            LinkRecord {
                                destination_address: destination_address,
                                ..recs[k]
                            },
                        )
                        &&& final(self).next_id == old(self).next_id
                    } else {
                        &&& !ok
                        &&& *final(self) == *old(self)
                    }
                } else {
                    &&& ok
                    &&& final(self).records@.len() == recs.len() + 1
                    &&& final(self).records@.subrange(0, recs.len() as int) == recs
                    &&& final(self).records@.last().name@ == name@
                    &&& final(self).records@.last().source_address == source_address
                    &&& final(self).records@.last().destination_address == destination_address
                    &&& final(self).records@.last().last_receive_micros == now_micros
                    &&& final(self).records@.last().id == PathId(old(self).next_id)
                    &&& final(self).next_id == old(self).next_id + 1
                }
            }),
    {
        match self.find_pos(name) {
            Some(j) => {
                proof {
                    let recs = self.records@;
                    let k = choose|k: int| 0 <= k < recs.len() && recs[k].name@ == name@;
                    assert(k == j as int);
                }
                if self.records[j].source_address == source_address {
                    self.records[j].destination_address = destination_address;
                    true
                } else {
                    false
                }
            },
            None => {
                let owned = name.to_owned();
                let id = PathId(self.next_id);
                self.next_id = self.next_id + 1;
                let ghost pre = self.records@;
                self.records.push(
                    LinkRecord {
                        name: owned,
                        source_address,
                        destination_address,
                        last_receive_micros: now_micros,
                        id,
                    },
                );
                proof {
                    assert forall|x: int, y: int|
                        0 <= x < y < self.records@.len() implies (#[trigger] self.records@[x]).id
                        != (#[trigger] self.records@[y]).id && (#[trigger] self.records@[x]).name@
                        != (#[trigger] self.records@[y]).name@ by {
                        if y == self.records@.len() - 1 {
                            assert(self.records@[x] == pre[x]);
                        } else {
                            assert(self.records@[x] == pre[x] && self.records@[y] == pre[y]);
                        }
                    }
                }
                true
            },
        }
    }

    /// Drops the record under a name; reports whether one was there.
    pub fn remove(&mut self, name: &str) -> (removed: bool)
        requires
            old(self).wf(),
        ensures
            final(self).wf(),
            final(self).next_id == old(self).next_id,
            ({
                let recs = old(self).records@;
                if record_with_name(recs, name@) {
                    let k = choose|k: int| 0 <= k < recs.len() && recs[k].name@ == name@;
                    removed && final(self).records@ == recs.remove(k)
                } else {
                    !removed && final(self).records@ == recs
                }
            }),
    {
        match self.find_pos(name) {
            Some(j) => {
                proof {
                    let recs = self.records@;
                    let k = choose|k: int| 0 <= k < recs.len() && recs[k].name@ == name@;
                    assert(k == j as int);
                }
                let ghost pre = self.records@;
                self.records.remove(j);
                proof {
                    assert forall|x: int, y: int|
                        0 <= x < y < self.records@.len() implies (#[trigger] self.records@[x]).id
                        != (#[trigger] self.records@[y]).id && (#[trigger] self.records@[x]).name@
                        != (#[trigger] self.records@[y]).name@ by {
                        let xx = if x < j { x } else { x + 1 };
                        let yy = if y < j { y } else { y + 1 };
                        assert(self.records@[x] == pre[xx]);
                        assert(self.records@[y] == pre[yy]);
                    }
                }
                true
            },
            None => false,
        }
    }

    /// Refreshes a link's last-receive timestamp; reports whether the
    /// link is tabled.
    pub fn touch(&mut self, name: &str, now_micros: u64) -> (touched: bool)
        requires
            old(self).wf(),
        ensures
            final(self).wf(),
            final(self).next_id == old(self).next_id,
            ({
                let recs = old(self).records@;
                if record_with_name(recs, name@) {
                    let k = choose|k: int| 0 <= k < recs.len() && recs[k].name@ == name@;
                    touched && final(self).records@ == recs.update(
                        k,
                        LinkRecord { last_receive_micros: now_micros, ..recs[k] },
                    )
                } else {
                    !touched && final(self).records@ == recs
                }
            }),
    {
        match self.find_pos(name) {
            Some(j) => {
                proof {
                    let recs = self.records@;
                    let k = choose|k: int| 0 <= k < recs.len() && recs[k].name@ == name@;
                    assert(k == j as int);
                }
                self.records[j].last_receive_micros = now_micros;
                true
            },
            None => false,
        }
    }

    /// A consistent copy of the table's records. The copy shares nothing
    /// with the table: later writes to the table leave it untouched.
    pub fn snapshot(&self) -> (r: Vec<LinkRecord>)
        ensures
            r@ == self.records@,
    {
        let n = self.records.len();
        let mut out: Vec<LinkRecord> = Vec::new();
        let mut i: usize = 0;
        while i < n
            invariant
                n == self.records@.len(),
                i <= n,
                out@ == self.records@.subrange(0, i as int),
            decreases n - i,
        {
            let rec = &self.records[i];
            out.push(
                LinkRecord {
                    name: rec.name.clone(),
                    source_address: rec.source_address,
                    destination_address: rec.destination_address.clone(),
                    last_receive_micros: rec.last_receive_micros,
                    id: rec.id,
                },
            );
            proof {
                assert(out@ =~= self.records@.subrange(0, i as int + 1));
            }
            i = i + 1;
        }
        proof {
            assert(self.records@.subrange(0, n as int) =~= self.records@);
        }
        out
    }
}

/// Scheduling state for a snapshot's links, one entry per record in
/// snapshot order: up, the given weight, token bucketing disabled, and no
/// quality figures yet.
pub fn link_states_for(records: &Vec<LinkRecord>, weights: &Vec<u64>) -> (r: Vec<LinkState>)
    requires
        weights@.len() == records@.len(),
    ensures
        r@.len() == records@.len(),
        forall|i: int|
            0 <= i < records@.len() ==> #[trigger] r@[i] == (LinkState {
                id: records@[i].id,
                up: true,
                weight_milli: weights@[i],
                rtt_micros: 0,
                loss_per_million: 0,
                send_bps: 0,
                inflight_bytes: 0,
                tokens: usize::MAX,
            }),
        (forall|i: int, j: int|
            0 <= i < j < records@.len() ==> (#[trigger] records@[i]).id != (
            #[trigger] records@[j]).id) ==> ids_distinct(r@),
{
    let n = records.len();
    let mut out: Vec<LinkState> = Vec::new();
    let mut i: usize = 0;
    while i < n
        invariant
            n == records@.len(),
            n == weights@.len(),
            i <= n,
            out@.len() == i as int,
            forall|k: int|
                0 <= k < i ==> #[trigger] out@[k] == (LinkState {
                    id: records@[k].id,
                    up: true,
                    weight_milli: weights@[k],
                    rtt_micros: 0,
                    loss_per_million: 0,
                    send_bps: 0,
                    inflight_bytes: 0,
                    tokens: usize::MAX,
                }),
        decreases n - i,
    {
        let rec = &records[i];
        out.push(
            LinkState {
                id: rec.id,
                up: true,
                weight_milli: weights[i],
                rtt_micros: 0,
                loss_per_million: 0,
                send_bps: 0,
                inflight_bytes: 0,
                tokens: usize::MAX,
            },
        );
        i = i + 1;
    }
    out
}

} // verus!
