//! Datapath decisions of the two ingress directions. Downstream: a
//! snapshot of the link table is turned into scheduling state, the
//! scheduler picks path ids, and the ids resolve back to interface names
//! and destinations — the sends themselves happen outside the library.
//! Upstream: a per-link datagram is accepted only from the link's
//! configured destination.

use vstd::prelude::*;
use crate::exclusion::effectively_excluded;
use crate::exclusion::ExclusionSwaps;
use crate::linktable::{record_with_name, LinkRecord};
use crate::scheduler::PathId;

verus! {

/// The send targets for a list of chosen path ids, in choice order: the
/// tabled name and destination of each id; an id no record holds is
/// dropped.
pub open spec fn targets_spec(records: Seq<LinkRecord>, ids: Seq<PathId>) -> Seq<
    (Seq<char>, Seq<char>),
>
    decreases ids.len(),
{
    if ids.len() == 0 {
        Seq::empty()
    } else {
        let rest = targets_spec(records, ids.drop_last());
        let id = ids.last();
        if exists|i: int| 0 <= i < records.len() && records[i].id == id {
            let i = choose|i: int| 0 <= i < records.len() && records[i].id == id;
            rest.push((records[i].name@, records[i].destination_address@))
        } else {
            rest
        }
    }
}

/// Resolves chosen path ids to `(interface name, destination address)`
/// pairs against a table snapshot.
pub fn targets_for_ids(records: &Vec<LinkRecord>, ids: &Vec<PathId>) -> (r: Vec<(String, String)>)
    requires
        forall|i: int, j: int|
            0 <= i < j < records@.len() ==> (#[trigger] records@[i]).id != (
            #[trigger] records@[j]).id,
    ensures
        r@.map(|k: int, t: (String, String)| (t.0@, t.1@)) == targets_spec(records@, ids@),
{
    let mut out: Vec<(String, String)> = Vec::new();
    let n = ids.len();
    let mut i: usize = 0;
    while i < n
        invariant
            n == ids@.len(),
            i <= n,
            forall|x: int, y: int|
                0 <= x < y < records@.len() ==> (#[trigger] records@[x]).id != (
                #[trigger] records@[y]).id,
            out@.map(|k: int, t: (String, String)| (t.0@, t.1@)) == targets_spec(
                records@,
                ids@.subrange(0, i as int),
            ),
        decreases n - i,
    {
        proof {
            assert(ids@.subrange(0, i as int + 1).drop_last() =~= ids@.subrange(0, i as int));
            assert(ids@.subrange(0, i as int + 1).last() == ids@[i as int]);
        }
        let id = ids[i];
        let ghost pre = out@;
        let m = records.len();
        let mut j: usize = 0;
        let mut found: Option<usize> = None;
        while j < m
            invariant
                m == records@.len(),
                j <= m,
                match found {
                    Some(f) => f < m && records@[f as int].id == id,
                    None => forall|k: int| 0 <= k < j ==> records@[k].id != id,
                },
            decreases m - j,
        {
            match found {
                None => {
                    if records[j].id == id {
                        found = Some(j);
                    }
                },
                Some(_) => {},
            }
            j = j + 1;
        }
        match found {
            Some(f) => {
                proof {
                    let k = choose|k: int| 0 <= k < records@.len() && records@[k].id == id;
                    assert(k == f as int);
                }
                out.push(
                    (records[f].name.clone(), records[f].destination_address.clone()),
                );
                proof {
                    assert(out@.map(|k: int, t: (String, String)| (t.0@, t.1@)) =~= pre.map(
                        |k: int, t: (String, String)| (t.0@, t.1@),
                    ).push((records@[f as int].name@, records@[f as int].destination_address@)));
                }
            },
            None => {
                proof {
                    assert(forall|k: int| 0 <= k < records@.len() ==> records@[k].id != id);
                }
            },
        }
        i = i + 1;
    }
    proof {
        assert(ids@.subrange(0, n as int) =~= ids@);
    }
    out
}

/// Every resolved target names a tabled link.
pub proof fn lemma_targets_are_tabled(records: Seq<LinkRecord>, ids: Seq<PathId>)
    ensures
        forall|k: int|
            0 <= k < targets_spec(records, ids).len() ==> record_with_name(
                records,
                (#[trigger] targets_spec(records, ids)[k]).0,
            ),
    decreases ids.len(),
{
    if ids.len() > 0 {
        lemma_targets_are_tabled(records, ids.drop_last());
        let all = targets_spec(records, ids);
        let rest = targets_spec(records, ids.drop_last());
        assert forall|k: int| 0 <= k < all.len() implies record_with_name(
            records,
            (#[trigger] all[k]).0,
        ) by {
            if k < rest.len() {
                assert(all[k] == rest[k]);
                assert(record_with_name(records, rest[k].0));
            } else {
                let id = ids.last();
                let i = choose|i: int| 0 <= i < records.len() && records[i].id == id;
                assert(0 <= i < records.len() && records[i].name@ == all[k].0);
            }
        }
    }
}

/// The ingress-side half of "no datagram is ever delivered on an excluded
/// interface": when no tabled link is effectively excluded — which the
/// poller's plan guarantees after every tick — no resolved send target
/// is either.
pub proof fn lemma_no_send_on_excluded(
    records: Seq<LinkRecord>,
    ids: Seq<PathId>,
    excluded: Seq<String>,
    swaps: ExclusionSwaps,
)
    requires
        forall|i: int|
            0 <= i < records.len() ==> !effectively_excluded(
                (#[trigger] records[i]).name@,
                excluded,
                swaps,
            ),
    ensures
        forall|k: int|
            0 <= k < targets_spec(records, ids).len() ==> !effectively_excluded(
                (#[trigger] targets_spec(records, ids)[k]).0,
                excluded,
                swaps,
            ),
{
    lemma_targets_are_tabled(records, ids);
    assert forall|k: int| 0 <= k < targets_spec(records, ids).len() implies !effectively_excluded(
        (#[trigger] targets_spec(records, ids)[k]).0,
        excluded,
        swaps,
    ) by {
        assert(record_with_name(records, targets_spec(records, ids)[k].0));
        let i = choose|i: int|
            0 <= i < records.len() && records[i].name@ == targets_spec(records, ids)[k].0;
        assert(!effectively_excluded(records[i].name@, excluded, swaps));
    }
}

/// The upstream source filter: a datagram arriving on a link's socket is
/// forwarded only when its source is the link's configured destination,
/// which shuts out off-path injection.
pub fn accept_upstream(src_addr: &str, expected_dst: &str) -> (r: bool)
    ensures
        r == (src_addr@ == expected_dst@),
{
    let sa = src_addr.to_owned();
    let sb = expected_dst.to_owned();
    sa == sb
}

} // verus!
