//! Scheduling algorithms that decide which link(s) carry each outbound
//! datagram: mirror, smooth weighted round-robin, and replica-of-two weighted.
//!
//! Link quality figures are fixed-point integers throughout: weights and
//! the replica-two penalty factors are scaled by 1000 (`*_milli`),
//! round-trip times are microseconds, and loss rates are parts per
//! million.

use vstd::prelude::*;

verus! {

/// Identifier for a transmission path/link.
#[derive(Debug, Clone, Copy, PartialEq, Eq, Hash, PartialOrd, Ord, Structural)]
pub struct PathId(pub u32);

impl PathId {
    pub fn new(id: u32) -> (r: Self)
        ensures
            r == PathId(id),
    {
        PathId(id)
    }
}

/// Metadata attached to each packet. Currently empty but ready for future FEC work.
#[derive(Debug, Clone)]
pub struct PacketMeta {
    pub fec: Option<FecMeta>,
}

impl Default for PacketMeta {
    fn default() -> (r: Self)
        ensures
            r.fec is None,
    {
        PacketMeta { fec: None }
    }
}

/// Placeholder structure for forward error correction metadata.
#[derive(Debug, Clone, Copy, PartialEq, Eq, Structural)]
pub struct FecMeta {
    pub data_shards: usize,
    pub parity_shards: usize,
}

impl Default for FecMeta {
    fn default() -> (r: Self)
        ensures
            r == (FecMeta { data_shards: 0, parity_shards: 0 }),
    {
        FecMeta { data_shards: 0, parity_shards: 0 }
    }
}

/// Represents the scheduling state for a single link/path.
#[derive(Debug, Clone, Copy, PartialEq, Eq, Structural)]
pub struct LinkState {
    pub id: PathId,
    pub up: bool,
    /// Static weight, in thousandths (1000 is a weight of one).
    pub weight_milli: u64,
    /// Smoothed round-trip time, in microseconds.
    pub rtt_micros: u64,
    /// Observed loss rate, in parts per million.
    pub loss_per_million: u64,
    /// Sending rate, in bytes per second.
    pub send_bps: u64,
    /// Bytes currently in flight on this link.
    pub inflight_bytes: u64,
    /// Token bucket: bytes still allowed this scheduling window.
    pub tokens: usize,
}

impl LinkState {
    pub fn new(id: PathId) -> (r: Self)
        ensures
            r.id == id,
            r.up,
            r.weight_milli == 1000,
            r.rtt_micros == 0,
            r.loss_per_million == 0,
            r.send_bps == 0,
            r.inflight_bytes == 0,
            r.tokens == usize::MAX,
    {
        LinkState {
            id,
            up: true,
            weight_milli: 1000,
            rtt_micros: 0,
            loss_per_million: 0,
            send_bps: 0,
            inflight_bytes: 0,
            tokens: usize::MAX,
        }
    }
}

/// Counters shared by the schedulers; a fallback's counters accumulate into
/// the outer scheduler's.
#[derive(Debug, Clone, Copy, PartialEq, Eq, Structural)]
pub struct SchedulerMetrics {
    pub replica2_primary: u64,
    pub replica2_secondary: u64,
    pub replica2_fallbacks: u64,
    pub no_token_skips: u64,
}

impl Default for SchedulerMetrics {
    fn default() -> (r: Self)
        ensures
            r == SchedulerMetrics::zero(),
    {
        SchedulerMetrics {
            replica2_primary: 0,
            replica2_secondary: 0,
            replica2_fallbacks: 0,
            no_token_skips: 0,
        }
    }
}

impl SchedulerMetrics {
    /// The all-zero counters, the state every scheduler starts from.
    pub open spec fn zero() -> SchedulerMetrics {
        SchedulerMetrics {
            replica2_primary: 0,
            replica2_secondary: 0,
            replica2_fallbacks: 0,
            no_token_skips: 0,
        }
    }

    pub fn accumulate(&mut self, other: SchedulerMetrics)
        requires
            old(self).replica2_primary + other.replica2_primary <= u64::MAX,
            old(self).replica2_secondary + other.replica2_secondary <= u64::MAX,
            old(self).replica2_fallbacks + other.replica2_fallbacks <= u64::MAX,
            old(self).no_token_skips + other.no_token_skips <= u64::MAX,
        ensures
            final(self).replica2_primary == old(self).replica2_primary + other.replica2_primary,
            final(self).replica2_secondary == old(self).replica2_secondary
                + other.replica2_secondary,
            final(self).replica2_fallbacks == old(self).replica2_fallbacks
                + other.replica2_fallbacks,
            final(self).no_token_skips == old(self).no_token_skips + other.no_token_skips,
    {
        self.replica2_primary = self.replica2_primary + other.replica2_primary;
        self.replica2_secondary = self.replica2_secondary + other.replica2_secondary;
        self.replica2_fallbacks = self.replica2_fallbacks + other.replica2_fallbacks;
        self.no_token_skips = self.no_token_skips + other.no_token_skips;
    }
}

/// No two links in a scheduling slice carry the same path id; the link table
/// guarantees this and every scheduler relies on it.
pub open spec fn ids_distinct(links: Seq<LinkState>) -> bool {
    forall|i: int, j: int| 0 <= i < j < links.len() ==> links[i].id != links[j].id
}

/// A link may carry a packet of `pkt_len` bytes: it is up and its token
/// bucket still allows that many bytes.
pub open spec fn link_eligible(l: LinkState, pkt_len: usize) -> bool {
    l.up && l.tokens >= pkt_len
}

/// The link unchanged except for its token bucket, which paid for one packet.
pub open spec fn reserved(l: LinkState, pkt_len: usize) -> LinkState {
    LinkState { tokens: (l.tokens - pkt_len) as usize, ..l }
}

/// The ids of the links eligible for a packet of `pkt_len` bytes, in slice order.
pub open spec fn eligible_ids(links: Seq<LinkState>, pkt_len: usize) -> Seq<PathId>
    decreases links.len(),
{
    if links.len() == 0 {
        Seq::empty()
    } else {
        let rest = eligible_ids(links.drop_last(), pkt_len);
        if link_eligible(links.last(), pkt_len) {
            rest.push(links.last().id)
        } else {
            rest
        }
    }
}

/// The links after the mirror pass: every eligible link paid `pkt_len` tokens.
pub open spec fn mirror_reserved(links: Seq<LinkState>, pkt_len: usize) -> Seq<LinkState> {
    links.map(
        |i: int, l: LinkState|
            if link_eligible(l, pkt_len) {
                reserved(l, pkt_len)
            } else {
                l
            },
    )
}

/// Mirror scheduling: every eligible link carries a copy of the packet.
pub struct MirrorScheduler;

impl Default for MirrorScheduler {
    fn default() -> (r: Self)
        ensures
            true,
    {
        MirrorScheduler
    }
}

impl MirrorScheduler {
    /// Selects every up link whose token bucket covers the packet, reserving
    /// `pkt_len` tokens on each; all other link state is left untouched.
    pub fn select_paths(
        &mut self,
        pkt_len: usize,
        _meta: &PacketMeta,
        links: &mut Vec<LinkState>,
    ) -> (r: Vec<PathId>)
        ensures
            r@ == eligible_ids(old(links)@, pkt_len),
            final(links)@ == mirror_reserved(old(links)@, pkt_len),
    {
        let mut selected: Vec<PathId> = Vec::new();
        let n = links.len();
        let mut i: usize = 0;
        while i < n
            invariant
                n == links@.len(),
                n == old(links)@.len(),
                i <= n,
                selected@ == eligible_ids(old(links)@.subrange(0, i as int), pkt_len),
                forall|j: int|
                    0 <= j < i ==> links@[j] == mirror_reserved(old(links)@, pkt_len)[j],
                forall|j: int| i <= j < n ==> links@[j] == old(links)@[j],
            decreases n - i,
        {
            proof {
                assert(old(links)@.subrange(0, i as int + 1).drop_last() =~= old(
                    links,
                )@.subrange(0, i as int));
                assert(old(links)@.subrange(0, i as int + 1).last() == old(links)@[i as int]);
            }
            if links[i].up && links[i].tokens >= pkt_len {
                selected.push(links[i].id);
                let t = links[i].tokens;
                links[i].tokens = t - pkt_len;
            }
            i = i + 1;
        }
        proof {
            assert(old(links)@.subrange(0, n as int) =~= old(links)@);
            assert(links@ =~= mirror_reserved(old(links)@, pkt_len));
        }
        selected
    }
}

/// The mirror pass selects exactly the eligible links: an id is returned if
/// and only if some link holding it is up with enough tokens. Distinct ids
/// are needed for the "only if" direction.
pub proof fn lemma_mirror_selects_exactly_eligible(links: Seq<LinkState>, pkt_len: usize)
    requires
        ids_distinct(links),
    ensures
        forall|i: int|
            0 <= i < links.len() ==> (eligible_ids(links, pkt_len).contains(links[i].id)
                <==> link_eligible(links[i], pkt_len)),
    decreases links.len(),
{
    if links.len() > 0 {
        let prefix = links.drop_last();
        lemma_mirror_selects_exactly_eligible(prefix, pkt_len);
        lemma_eligible_ids_from_links(prefix, pkt_len);
        assert forall|i: int|
            0 <= i < links.len() implies (eligible_ids(links, pkt_len).contains(links[i].id)
            <==> link_eligible(links[i], pkt_len)) by {
            let ids = eligible_ids(links, pkt_len);
            let rest = eligible_ids(prefix, pkt_len);
            if i < links.len() - 1 {
                assert(prefix[i] == links[i]);
                if link_eligible(links[i], pkt_len) {
                    let k = choose|k: int| 0 <= k < rest.len() && rest[k] == links[i].id;
                    if link_eligible(links.last(), pkt_len) {
                        assert(ids[k] == links[i].id);
                    }
                } else {
                    if ids.contains(links[i].id) {
                        let k = choose|k: int| 0 <= k < ids.len() && ids[k] == links[i].id;
                        if link_eligible(links.last(), pkt_len) && k == ids.len() - 1 {
                            assert(links.last().id == links[i].id);
                            assert(false);
                        } else {
                            assert(rest.contains(links[i].id));
                        }
                    }
                }
            } else {
                if link_eligible(links[i], pkt_len) {
                    assert(ids.last() == links[i].id);
                } else {
                    if ids.contains(links[i].id) {
                        assert(rest.contains(links[i].id));
                        assert(false);
                    }
                }
            }
        }
    }
}

/// Some link of the slice is eligible and carries the given id.
pub open spec fn eligible_link_with(links: Seq<LinkState>, id: PathId, pkt_len: usize) -> bool {
    exists|i: int| 0 <= i < links.len() && links[i].id == id && link_eligible(links[i], pkt_len)
}

/// Every returned id belongs to some eligible link of the slice.
pub proof fn lemma_eligible_ids_from_links(links: Seq<LinkState>, pkt_len: usize)
    ensures
        forall|k: int|
            0 <= k < eligible_ids(links, pkt_len).len() ==> eligible_link_with(
                links,
                #[trigger] eligible_ids(links, pkt_len)[k],
                pkt_len,
            ),
    decreases links.len(),
{
    if links.len() > 0 {
        let prefix = links.drop_last();
        lemma_eligible_ids_from_links(prefix, pkt_len);
        assert forall|k: int|
            0 <= k < eligible_ids(links, pkt_len).len() implies eligible_link_with(
            links,
            #[trigger] eligible_ids(links, pkt_len)[k],
            pkt_len,
        ) by {
            let ids = eligible_ids(links, pkt_len);
            let rest = eligible_ids(prefix, pkt_len);
            if link_eligible(links.last(), pkt_len) && k == ids.len() - 1 {
                let w = links.len() - 1;
                assert(0 <= w < links.len() && links[w].id == ids[k] && link_eligible(
                    links[w],
                    pkt_len,
                ));
            } else {
                assert(eligible_link_with(prefix, rest[k], pkt_len));
                let i = choose|i: int|
                    0 <= i < prefix.len() && prefix[i].id == rest[k] && link_eligible(
                        prefix[i],
                        pkt_len,
                    );
                assert(0 <= i < links.len() && links[i].id == ids[k] && link_eligible(
                    links[i],
                    pkt_len,
                ));
            }
        }
    }
}

/// Largest admitted fixed-point weight (a weight of one billion). Larger
/// figures in a link's state are treated as this cap, which keeps every
/// weight total far inside the integer range.
pub const WEIGHT_MILLI_CAP: u64 = 1_000_000_000_000;

/// Addition on `i128` that clamps at the ends of the range.
pub open spec fn sat_add_i128_spec(a: int, b: int) -> int {
    if a + b > i128::MAX as int {
        i128::MAX as int
    } else if a + b < i128::MIN as int {
        i128::MIN as int
    } else {
        a + b
    }
}

pub fn sat_add_i128(a: i128, b: i128) -> (r: i128)
    ensures
        r as int == sat_add_i128_spec(a as int, b as int),
{
    match a.checked_add(b) {
        Some(v) => v,
        None => if b >= 0 {
            i128::MAX
        } else {
            i128::MIN
        },
    }
}

pub fn sat_sub_i128(a: i128, b: i128) -> (r: i128)
    ensures
        r as int == sat_add_i128_spec(a as int, -(b as int)),
{
    match a.checked_sub(b) {
        Some(v) => v,
        None => if b <= 0 {
            i128::MAX
        } else {
            i128::MIN
        },
    }
}

/// One rotation slot of the smooth weighted round-robin: a path, its static
/// weight, and the running accumulator that decides whose turn it is.
#[derive(Debug, Clone, Copy, PartialEq, Eq, Structural)]
pub struct WeightedEntry {
    pub id: PathId,
    pub weight_milli: u64,
    pub current_weight: i128,
}

/// Validity of a rotation list: one slot per path, weights within the cap.
pub open spec fn entries_wf(entries: Seq<WeightedEntry>) -> bool {
    &&& forall|i: int, j: int| 0 <= i < j < entries.len() ==> entries[i].id != entries[j].id
    &&& forall|i: int| 0 <= i < entries.len() ==> entries[i].weight_milli <= WEIGHT_MILLI_CAP
}

/// Some link of the slice is up and carries the given id.
pub open spec fn up_link_with(links: Seq<LinkState>, id: PathId) -> bool {
    exists|i: int| 0 <= i < links.len() && links[i].id == id && links[i].up
}

/// The weight a link contributes to the rotation: capped, so that totals
/// stay representable.
pub open spec fn capped_weight(w: u64) -> u64 {
    if w > WEIGHT_MILLI_CAP {
        WEIGHT_MILLI_CAP
    } else {
        w
    }
}

/// The rotation slot rebuilt for one up link: an already-listed path keeps
/// its accumulator unless its weight changed; a new or re-weighted path
/// starts the rotation from zero.
pub open spec fn rebuilt_entry(old_entries: Seq<WeightedEntry>, l: LinkState) -> WeightedEntry {
    let w = capped_weight(l.weight_milli);
    if exists|k: int| 0 <= k < old_entries.len() && old_entries[k].id == l.id {
        let k = choose|k: int| 0 <= k < old_entries.len() && old_entries[k].id == l.id;
        if old_entries[k].weight_milli == w {
            WeightedEntry { id: l.id, weight_milli: w, current_weight: old_entries[k].current_weight }
        } else {
            WeightedEntry { id: l.id, weight_milli: w, current_weight: 0 }
        }
    } else {
        WeightedEntry { id: l.id, weight_milli: w, current_weight: 0 }
    }
}

/// The rotation list rebuilt from a link slice: one slot per up link, in
/// slice order.
pub open spec fn rebuilt_entries(
    old_entries: Seq<WeightedEntry>,
    links: Seq<LinkState>,
) -> Seq<WeightedEntry>
    decreases links.len(),
{
    if links.len() == 0 {
        Seq::empty()
    } else {
        let rest = rebuilt_entries(old_entries, links.drop_last());
        if links.last().up {
            rest.push(rebuilt_entry(old_entries, links.last()))
        } else {
            rest
        }
    }
}

/// A rotation slot takes part in this round: positive weight, and its link
/// is up with enough tokens.
pub open spec fn entry_eligible(e: WeightedEntry, links: Seq<LinkState>, pkt_len: usize) -> bool {
    e.weight_milli > 0 && eligible_link_with(links, e.id, pkt_len)
}

/// The rotation list after the per-round bump: every participating slot's
/// accumulator grew by its weight.
pub open spec fn bumped_entries(
    entries: Seq<WeightedEntry>,
    links: Seq<LinkState>,
    pkt_len: usize,
) -> Seq<WeightedEntry> {
    entries.map(
        |i: int, e: WeightedEntry|
            if entry_eligible(e, links, pkt_len) {
                WeightedEntry {
                    current_weight: sat_add_i128_spec(e.current_weight as int, e.weight_milli as int) as i128,
                    ..e
                }
            } else {
                e
            },
    )
}

/// Strict preference between rotation slots: higher accumulator first, the
/// lower path id on equal accumulators.
pub open spec fn entry_better(a: WeightedEntry, b: WeightedEntry) -> bool {
    a.current_weight > b.current_weight || (a.current_weight == b.current_weight && a.id.0
        < b.id.0)
}

/// The index of the winning slot of this round: the most-preferred
/// participating slot, or `None` when no slot takes part.
pub open spec fn wrr_best(
    entries: Seq<WeightedEntry>,
    links: Seq<LinkState>,
    pkt_len: usize,
) -> Option<int>
    decreases entries.len(),
{
    if entries.len() == 0 {
        None::<int>
    } else {
        let rest = wrr_best(entries.drop_last(), links, pkt_len);
        let j = entries.len() - 1;
        if entry_eligible(entries[j], links, pkt_len) {
            match rest {
                None => Some(j),
                Some(k) => if entry_better(entries[j], entries[k]) {
                    Some(j)
                } else {
                    Some(k)
                },
            }
        } else {
            rest
        }
    }
}

/// The summed weight of the slots taking part in this round.
pub open spec fn eligible_weight_total(
    entries: Seq<WeightedEntry>,
    links: Seq<LinkState>,
    pkt_len: usize,
) -> int
    decreases entries.len(),
{
    if entries.len() == 0 {
        0
    } else {
        let rest = eligible_weight_total(entries.drop_last(), links, pkt_len);
        if entry_eligible(entries.last(), links, pkt_len) {
            rest + entries.last().weight_milli
        } else {
            rest
        }
    }
}

/// The rotation list as one round of selection leaves it: rebuilt, bumped,
/// and with the winner's accumulator set back by the round's weight total.
pub open spec fn wrr_updated_entries(
    entries0: Seq<WeightedEntry>,
    links: Seq<LinkState>,
    pkt_len: usize,
) -> Seq<WeightedEntry> {
    let reb = rebuilt_entries(entries0, links);
    let bum = bumped_entries(reb, links, pkt_len);
    match wrr_best(bum, links, pkt_len) {
        None => bum,
        Some(k) => {
            let total = eligible_weight_total(bum, links, pkt_len);
            bum.update(
                k,
                WeightedEntry {
                    current_weight: sat_add_i128_spec(bum[k].current_weight as int, -total) as i128,
                    ..bum[k]
                },
            )
        },
    }
}

/// The ids one round of weighted round-robin returns: the winner alone, or
/// nothing when no slot takes part.
pub open spec fn wrr_selected_ids(
    entries0: Seq<WeightedEntry>,
    links: Seq<LinkState>,
    pkt_len: usize,
) -> Seq<PathId> {
    let reb = rebuilt_entries(entries0, links);
    let bum = bumped_entries(reb, links, pkt_len);
    match wrr_best(bum, links, pkt_len) {
        None => Seq::empty(),
        Some(k) => seq![bum[k].id],
    }
}

/// The links as one round leaves them: the winner's link paid the packet.
pub open spec fn wrr_updated_links(
    entries0: Seq<WeightedEntry>,
    links: Seq<LinkState>,
    pkt_len: usize,
) -> Seq<LinkState> {
    let reb = rebuilt_entries(entries0, links);
    let bum = bumped_entries(reb, links, pkt_len);
    match wrr_best(bum, links, pkt_len) {
        None => links,
        Some(k) => {
            let j = choose|j: int| 0 <= j < links.len() && links[j].id == bum[k].id;
            links.update(j, reserved(links[j], pkt_len))
        },
    }
}

/// Every rebuilt slot's id belongs to some up link of the slice.
pub proof fn lemma_rebuilt_ids(old_entries: Seq<WeightedEntry>, links: Seq<LinkState>)
    ensures
        forall|k: int|
            0 <= k < rebuilt_entries(old_entries, links).len() ==> up_link_with(
                links,
                #[trigger] rebuilt_entries(old_entries, links)[k].id,
            ),
    decreases links.len(),
{
    if links.len() > 0 {
        let prefix = links.drop_last();
        lemma_rebuilt_ids(old_entries, prefix);
        assert forall|k: int|
            0 <= k < rebuilt_entries(old_entries, links).len() implies up_link_with(
            links,
            #[trigger] rebuilt_entries(old_entries, links)[k].id,
        ) by {
            let reb = rebuilt_entries(old_entries, links);
            let rest = rebuilt_entries(old_entries, prefix);
            if links.last().up && k == reb.len() - 1 {
                let w = links.len() - 1;
                assert(0 <= w < links.len() && links[w].id == reb[k].id && links[w].up);
            } else {
                assert(up_link_with(prefix, rest[k].id));
                let i = choose|i: int| 0 <= i < prefix.len() && prefix[i].id == rest[k].id && prefix[i].up;
                assert(0 <= i < links.len() && links[i].id == reb[k].id && links[i].up);
            }
        }
    }
}

/// Rebuilding from a slice of distinct ids yields a valid rotation list.
pub proof fn lemma_rebuilt_wf(old_entries: Seq<WeightedEntry>, links: Seq<LinkState>)
    requires
        ids_distinct(links),
    ensures
        entries_wf(rebuilt_entries(old_entries, links)),
    decreases links.len(),
{
    if links.len() > 0 {
        let prefix = links.drop_last();
        assert(ids_distinct(prefix));
        lemma_rebuilt_wf(old_entries, prefix);
        lemma_rebuilt_ids(old_entries, prefix);
        let reb = rebuilt_entries(old_entries, links);
        let rest = rebuilt_entries(old_entries, prefix);
        if links.last().up {
            let last_id = links.last().id;
            assert forall|i: int, j: int| 0 <= i < j < reb.len() implies reb[i].id != reb[j].id by {
                if j == reb.len() - 1 {
                    assert(up_link_with(prefix, rest[i].id));
                    let w = choose|w: int|
                        0 <= w < prefix.len() && prefix[w].id == rest[i].id && prefix[w].up;
                    assert(links[w].id != links[links.len() - 1].id);
                }
            }
        }
    }
}

/// What the winning index of a round satisfies: it points at a
/// participating slot preferred over every other participating slot; and
/// there is a winner exactly when some slot participates.
pub proof fn lemma_wrr_best_props(
    entries: Seq<WeightedEntry>,
    links: Seq<LinkState>,
    pkt_len: usize,
)
    requires
        forall|i: int, j: int| 0 <= i < j < entries.len() ==> entries[i].id != entries[j].id,
    ensures
        match wrr_best(entries, links, pkt_len) {
            None => forall|j: int|
                0 <= j < entries.len() ==> !entry_eligible(#[trigger] entries[j], links, pkt_len),
            Some(k) => 0 <= k < entries.len() && entry_eligible(entries[k], links, pkt_len)
                && forall|j: int|
                0 <= j < entries.len() && j != k && entry_eligible(
                    #[trigger] entries[j],
                    links,
                    pkt_len,
                ) ==> entry_better(entries[k], entries[j]),
        },
    decreases entries.len(),
{
    if entries.len() > 0 {
        let prefix = entries.drop_last();
        lemma_wrr_best_props(prefix, links, pkt_len);
        let last = entries.len() - 1;
        assert forall|j: int| 0 <= j < prefix.len() implies prefix[j] == entries[j] by {}
        match wrr_best(entries, links, pkt_len) {
            None => {},
            Some(k) => {
                assert forall|j: int|
                    0 <= j < entries.len() && j != k && entry_eligible(
                        #[trigger] entries[j],
                        links,
                        pkt_len,
                    ) implies entry_better(entries[k], entries[j]) by {
                    let rest = wrr_best(prefix, links, pkt_len);
                    if entry_eligible(entries[last], links, pkt_len) {
                        match rest {
                            None => {},
                            Some(b) => {
                                if !entry_better(entries[last], entries[b]) {
                                    assert(entries[last].id != entries[b].id);
                                    assert(entry_better(entries[b], entries[last]));
                                }
                            },
                        }
                    }
                }
            },
        }
    }
}

/// Bounds on a round's weight total: non-negative, and at most one cap per
/// slot.
pub proof fn lemma_total_bounds(entries: Seq<WeightedEntry>, links: Seq<LinkState>, pkt_len: usize)
    requires
        forall|i: int| 0 <= i < entries.len() ==> entries[i].weight_milli <= WEIGHT_MILLI_CAP,
    ensures
        0 <= eligible_weight_total(entries, links, pkt_len),
        eligible_weight_total(entries, links, pkt_len) <= entries.len() * WEIGHT_MILLI_CAP,
    decreases entries.len(),
{
    if entries.len() > 0 {
        let prefix = entries.drop_last();
        lemma_total_bounds(prefix, links, pkt_len);
        let n = entries.len() as int;
        assert((n - 1) * WEIGHT_MILLI_CAP + WEIGHT_MILLI_CAP == n * WEIGHT_MILLI_CAP)
            by (nonlinear_arith);
        assert(prefix.len() == n - 1);
    }
}

/// A participating slot pushes the round's weight total above zero.
pub proof fn lemma_total_positive(
    entries: Seq<WeightedEntry>,
    links: Seq<LinkState>,
    pkt_len: usize,
    k: int,
)
    requires
        0 <= k < entries.len(),
        entry_eligible(entries[k], links, pkt_len),
        forall|i: int| 0 <= i < entries.len() ==> entries[i].weight_milli <= WEIGHT_MILLI_CAP,
    ensures
        eligible_weight_total(entries, links, pkt_len) > 0,
    decreases entries.len(),
{
    let prefix = entries.drop_last();
    lemma_total_bounds(prefix, links, pkt_len);
    if k == entries.len() - 1 {
    } else {
        lemma_total_positive(prefix, links, pkt_len, k);
    }
}

/// Finds a link by path id. Under distinct ids the hit is the only one.
pub fn find_link_pos(links: &Vec<LinkState>, id: PathId) -> (r: Option<usize>)
    ensures
        match r {
            Some(j) => j < links@.len() && links@[j as int].id == id,
            None => forall|i: int| 0 <= i < links@.len() ==> links@[i].id != id,
        },
{
    let n = links.len();
    let mut i: usize = 0;
    while i < n
        invariant
            n == links@.len(),
            i <= n,
            forall|k: int| 0 <= k < i ==> links@[k].id != id,
        decreases n - i,
    {
        if links[i].id == id {
            return Some(i);
        }
        i = i + 1;
    }
    None
}

/// Smooth weighted round-robin: each round every participating slot's
/// accumulator grows by its weight, the slot with the highest accumulator
/// wins and pays the round's weight total back.
pub struct WeightedRoundRobinScheduler {
    pub entries: Vec<WeightedEntry>,
}

impl Default for WeightedRoundRobinScheduler {
    fn default() -> (r: Self)
        ensures
            r.entries@.len() == 0,
    {
        WeightedRoundRobinScheduler { entries: Vec::new() }
    }
}

impl WeightedRoundRobinScheduler {
    fn find_entry_pos(entries: &Vec<WeightedEntry>, id: PathId) -> (r: Option<usize>)
        ensures
            match r {
                Some(j) => j < entries@.len() && entries@[j as int].id == id,
                None => forall|i: int| 0 <= i < entries@.len() ==> entries@[i].id != id,
            },
    {
        let n = entries.len();
        let mut i: usize = 0;
        while i < n
            invariant
                n == entries@.len(),
                i <= n,
                forall|k: int| 0 <= k < i ==> entries@[k].id != id,
            decreases n - i,
        {
            if entries[i].id == id {
                return Some(i);
            }
            i = i + 1;
        }
        None
    }

    /// Whether a slot takes part in a round, decided against the live links.
    fn entry_is_eligible(e: &WeightedEntry, links: &Vec<LinkState>, pkt_len: usize) -> (r: bool)
        requires
            ids_distinct(links@),
        ensures
            r == entry_eligible(*e, links@, pkt_len),
    {
        if e.weight_milli == 0 {
            proof {
                assert(!entry_eligible(*e, links@, pkt_len));
            }
            return false;
        }
        match find_link_pos(links, e.id) {
            Some(j) => {
                let ok = links[j].up && links[j].tokens >= pkt_len;
                proof {
                    if ok {
                        assert(eligible_link_with(links@, e.id, pkt_len));
                    } else {
                        if eligible_link_with(links@, e.id, pkt_len) {
                            let w = choose|w: int|
                                0 <= w < links@.len() && links@[w].id == e.id && link_eligible(
                                    links@[w],
                                    pkt_len,
                                );
                            assert(w == j as int);
                        }
                    }
                }
                ok
            },
            None => {
                proof {
                    if eligible_link_with(links@, e.id, pkt_len) {
                        let w = choose|w: int|
                            0 <= w < links@.len() && links@[w].id == e.id && link_eligible(
                                links@[w],
                                pkt_len,
                            );
                        assert(false);
                    }
                }
                false
            },
        }
    }

    /// Rebuilds the rotation list for the up links: known paths keep their
    /// place in the rotation unless their weight changed.
    fn rebuild(&mut self, links: &Vec<LinkState>)
        requires
            entries_wf(old(self).entries@),
        ensures
            final(self).entries@ == rebuilt_entries(old(self).entries@, links@),
    {
        let ghost entries0 = self.entries@;
        let mut new_entries: Vec<WeightedEntry> = Vec::new();
        let n = links.len();
        let mut i: usize = 0;
        while i < n
            invariant
                n == links@.len(),
                i <= n,
                self.entries@ == entries0,
                entries_wf(entries0),
                new_entries@ == rebuilt_entries(entries0, links@.subrange(0, i as int)),
            decreases n - i,
        {
            proof {
                assert(links@.subrange(0, i as int + 1).drop_last() =~= links@.subrange(
                    0,
                    i as int,
                ));
                assert(links@.subrange(0, i as int + 1).last() == links@[i as int]);
            }
            let l = links[i];
            if l.up {
                let w = if l.weight_milli > WEIGHT_MILLI_CAP {
                    WEIGHT_MILLI_CAP
                } else {
                    l.weight_milli
                };
                let cw: i128 = match Self::find_entry_pos(&self.entries, l.id) {
                    Some(j) => {
                        proof {
                            let k = choose|k: int|
                                0 <= k < entries0.len() && entries0[k].id == l.id;
                            assert(k == j as int);
                        }
                        if self.entries[j].weight_milli == w {
                            self.entries[j].current_weight
                        } else {
                            0
                        }
                    },
                    None => 0,
                };
                new_entries.push(WeightedEntry { id: l.id, weight_milli: w, current_weight: cw });
                proof {
                    assert(new_entries@.last() == rebuilt_entry(entries0, links@[i as int]));
                    assert(new_entries@ =~= rebuilt_entries(
                        entries0,
                        links@.subrange(0, i as int + 1),
                    ));
                }
            }
            i = i + 1;
        }
        proof {
            assert(links@.subrange(0, n as int) =~= links@);
        }
        self.entries = new_entries;
    }

    /// Sums the weights of the slots taking part in this round.
    fn total_weight(&self, links: &Vec<LinkState>, pkt_len: usize) -> (r: u128)
        requires
            forall|i: int|
                0 <= i < self.entries@.len() ==> self.entries@[i].weight_milli
                    <= WEIGHT_MILLI_CAP,
            ids_distinct(links@),
        ensures
            r as int == eligible_weight_total(self.entries@, links@, pkt_len),
    {
        let n = self.entries.len();
        let mut total: u128 = 0;
        let mut i: usize = 0;
        while i < n
            invariant
                n == self.entries@.len(),
                i <= n,
                ids_distinct(links@),
                forall|k: int|
                    0 <= k < n ==> self.entries@[k].weight_milli <= WEIGHT_MILLI_CAP,
                total as int == eligible_weight_total(
                    self.entries@.subrange(0, i as int),
                    links@,
                    pkt_len,
                ),
                total as int <= i as int * WEIGHT_MILLI_CAP,
            decreases n - i,
        {
            proof {
                assert(self.entries@.subrange(0, i as int + 1).drop_last() =~= self
                    .entries@.subrange(0, i as int));
                assert(self.entries@.subrange(0, i as int + 1).last() == self.entries@[i as int]);
                assert((i as int + 1) * WEIGHT_MILLI_CAP == i as int * WEIGHT_MILLI_CAP
                    + WEIGHT_MILLI_CAP) by (nonlinear_arith);
                assert(i as int * WEIGHT_MILLI_CAP <= (usize::MAX as int) * (WEIGHT_MILLI_CAP
                    as int)) by (nonlinear_arith)
                    requires
                        0 <= i as int <= usize::MAX as int,
                ;
                assert((usize::MAX as int) * (WEIGHT_MILLI_CAP as int) + WEIGHT_MILLI_CAP
                    < u128::MAX as int) by (nonlinear_arith);
            }
            let e = self.entries[i];
            if Self::entry_is_eligible(&e, links, pkt_len) {
                total = total + (e.weight_milli as u128);
            }
            i = i + 1;
        }
        proof {
            assert(self.entries@.subrange(0, n as int) =~= self.entries@);
        }
        total
    }

    /// One round of smooth weighted round-robin: returns the winning path
    /// alone, reserving `pkt_len` tokens on its link, or nothing when no
    /// slot takes part.
    #[verifier::rlimit(60)]
    pub fn select_paths(
        &mut self,
        pkt_len: usize,
        _meta: &PacketMeta,
        links: &mut Vec<LinkState>,
    ) -> (r: Vec<PathId>)
        requires
            entries_wf(old(self).entries@),
            ids_distinct(old(links)@),
        ensures
            final(self).entries@ == wrr_updated_entries(old(self).entries@, old(links)@, pkt_len),
            entries_wf(final(self).entries@),
            r@ == wrr_selected_ids(old(self).entries@, old(links)@, pkt_len),
            final(links)@ == wrr_updated_links(old(self).entries@, old(links)@, pkt_len),
    {
        let ghost entries0 = self.entries@;
        self.rebuild(links);
        let ghost reb = self.entries@;
        let ghost bum = bumped_entries(reb, links@, pkt_len);
        proof {
            lemma_rebuilt_wf(entries0, links@);
            assert forall|i: int| 0 <= i < bum.len() implies bum[i].id == reb[i].id && bum[i]
                .weight_milli == reb[i].weight_milli by {}
            assert(entries_wf(bum));
        }

        let n = self.entries.len();
        let mut i: usize = 0;
        let mut best: Option<usize> = None;
        while i < n
            invariant
                n == self.entries@.len(),
                n == reb.len(),
                i <= n,
                links@ == old(links)@,
                ids_distinct(links@),
                entries_wf(reb),
                bum == bumped_entries(reb, links@, pkt_len),
                forall|j: int| 0 <= j < i ==> self.entries@[j] == bum[j],
                forall|j: int| i <= j < n ==> self.entries@[j] == reb[j],
                match best {
                    None => wrr_best(bum.subrange(0, i as int), links@, pkt_len) is None,
                    Some(b) => b < i && wrr_best(bum.subrange(0, i as int), links@, pkt_len)
                        == Some(b as int),
                },
            decreases n - i,
        {
            proof {
                assert(bum.subrange(0, i as int + 1).drop_last() =~= bum.subrange(0, i as int));
                assert(bum.subrange(0, i as int + 1).last() == bum[i as int]);
            }
            let e = self.entries[i];
            let elig = Self::entry_is_eligible(&e, links, pkt_len);
            proof {
                assert(e == reb[i as int]);
                assert(entry_eligible(bum[i as int], links@, pkt_len) == entry_eligible(
                    reb[i as int],
                    links@,
                    pkt_len,
                ));
            }
            if elig {
                let cw = sat_add_i128(e.current_weight, e.weight_milli as i128);
                self.entries[i].current_weight = cw;
                proof {
                    assert(self.entries@[i as int] == bum[i as int]);
                }
                let replace = match best {
                    None => true,
                    Some(b) => {
                        let be = self.entries[b];
                        proof {
                            assert(be == bum[b as int]);
                        }
                        cw > be.current_weight || (cw == be.current_weight && e.id.0 < be.id.0)
                    },
                };
                if replace {
                    best = Some(i);
                }
            }
            i = i + 1;
        }
        proof {
            assert(bum.subrange(0, n as int) =~= bum);
            assert(self.entries@ =~= bum);
        }

        match best {
            None => {
                proof {
                    assert(final(links)@ =~= wrr_updated_links(entries0, old(links)@, pkt_len));
                    assert(wrr_selected_ids(entries0, old(links)@, pkt_len) =~= Seq::<
                        PathId,
                    >::empty());
                }
                Vec::new()
            },
            Some(k) => {
                proof {
                    lemma_wrr_best_props(bum, links@, pkt_len);
                }
                let total = self.total_weight(links, pkt_len);
                proof {
                    lemma_total_bounds(bum, links@, pkt_len);
                    assert(bum.len() as int * WEIGHT_MILLI_CAP <= (usize::MAX as int) * (
                    WEIGHT_MILLI_CAP as int)) by (nonlinear_arith)
                        requires
                            0 <= bum.len() as int <= usize::MAX as int,
                    ;
                    assert((usize::MAX as int) * (WEIGHT_MILLI_CAP as int) < i128::MAX as int)
                        by (nonlinear_arith);
                }
                let ke = self.entries[k];
                self.entries[k].current_weight = sat_sub_i128(ke.current_weight, total as i128);
                proof {
                    assert(self.entries@ =~= wrr_updated_entries(
                        entries0,
                        old(links)@,
                        pkt_len,
                    ));
                }
                proof {
                    assert(entry_eligible(bum[k as int], links@, pkt_len));
                }
                match find_link_pos(links, ke.id) {
                    Some(j) => {
                        proof {
                            let w = choose|w: int|
                                0 <= w < links@.len() && links@[w].id == ke.id && link_eligible(
                                    links@[w],
                                    pkt_len,
                                );
                            assert(w == j as int);
                        }
                        let t = links[j].tokens;
                        links[j].tokens = t - pkt_len;
                        proof {
                            let target = bum[k as int].id;
                            let jj = choose|jj: int|
                                0 <= jj < old(links)@.len() && old(links)@[jj].id == target;
                            assert(jj == j as int);
                            assert(links@ =~= wrr_updated_links(entries0, old(links)@, pkt_len));
                        }
                    },
                    None => {
                        proof {
                            let w = choose|w: int|
                                0 <= w < links@.len() && links@[w].id == ke.id && link_eligible(
                                    links@[w],
                                    pkt_len,
                                );
                            assert(false);
                        }
                    },
                }
                let mut result: Vec<PathId> = Vec::new();
                result.push(ke.id);
                proof {
                    assert(result@ =~= wrr_selected_ids(entries0, old(links)@, pkt_len));
                }
                result
            },
        }
    }
}

/// Tuning knobs of the replica-of-two scheduler, fixed-point scaled by 1000.
#[derive(Debug, Clone, Copy, PartialEq, Eq, Structural)]
pub struct Replica2WeightedConfig {
    pub use_weights: bool,
    /// Cost added per unit of loss rate, in thousandths (5000 is a factor of five).
    pub loss_penalty_milli: u64,
    /// Scale on the queueing delay estimate, in thousandths.
    pub queue_penalty_scale_milli: u64,
    /// Scale on the smoothed round-trip time, in thousandths.
    pub rtt_alpha_milli: u64,
}

impl Default for Replica2WeightedConfig {
    fn default() -> (r: Self)
        ensures
            r == (Replica2WeightedConfig {
                use_weights: true,
                loss_penalty_milli: 5000,
                queue_penalty_scale_milli: 1000,
                rtt_alpha_milli: 1000,
            }),
    {
        Replica2WeightedConfig {
            use_weights: true,
            loss_penalty_milli: 5000,
            queue_penalty_scale_milli: 1000,
            rtt_alpha_milli: 1000,
        }
    }
}

/// Addition on `u128` values that clamps at the top of the range.
pub open spec fn sat_add_u128_spec(a: int, b: int) -> int {
    if a + b > u128::MAX as int {
        u128::MAX as int
    } else {
        a + b
    }
}

/// Multiplication on `u128` values that clamps at the top of the range.
pub open spec fn sat_mul_u128_spec(a: int, b: int) -> int {
    if a * b > u128::MAX as int {
        u128::MAX as int
    } else {
        a * b
    }
}

/// The replica-two cost of a link, in nano-units: scaled round-trip time,
/// plus scaled queueing delay (bytes in flight over the send rate), plus
/// scaled loss rate; optionally divided by the link's weight, floored at
/// one tenth.
pub open spec fn eta_spec(cfg: Replica2WeightedConfig, l: LinkState) -> int {
    let send = if l.send_bps > 0 {
        l.send_bps as int
    } else {
        1
    };
    let rtt_component = cfg.rtt_alpha_milli as int * l.rtt_micros as int;
    let queue_component = sat_mul_u128_spec(
        cfg.queue_penalty_scale_milli as int,
        (l.inflight_bytes as int * 1_000_000) / send,
    );
    let loss_component = l.loss_per_million as int * cfg.loss_penalty_milli as int;
    let eta = sat_add_u128_spec(sat_add_u128_spec(rtt_component, queue_component), loss_component);
    if cfg.use_weights {
        let w = if l.weight_milli < 100 {
            100
        } else {
            l.weight_milli as int
        };
        sat_mul_u128_spec(eta, 1000) / w
    } else {
        eta
    }
}

/// A link that may carry the packet, remembered with its position, id and
/// cost.
#[derive(Debug, Clone, Copy, PartialEq, Eq, Structural)]
pub struct Candidate {
    pub index: usize,
    pub id: PathId,
    pub eta: u128,
}

/// How many links of the slice are up.
pub open spec fn up_count(links: Seq<LinkState>) -> int
    decreases links.len(),
{
    if links.len() == 0 {
        0
    } else {
        up_count(links.drop_last()) + if links.last().up {
            1int
        } else {
            0int
        }
    }
}

/// How many up links lack the tokens for a packet of `pkt_len` bytes.
pub open spec fn skip_count(links: Seq<LinkState>, pkt_len: usize) -> int
    decreases links.len(),
{
    if links.len() == 0 {
        0
    } else {
        skip_count(links.drop_last(), pkt_len) + if links.last().up && links.last().tokens
            < pkt_len {
            1int
        } else {
            0int
        }
    }
}

/// The eligible links of the slice as replica-two candidates, in slice
/// order, each with its cost.
pub open spec fn candidates_spec(
    cfg: Replica2WeightedConfig,
    links: Seq<LinkState>,
    pkt_len: usize,
) -> Seq<Candidate>
    decreases links.len(),
{
    if links.len() == 0 {
        Seq::empty()
    } else {
        let rest = candidates_spec(cfg, links.drop_last(), pkt_len);
        let j = links.len() - 1;
        if link_eligible(links[j], pkt_len) {
            rest.push(
                Candidate { index: j as usize, id: links[j].id, eta: eta_spec(cfg, links[j]) as u128 },
            )
        } else {
            rest
        }
    }
}

/// Strict preference between candidates: lower cost first, the lower path
/// id on equal costs.
pub open spec fn cand_better(a: Candidate, b: Candidate) -> bool {
    a.eta < b.eta || (a.eta == b.eta && a.id.0 < b.id.0)
}

/// The index of the most-preferred candidate, skipping the position `excl`
/// (pass a negative number to skip none).
pub open spec fn r2_best(cands: Seq<Candidate>, excl: int) -> Option<int>
    decreases cands.len(),
{
    if cands.len() == 0 {
        None::<int>
    } else {
        let rest = r2_best(cands.drop_last(), excl);
        let j = cands.len() - 1;
        if j == excl {
            rest
        } else {
            match rest {
                None => Some(j),
                Some(k) => if cand_better(cands[j], cands[k]) {
                    Some(j)
                } else {
                    Some(k)
                },
            }
        }
    }
}

/// Shape of the candidate list: positions point at eligible links in
/// strictly increasing order, ids and costs are the pointed-at links'.
pub proof fn lemma_candidates_shape(
    cfg: Replica2WeightedConfig,
    links: Seq<LinkState>,
    pkt_len: usize,
)
    requires
        links.len() <= usize::MAX,
    ensures
        forall|k: int|
            0 <= k < candidates_spec(cfg, links, pkt_len).len() ==> {
                let c = #[trigger] candidates_spec(cfg, links, pkt_len)[k];
                &&& 0 <= c.index < links.len()
                &&& c.id == links[c.index as int].id
                &&& link_eligible(links[c.index as int], pkt_len)
                &&& c.eta as int == eta_spec(cfg, links[c.index as int])
            },
        forall|k1: int, k2: int|
            0 <= k1 < k2 < candidates_spec(cfg, links, pkt_len).len()
                ==> candidates_spec(cfg, links, pkt_len)[k1].index < candidates_spec(
                cfg,
                links,
                pkt_len,
            )[k2].index,
        candidates_spec(cfg, links, pkt_len).len() <= links.len(),
    decreases links.len(),
{
    if links.len() > 0 {
        let prefix = links.drop_last();
        lemma_candidates_shape(cfg, prefix, pkt_len);
        let cs = candidates_spec(cfg, links, pkt_len);
        let rest = candidates_spec(cfg, prefix, pkt_len);
        assert forall|k: int|
            0 <= k < cs.len() implies {
            let c = #[trigger] cs[k];
            &&& 0 <= c.index < links.len()
            &&& c.id == links[c.index as int].id
            &&& link_eligible(links[c.index as int], pkt_len)
            &&& c.eta as int == eta_spec(cfg, links[c.index as int])
        } by {
            if k < rest.len() {
                assert(cs[k] == rest[k]);
                let c = rest[k];
                assert(0 <= c.index < prefix.len());
                assert(c.id == prefix[c.index as int].id);
                assert(link_eligible(prefix[c.index as int], pkt_len));
                assert(c.eta as int == eta_spec(cfg, prefix[c.index as int]));
                assert(prefix[c.index as int] == links[c.index as int]);
            } else {
                let j = links.len() - 1;
                assert(link_eligible(links[j], pkt_len));
                assert(cs[k] == (Candidate {
                    index: j as usize,
                    id: links[j].id,
                    eta: eta_spec(cfg, links[j]) as u128,
                }));
            }
        }
        assert forall|k1: int, k2: int| 0 <= k1 < k2 < cs.len() implies cs[k1].index
            < cs[k2].index by {
            if k2 < rest.len() {
                assert(cs[k1] == rest[k1] && cs[k2] == rest[k2]);
            } else {
                assert(cs[k1] == rest[k1]);
                assert(rest[k1].index < prefix.len());
            }
        }
    }
}

/// What the most-preferred candidate index satisfies.
pub proof fn lemma_r2_best_props(cands: Seq<Candidate>, excl: int)
    requires
        forall|i: int, j: int| 0 <= i < j < cands.len() ==> cands[i].id != cands[j].id,
    ensures
        match r2_best(cands, excl) {
            None => cands.len() == 0 || (cands.len() == 1 && excl == 0),
            Some(k) => 0 <= k < cands.len() && k != excl && forall|j: int|
                0 <= j < cands.len() && j != k && j != excl ==> cand_better(
                    cands[k],
                    #[trigger] cands[j],
                ),
        },
    decreases cands.len(),
{
    if cands.len() > 0 {
        let prefix = cands.drop_last();
        lemma_r2_best_props(prefix, excl);
        let last = cands.len() - 1;
        match r2_best(cands, excl) {
            None => {},
            Some(k) => {
                assert forall|j: int|
                    0 <= j < cands.len() && j != k && j != excl implies cand_better(
                    cands[k],
                    #[trigger] cands[j],
                ) by {
                    let rest = r2_best(prefix, excl);
                    if j < last {
                        assert(prefix[j] == cands[j]);
                    }
                    if last != excl {
                        match rest {
                            None => {},
                            Some(b) => {
                                assert(prefix[b] == cands[b]);
                                if !cand_better(cands[last], cands[b]) {
                                    assert(cands[last].id != cands[b].id);
                                    assert(cand_better(cands[b], cands[last]));
                                }
                            },
                        }
                    }
                }
            },
        }
    }
}

/// Headroom the replica-two counters need for one round: each counter can
/// still grow by one, the skip counter by one per link.
pub open spec fn replica2_counters_ok(m: SchedulerMetrics, n_links: int) -> bool {
    &&& m.replica2_primary < u64::MAX
    &&& m.replica2_secondary < u64::MAX
    &&& m.replica2_fallbacks < u64::MAX
    &&& m.no_token_skips + n_links <= u64::MAX
}

/// What one replica-two round does, relating the scheduler and the links
/// before (`s0`, `links0`) and after (`s1`, `links1`) to the returned ids
/// `r`. Four cases: too few up links (fallback, no skip counting), no
/// eligible link (fallback after skip counting), one eligible link (lone
/// primary), two or more (the two cheapest, distinct).
pub open spec fn replica2_round_post(
    s0: Replica2WeightedScheduler,
    s1: Replica2WeightedScheduler,
    links0: Seq<LinkState>,
    links1: Seq<LinkState>,
    r: Seq<PathId>,
    pkt_len: usize,
) -> bool {
    let m0 = s0.metrics;
    let cands = candidates_spec(s0.config, links0, pkt_len);
    let min_eff: int = if s0.min_links_for_aggregation > 3 {
        s0.min_links_for_aggregation as int
    } else {
        3
    };
    let skips = skip_count(links0, pkt_len);
    &&& s1.config == s0.config
    &&& s1.min_links_for_aggregation == s0.min_links_for_aggregation
    &&& entries_wf(s1.fallback.entries@)
    &&& if up_count(links0) < min_eff {
        &&& s1.fallback.entries@ == wrr_updated_entries(s0.fallback.entries@, links0, pkt_len)
        &&& r == wrr_selected_ids(s0.fallback.entries@, links0, pkt_len)
        &&& links1 == wrr_updated_links(s0.fallback.entries@, links0, pkt_len)
        &&& s1.metrics == (SchedulerMetrics {
            replica2_fallbacks: (m0.replica2_fallbacks + 1) as u64,
            ..m0
        })
    } else if cands.len() == 0 {
        &&& s1.fallback.entries@ == wrr_updated_entries(s0.fallback.entries@, links0, pkt_len)
        &&& r == wrr_selected_ids(s0.fallback.entries@, links0, pkt_len)
        &&& links1 == wrr_updated_links(s0.fallback.entries@, links0, pkt_len)
        &&& s1.metrics == (SchedulerMetrics {
            replica2_fallbacks: (m0.replica2_fallbacks + 1) as u64,
            no_token_skips: (m0.no_token_skips + skips) as u64,
            ..m0
        })
    } else if cands.len() == 1 {
        &&& s1.fallback == s0.fallback
        &&& r == seq![cands[0].id]
        &&& links1 == links0.update(
            cands[0].index as int,
            reserved(links0[cands[0].index as int], pkt_len),
        )
        &&& s1.metrics == (SchedulerMetrics {
            replica2_primary: (m0.replica2_primary + 1) as u64,
            no_token_skips: (m0.no_token_skips + skips) as u64,
            ..m0
        })
    } else {
        let a = r2_best(cands, -1)->0;
        let b = r2_best(cands, a)->0;
        &&& r2_best(cands, -1) is Some
        &&& r2_best(cands, a) is Some
        &&& a != b
        &&& s1.fallback == s0.fallback
        &&& r == seq![cands[a].id, cands[b].id]
        &&& cands[a].id != cands[b].id
        &&& links1 == links0.update(
            cands[a].index as int,
            reserved(links0[cands[a].index as int], pkt_len),
        ).update(cands[b].index as int, reserved(links0[cands[b].index as int], pkt_len))
        &&& s1.metrics == (SchedulerMetrics {
            replica2_primary: (m0.replica2_primary + 1) as u64,
            replica2_secondary: (m0.replica2_secondary + 1) as u64,
            no_token_skips: (m0.no_token_skips + skips) as u64,
            ..m0
        })
    }
}

/// Replica-of-two weighted scheduling: with enough up links, the two
/// cheapest eligible links each carry a copy of the packet; with fewer, the
/// round falls back to weighted round-robin.
pub struct Replica2WeightedScheduler {
    pub min_links_for_aggregation: usize,
    pub config: Replica2WeightedConfig,
    pub fallback: WeightedRoundRobinScheduler,
    pub metrics: SchedulerMetrics,
}

impl Replica2WeightedScheduler {
    pub fn new(
        min_links_for_aggregation: usize,
        config: Replica2WeightedConfig,
        fallback: WeightedRoundRobinScheduler,
    ) -> (r: Self)
        ensures
            r.min_links_for_aggregation == min_links_for_aggregation,
            r.config == config,
            r.fallback == fallback,
            r.metrics == SchedulerMetrics::zero(),
    {
        Replica2WeightedScheduler {
            min_links_for_aggregation,
            config,
            fallback,
            metrics: SchedulerMetrics {
                replica2_primary: 0,
                replica2_secondary: 0,
                replica2_fallbacks: 0,
                no_token_skips: 0,
            },
        }
    }

    pub fn metrics(&self) -> (r: SchedulerMetrics)
        ensures
            r == self.metrics,
    {
        self.metrics
    }

    /// Computes a link's replica-two cost.
    fn compute_eta(&self, link: &LinkState) -> (r: u128)
        ensures
            r as int == eta_spec(self.config, *link),
    {
        proof {
            assert((u64::MAX as int) * (u64::MAX as int) < u128::MAX as int) by (nonlinear_arith);
            assert((self.config.rtt_alpha_milli as int) * (link.rtt_micros as int) <= (u64::MAX
                as int) * (u64::MAX as int)) by (nonlinear_arith)
                requires
                    0 <= self.config.rtt_alpha_milli as int <= u64::MAX as int,
                    0 <= link.rtt_micros as int <= u64::MAX as int,
            ;
            assert((link.inflight_bytes as int) * 1_000_000 <= (u64::MAX as int) * 1_000_000)
                by (nonlinear_arith)
                requires
                    0 <= link.inflight_bytes as int <= u64::MAX as int,
            ;
            assert((u64::MAX as int) * 1_000_000 < u128::MAX as int) by (nonlinear_arith);
            assert((link.loss_per_million as int) * (self.config.loss_penalty_milli as int) <= (
            u64::MAX as int) * (u64::MAX as int)) by (nonlinear_arith)
                requires
                    0 <= link.loss_per_million as int <= u64::MAX as int,
                    0 <= self.config.loss_penalty_milli as int <= u64::MAX as int,
            ;
        }
        let send: u64 = if link.send_bps > 0 {
            link.send_bps
        } else {
            1
        };
        let rtt_component: u128 = (self.config.rtt_alpha_milli as u128) * (link.rtt_micros
            as u128);
        let queue_seconds_scaled: u128 = ((link.inflight_bytes as u128) * 1_000_000u128) / (send
            as u128);
        let queue_component: u128 = match (self.config.queue_penalty_scale_milli
            as u128).checked_mul(queue_seconds_scaled) {
            Some(v) => v,
            None => u128::MAX,
        };
        let loss_component: u128 = (link.loss_per_million as u128) * (self.config
            .loss_penalty_milli as u128);
        let eta: u128 = rtt_component.saturating_add(queue_component).saturating_add(
            loss_component,
        );
        if self.config.use_weights {
            let w: u64 = if link.weight_milli < 100 {
                100
            } else {
                link.weight_milli
            };
            let scaled: u128 = match eta.checked_mul(1000u128) {
                Some(v) => v,
                None => u128::MAX,
            };
            scaled / (w as u128)
        } else {
            eta
        }
    }

    /// Walks the links once: collects the eligible ones as candidates and
    /// counts the up links whose tokens fall short.
    fn eligible_links(&self, pkt_len: usize, links: &Vec<LinkState>) -> (r: (Vec<Candidate>, u64))
        ensures
            r.0@ == candidates_spec(self.config, links@, pkt_len),
            r.1 as int == skip_count(links@, pkt_len),
            r.1 as int <= links@.len(),
    {
        let mut candidates: Vec<Candidate> = Vec::new();
        let mut token_skips: u64 = 0;
        let n = links.len();
        let mut i: usize = 0;
        while i < n
            invariant
                n == links@.len(),
                i <= n,
                candidates@ == candidates_spec(self.config, links@.subrange(0, i as int), pkt_len),
                token_skips as int == skip_count(links@.subrange(0, i as int), pkt_len),
                token_skips as int <= i as int,
            decreases n - i,
        {
            proof {
                assert(links@.subrange(0, i as int + 1).drop_last() =~= links@.subrange(
                    0,
                    i as int,
                ));
                assert(links@.subrange(0, i as int + 1).last() == links@[i as int]);
            }
            let l = &links[i];
            if l.up {
                if l.tokens < pkt_len {
                    token_skips = token_skips + 1;
                } else {
                    let eta = self.compute_eta(l);
                    candidates.push(Candidate { index: i, id: l.id, eta });
                }
            }
            i = i + 1;
        }
        proof {
            assert(links@.subrange(0, n as int) =~= links@);
        }
        (candidates, token_skips)
    }

    /// Delegates one round to the weighted round-robin fallback, counting
    /// the fallback.
    fn select_via_fallback(
        &mut self,
        pkt_len: usize,
        meta: &PacketMeta,
        links: &mut Vec<LinkState>,
    ) -> (r: Vec<PathId>)
        requires
            entries_wf(old(self).fallback.entries@),
            ids_distinct(old(links)@),
            old(self).metrics.replica2_fallbacks < u64::MAX,
        ensures
            final(self).fallback.entries@ == wrr_updated_entries(
                old(self).fallback.entries@,
                old(links)@,
                pkt_len,
            ),
            entries_wf(final(self).fallback.entries@),
            r@ == wrr_selected_ids(old(self).fallback.entries@, old(links)@, pkt_len),
            final(links)@ == wrr_updated_links(old(self).fallback.entries@, old(links)@, pkt_len),
            final(self).metrics == (SchedulerMetrics {
                replica2_fallbacks: (old(self).metrics.replica2_fallbacks + 1) as u64,
                ..old(self).metrics
            }),
            final(self).config == old(self).config,
            final(self).min_links_for_aggregation == old(self).min_links_for_aggregation,
    {
        self.metrics.replica2_fallbacks = self.metrics.replica2_fallbacks + 1;
        self.fallback.select_paths(pkt_len, meta, links)
    }

    /// One replica-two round. With fewer up links than the effective
    /// threshold (at least three) or with no eligible link, the weighted
    /// round-robin fallback decides; with one eligible link it is the lone
    /// primary; otherwise the two cheapest eligible links each carry a
    /// copy. Chosen links pay `pkt_len` tokens; every other link field is
    /// left untouched.
    #[verifier::rlimit(60)]
    pub fn select_paths(
        &mut self,
        pkt_len: usize,
        meta: &PacketMeta,
        links: &mut Vec<LinkState>,
    ) -> (r: Vec<PathId>)
        requires
            entries_wf(old(self).fallback.entries@),
            ids_distinct(old(links)@),
            replica2_counters_ok(old(self).metrics, old(links)@.len() as int),
        ensures
            replica2_round_post(
                *old(self),
                *final(self),
                old(links)@,
                final(links)@,
                r@,
                pkt_len,
            ),
    {
        let min_links = if self.min_links_for_aggregation > 3 {
            self.min_links_for_aggregation
        } else {
            3
        };
        let n = links.len();
        let mut links_up: usize = 0;
        let mut i: usize = 0;
        while i < n
            invariant
                n == links@.len(),
                links@ == old(links)@,
                i <= n,
                links_up as int == up_count(links@.subrange(0, i as int)),
                links_up as int <= i as int,
            decreases n - i,
        {
            proof {
                assert(links@.subrange(0, i as int + 1).drop_last() =~= links@.subrange(
                    0,
                    i as int,
                ));
                assert(links@.subrange(0, i as int + 1).last() == links@[i as int]);
            }
            if links[i].up {
                links_up = links_up + 1;
            }
            i = i + 1;
        }
        proof {
            assert(links@.subrange(0, n as int) =~= links@);
        }
        if links_up < min_links {
            return self.select_via_fallback(pkt_len, meta, links);
        }

        let (mut candidates, token_skips) = self.eligible_links(pkt_len, links);
        proof {
            lemma_candidates_shape(self.config, links@, pkt_len);
        }
        self.metrics.no_token_skips = self.metrics.no_token_skips + token_skips;

        if candidates.len() == 0 {
            return self.select_via_fallback(pkt_len, meta, links);
        }

        let ghost cands = candidates@;
        proof {
            assert forall|i1: int, j1: int| 0 <= i1 < j1 < cands.len() implies cands[i1].id
                != cands[j1].id by {
                assert(cands[i1].index < cands[j1].index);
                assert(cands[i1].id == links@[cands[i1].index as int].id);
                assert(cands[j1].id == links@[cands[j1].index as int].id);
            }
        }

        if candidates.len() == 1 {
            let candidate = candidates.remove(0);
            let idx = candidate.index;
            let t = links[idx].tokens;
            links[idx].tokens = t - pkt_len;
            self.metrics.replica2_primary = self.metrics.replica2_primary + 1;
            let mut result: Vec<PathId> = Vec::new();
            result.push(candidate.id);
            proof {
                assert(result@ =~= seq![cands[0].id]);
            }
            return result;
        }

        let m = candidates.len();
        let mut a: usize = 0;
        proof {
            assert(cands.subrange(0, 1int).drop_last() =~= Seq::<Candidate>::empty());
            assert(cands.subrange(0, 1int).last() == cands[0]);
            assert(r2_best(Seq::<Candidate>::empty(), -1) is None);
            assert(r2_best(cands.subrange(0, 1int), -1) == Some(0int));
        }
        let mut i: usize = 1;
        while i < m
            invariant
                m == cands.len(),
                candidates@ == cands,
                1 <= i <= m,
                a < i,
                r2_best(cands.subrange(0, i as int), -1) == Some(a as int),
            decreases m - i,
        {
            proof {
                assert(cands.subrange(0, i as int + 1).drop_last() =~= cands.subrange(
                    0,
                    i as int,
                ));
                assert(cands.subrange(0, i as int + 1).last() == cands[i as int]);
            }
            let c = candidates[i];
            let best = candidates[a];
            if c.eta < best.eta || (c.eta == best.eta && c.id.0 < best.id.0) {
                a = i;
            }
            i = i + 1;
        }
        proof {
            assert(cands.subrange(0, 1int).drop_last() =~= Seq::<Candidate>::empty());
            assert(cands.subrange(0, m as int) =~= cands);
        }

        let mut b: usize = if a == 0 {
            1
        } else {
            0
        };
        proof {
            if a == 0 {
                assert(cands.subrange(0, 1int).drop_last() =~= Seq::<Candidate>::empty());
                assert(r2_best(Seq::<Candidate>::empty(), 0int) is None);
                assert(r2_best(cands.subrange(0, 1int), 0int) is None);
                assert(cands.subrange(0, 2int).drop_last() =~= cands.subrange(0, 1int));
                assert(cands.subrange(0, 2int).last() == cands[1]);
                assert(r2_best(cands.subrange(0, 2int), 0int) == Some(1int));
            } else {
                assert(cands.subrange(0, 1int).drop_last() =~= Seq::<Candidate>::empty());
                assert(cands.subrange(0, 1int).last() == cands[0]);
                assert(r2_best(Seq::<Candidate>::empty(), a as int) is None);
                assert(r2_best(cands.subrange(0, 1int), a as int) == Some(0int));
            }
        }
        let mut i: usize = b + 1;
        while i < m
            invariant
                m == cands.len(),
                candidates@ == cands,
                a < m,
                b < i,
                i <= m,
                b != a,
                r2_best(cands.subrange(0, i as int), a as int) == Some(b as int),
            decreases m - i,
        {
            proof {
                assert(cands.subrange(0, i as int + 1).drop_last() =~= cands.subrange(
                    0,
                    i as int,
                ));
                assert(cands.subrange(0, i as int + 1).last() == cands[i as int]);
            }
            if i != a {
                let c = candidates[i];
                let best = candidates[b];
                if c.eta < best.eta || (c.eta == best.eta && c.id.0 < best.id.0) {
                    b = i;
                }
            }
            i = i + 1;
        }
        proof {
            assert(cands.subrange(0, m as int) =~= cands);
        }

        let ca = candidates[a];
        let cb = candidates[b];
        let ta = links[ca.index].tokens;
        links[ca.index].tokens = ta - pkt_len;
        let tb = links[cb.index].tokens;
        links[cb.index].tokens = tb - pkt_len;
        self.metrics.replica2_primary = self.metrics.replica2_primary + 1;
        self.metrics.replica2_secondary = self.metrics.replica2_secondary + 1;
        let mut result: Vec<PathId> = Vec::new();
        result.push(ca.id);
        result.push(cb.id);
        proof {
            assert(result@ =~= seq![cands[a as int].id, cands[b as int].id]);
        }
        result
    }
}

/// String comparison with a contract over the views.
pub fn str_eq(a: &str, b: &str) -> (r: bool)
    ensures
        r == (a@ == b@),
{
    let sa = a.to_owned();
    let sb = b.to_owned();
    sa == sb
}

/// The scheduling algorithms a client can be configured with.
#[derive(Debug, Clone, Copy, PartialEq, Eq, Structural)]
pub enum SchedulerAlgorithm {
    Mirror,
    WeightedRoundRobin,
    Replica2Weighted,
    FecKn,
}

/// The algorithm a numeric configuration value stands for. Three once
/// named a retired variant and falls back to mirror, as does every unknown
/// number.
pub open spec fn algorithm_from_number(value: u64) -> SchedulerAlgorithm {
    if value == 2 {
        SchedulerAlgorithm::WeightedRoundRobin
    } else {
        SchedulerAlgorithm::Mirror
    }
}

/// The algorithm a configuration name stands for, if any.
pub open spec fn algorithm_from_name(s: Seq<char>) -> Option<SchedulerAlgorithm> {
    if s == "mirror"@ || s == "mirror_all"@ || s == "mirrorall"@ {
        Some(SchedulerAlgorithm::Mirror)
    } else if s == "weighted_round_robin"@ || s == "wrr"@ {
        Some(SchedulerAlgorithm::WeightedRoundRobin)
    } else if s == "replica2_weighted"@ || s == "replica2"@ {
        Some(SchedulerAlgorithm::Replica2Weighted)
    } else if s == "fec_kn"@ || s == "fec"@ {
        Some(SchedulerAlgorithm::FecKn)
    } else {
        None
    }
}

impl SchedulerAlgorithm {
    pub fn from_number(value: u64) -> (r: Self)
        ensures
            r == algorithm_from_number(value),
    {
        match value {
            1 => SchedulerAlgorithm::Mirror,
            2 => SchedulerAlgorithm::WeightedRoundRobin,
            3 => SchedulerAlgorithm::Mirror,
            _ => SchedulerAlgorithm::Mirror,
        }
    }

    pub fn from_name(v: &str) -> (r: Option<Self>)
        ensures
            r == algorithm_from_name(v@),
    {
        if str_eq(v, "mirror") || str_eq(v, "mirror_all") || str_eq(v, "mirrorall") {
            Some(SchedulerAlgorithm::Mirror)
        } else if str_eq(v, "weighted_round_robin") || str_eq(v, "wrr") {
            Some(SchedulerAlgorithm::WeightedRoundRobin)
        } else if str_eq(v, "replica2_weighted") || str_eq(v, "replica2") {
            Some(SchedulerAlgorithm::Replica2Weighted)
        } else if str_eq(v, "fec_kn") || str_eq(v, "fec") {
            Some(SchedulerAlgorithm::FecKn)
        } else {
            None
        }
    }
}

/// Aggregation settings a client starts from.
#[derive(Debug, Clone)]
pub struct AggregationConfig {
    pub min_links_for_aggregation: usize,
    pub algorithm: SchedulerAlgorithm,
    pub replica2: Replica2WeightedConfig,
}

impl Default for AggregationConfig {
    fn default() -> (r: Self)
        ensures
            r.min_links_for_aggregation == 1,
            r.algorithm == SchedulerAlgorithm::Mirror,
            r.replica2 == (Replica2WeightedConfig {
                use_weights: true,
                loss_penalty_milli: 5000,
                queue_penalty_scale_milli: 1000,
                rtt_alpha_milli: 1000,
            }),
    {
        AggregationConfig {
            min_links_for_aggregation: 1,
            algorithm: SchedulerAlgorithm::Mirror,
            replica2: Replica2WeightedConfig::default(),
        }
    }
}

/// Why a scheduler could not be built.
#[derive(Debug)]
pub enum SchedulerError {
    Unsupported(&'static str),
}

impl SchedulerError {
    /// A human-readable account of the error.
    pub fn message(&self) -> (r: String)
        ensures
            match *self {
                SchedulerError::Unsupported(name) => r@ == "scheduler '"@ + name@
                    + "' is not implemented"@,
            },
    {
        match self {
            SchedulerError::Unsupported(name) => {
                let mut s = String::from_str("scheduler '");
                s.append(name);
                s.append("' is not implemented");
                s
            },
        }
    }
}

/// A configured scheduling algorithm instance.
pub enum Scheduler {
    Mirror(MirrorScheduler),
    WeightedRoundRobin(WeightedRoundRobinScheduler),
    Replica2Weighted(Replica2WeightedScheduler),
}

impl Scheduler {
    /// Validity of the scheduler's internal state.
    pub open spec fn wf(self) -> bool {
        match self {
            Scheduler::Mirror(_) => true,
            Scheduler::WeightedRoundRobin(s) => entries_wf(s.entries@),
            Scheduler::Replica2Weighted(s) => entries_wf(s.fallback.entries@),
        }
    }

    /// Headroom the scheduler's counters need for one round.
    pub open spec fn counters_ok(self, n_links: int) -> bool {
        match self {
            Scheduler::Replica2Weighted(s) => replica2_counters_ok(s.metrics, n_links),
            _ => true,
        }
    }

    /// One scheduling decision, dispatched to the configured algorithm.
    pub fn select_paths(
        &mut self,
        pkt_len: usize,
        meta: &PacketMeta,
        links: &mut Vec<LinkState>,
    ) -> (r: Vec<PathId>)
        requires
            old(self).wf(),
            ids_distinct(old(links)@),
            old(self).counters_ok(old(links)@.len() as int),
        ensures
            final(self).wf(),
            ({
                let links0 = old(links)@;
                match *old(self) {
                    Scheduler::Mirror(_) => {
                        &&& *final(self) == *old(self)
                        &&& r@ == eligible_ids(links0, pkt_len)
                        &&& final(links)@ == mirror_reserved(links0, pkt_len)
                    },
                    Scheduler::WeightedRoundRobin(s0) => {
                        &&& *final(self) is WeightedRoundRobin
                        &&& (*final(self))->WeightedRoundRobin_0.entries@ == wrr_updated_entries(
                            s0.entries@,
                            links0,
                            pkt_len,
                        )
                        &&& r@ == wrr_selected_ids(s0.entries@, links0, pkt_len)
                        &&& final(links)@ == wrr_updated_links(s0.entries@, links0, pkt_len)
                    },
                    Scheduler::Replica2Weighted(s0) => {
                        &&& *final(self) is Replica2Weighted
                        &&& replica2_round_post(
                            s0,
                            (*final(self))->Replica2Weighted_0,
                            links0,
                            final(links)@,
                            r@,
                            pkt_len,
                        )
                    },
                }
            }),
    {
        match self {
            Scheduler::Mirror(s) => s.select_paths(pkt_len, meta, links),
            Scheduler::WeightedRoundRobin(s) => s.select_paths(pkt_len, meta, links),
            Scheduler::Replica2Weighted(s) => s.select_paths(pkt_len, meta, links),
        }
    }

    /// The scheduler's counters; algorithms without counters report zeros.
    pub fn metrics(&self) -> (r: SchedulerMetrics)
        ensures
            r == match *self {
                Scheduler::Replica2Weighted(s) => s.metrics,
                _ => SchedulerMetrics::zero(),
            },
    {
        match self {
            Scheduler::Replica2Weighted(s) => s.metrics(),
            _ => SchedulerMetrics::default(),
        }
    }
}

/// Maps a configured algorithm to a ready scheduler instance.
pub struct SchedulerFactory;

impl SchedulerFactory {
    pub fn build(algorithm: SchedulerAlgorithm, config: &AggregationConfig) -> (r: Result<
        Scheduler,
        SchedulerError,
    >)
        ensures
            match r {
                Ok(s) => {
                    &&& s.wf()
                    &&& match algorithm {
                        SchedulerAlgorithm::Mirror => s is Mirror,
                        SchedulerAlgorithm::WeightedRoundRobin => s is WeightedRoundRobin
                            && s->WeightedRoundRobin_0.entries@.len() == 0,
                        SchedulerAlgorithm::Replica2Weighted => {
                            &&& s is Replica2Weighted
                            &&& s->Replica2Weighted_0.min_links_for_aggregation
                                == config.min_links_for_aggregation
                            &&& s->Replica2Weighted_0.config == config.replica2
                            &&& s->Replica2Weighted_0.fallback.entries@.len() == 0
                            &&& s->Replica2Weighted_0.metrics == SchedulerMetrics::zero()
                        },
                        SchedulerAlgorithm::FecKn => false,
                    }
                },
                Err(e) => algorithm is FecKn && match e {
                    SchedulerError::Unsupported(name) => name@ == "fec_kn"@,
                },
            },
    {
        match algorithm {
            SchedulerAlgorithm::Mirror => Ok(Scheduler::Mirror(MirrorScheduler::default())),
            SchedulerAlgorithm::WeightedRoundRobin => Ok(
                Scheduler::WeightedRoundRobin(WeightedRoundRobinScheduler::default()),
            ),
            SchedulerAlgorithm::Replica2Weighted => {
                let fallback = WeightedRoundRobinScheduler::default();
                Ok(
                    Scheduler::Replica2Weighted(
                        Replica2WeightedScheduler::new(
                            config.min_links_for_aggregation,
                            config.replica2,
                            fallback,
                        ),
                    ),
                )
            },
            SchedulerAlgorithm::FecKn => Err(SchedulerError::Unsupported("fec_kn")),
        }
    }
}

/// Token reservation under mirror scheduling: a link returned by the round
/// had the tokens and paid exactly `pkt_len`; every other link is
/// untouched.
pub proof fn lemma_mirror_token_reservation(
    links0: Seq<LinkState>,
    links1: Seq<LinkState>,
    r: Seq<PathId>,
    pkt_len: usize,
)
    requires
        ids_distinct(links0),
        r == eligible_ids(links0, pkt_len),
        links1 == mirror_reserved(links0, pkt_len),
    ensures
        links1.len() == links0.len(),
        forall|i: int|
            0 <= i < links0.len() ==> if r.contains(#[trigger] links0[i].id) {
                links0[i].tokens >= pkt_len && links1[i] == reserved(links0[i], pkt_len)
            } else {
                links1[i] == links0[i]
            },
{
    lemma_mirror_selects_exactly_eligible(links0, pkt_len);
}

/// Token reservation under weighted round-robin: the winning link had the
/// tokens and paid exactly `pkt_len`; every other link is untouched.
pub proof fn lemma_wrr_token_reservation(
    entries0: Seq<WeightedEntry>,
    links0: Seq<LinkState>,
    links1: Seq<LinkState>,
    r: Seq<PathId>,
    pkt_len: usize,
)
    requires
        ids_distinct(links0),
        r == wrr_selected_ids(entries0, links0, pkt_len),
        links1 == wrr_updated_links(entries0, links0, pkt_len),
    ensures
        links1.len() == links0.len(),
        forall|i: int|
            0 <= i < links0.len() ==> if r.contains(#[trigger] links0[i].id) {
                links0[i].tokens >= pkt_len && links1[i] == reserved(links0[i], pkt_len)
            } else {
                links1[i] == links0[i]
            },
{
    let reb = rebuilt_entries(entries0, links0);
    let bum = bumped_entries(reb, links0, pkt_len);
    match wrr_best(bum, links0, pkt_len) {
        None => {
            assert(r.len() == 0);
            assert forall|i: int| 0 <= i < links0.len() implies !r.contains(
                #[trigger] links0[i].id,
            ) by {}
        },
        Some(k) => {
            lemma_rebuilt_wf(entries0, links0);
            assert forall|i: int| 0 <= i < bum.len() implies bum[i].id == reb[i].id && bum[i]
                .weight_milli == reb[i].weight_milli by {}
            lemma_wrr_best_props(bum, links0, pkt_len);
            let id = bum[k].id;
            let j = choose|j: int| 0 <= j < links0.len() && links0[j].id == id;
            assert(eligible_link_with(links0, id, pkt_len));
            let w = choose|w: int|
                0 <= w < links0.len() && links0[w].id == id && link_eligible(links0[w], pkt_len);
            assert(w == j);
            assert forall|i: int|
                0 <= i < links0.len() implies if r.contains(#[trigger] links0[i].id) {
                links0[i].tokens >= pkt_len && links1[i] == reserved(links0[i], pkt_len)
            } else {
                links1[i] == links0[i]
            } by {
                if r.contains(links0[i].id) {
                    assert(r[0] == id);
                    assert(links0[i].id == id);
                    assert(i == j);
                } else {
                    if links0[i].id == id {
                        assert(r[0] == links0[i].id);
                        assert(r.contains(links0[i].id));
                        assert(false);
                    }
                    assert(i != j);
                }
            }
        },
    }
}

/// No candidate means no eligible link at all.
pub proof fn lemma_no_candidates_no_eligible(
    cfg: Replica2WeightedConfig,
    links: Seq<LinkState>,
    pkt_len: usize,
)
    requires
        candidates_spec(cfg, links, pkt_len).len() == 0,
    ensures
        forall|i: int| 0 <= i < links.len() ==> !link_eligible(#[trigger] links[i], pkt_len),
    decreases links.len(),
{
    if links.len() > 0 {
        lemma_no_candidates_no_eligible(cfg, links.drop_last(), pkt_len);
        assert forall|i: int| 0 <= i < links.len() implies !link_eligible(
            #[trigger] links[i],
            pkt_len,
        ) by {
            if i < links.len() - 1 {
                assert(links.drop_last()[i] == links[i]);
            }
        }
    }
}

/// When no link is eligible, the weighted round-robin round selects
/// nothing and leaves every link untouched.
pub proof fn lemma_wrr_empty_when_no_eligible(
    entries0: Seq<WeightedEntry>,
    links: Seq<LinkState>,
    pkt_len: usize,
)
    requires
        forall|i: int| 0 <= i < links.len() ==> !link_eligible(#[trigger] links[i], pkt_len),
    ensures
        wrr_selected_ids(entries0, links, pkt_len).len() == 0,
        wrr_updated_links(entries0, links, pkt_len) == links,
{
    let reb = rebuilt_entries(entries0, links);
    let bum = bumped_entries(reb, links, pkt_len);
    assert forall|j: int| 0 <= j < bum.len() implies !entry_eligible(
        #[trigger] bum[j],
        links,
        pkt_len,
    ) by {
        if eligible_link_with(links, bum[j].id, pkt_len) {
            let w = choose|w: int|
                0 <= w < links.len() && links[w].id == bum[j].id && link_eligible(
                    links[w],
                    pkt_len,
                );
            assert(false);
        }
    }
    lemma_wrr_best_none(bum, links, pkt_len);
}

/// A round over a list with no participating slot has no winner.
pub proof fn lemma_wrr_best_none(
    entries: Seq<WeightedEntry>,
    links: Seq<LinkState>,
    pkt_len: usize,
)
    requires
        forall|j: int| 0 <= j < entries.len() ==> !entry_eligible(
            #[trigger] entries[j],
            links,
            pkt_len,
        ),
    ensures
        wrr_best(entries, links, pkt_len) is None,
    decreases entries.len(),
{
    if entries.len() > 0 {
        let prefix = entries.drop_last();
        assert forall|j: int| 0 <= j < prefix.len() implies !entry_eligible(
            #[trigger] prefix[j],
            links,
            pkt_len,
        ) by {
            assert(prefix[j] == entries[j]);
        }
        lemma_wrr_best_none(prefix, links, pkt_len);
    }
}

/// How many ids one replica-two round returns: two distinct ids whenever
/// at least two links are eligible, exactly one when exactly one link is,
/// and none at all when none is — provided the up-link threshold is met.
/// (With the threshold missed the round falls back to round-robin, which
/// returns at most one id.)
pub proof fn lemma_replica2_cardinality(
    s0: Replica2WeightedScheduler,
    s1: Replica2WeightedScheduler,
    links0: Seq<LinkState>,
    links1: Seq<LinkState>,
    r: Seq<PathId>,
    pkt_len: usize,
)
    requires
        replica2_round_post(s0, s1, links0, links1, r, pkt_len),
        ids_distinct(links0),
        links0.len() <= usize::MAX,
        up_count(links0) >= if s0.min_links_for_aggregation > 3 {
            s0.min_links_for_aggregation as int
        } else {
            3
        },
    ensures
        candidates_spec(s0.config, links0, pkt_len).len() >= 2 ==> r.len() == 2 && r[0] != r[1],
        candidates_spec(s0.config, links0, pkt_len).len() == 1 ==> r.len() == 1,
        candidates_spec(s0.config, links0, pkt_len).len() == 0 ==> r.len() == 0 && links1
            == links0,
{
    let cands = candidates_spec(s0.config, links0, pkt_len);
    if cands.len() == 0 {
        lemma_no_candidates_no_eligible(s0.config, links0, pkt_len);
        lemma_wrr_empty_when_no_eligible(s0.fallback.entries@, links0, pkt_len);
    }
}

/// Token reservation under replica-two scheduling: every link returned by
/// the round had the tokens and paid exactly `pkt_len`; every other link
/// is untouched.
#[verifier::rlimit(60)]
pub proof fn lemma_replica2_token_reservation(
    s0: Replica2WeightedScheduler,
    s1: Replica2WeightedScheduler,
    links0: Seq<LinkState>,
    links1: Seq<LinkState>,
    r: Seq<PathId>,
    pkt_len: usize,
)
    requires
        replica2_round_post(s0, s1, links0, links1, r, pkt_len),
        ids_distinct(links0),
        links0.len() <= usize::MAX,
    ensures
        links1.len() == links0.len(),
        forall|i: int|
            0 <= i < links0.len() ==> if r.contains(#[trigger] links0[i].id) {
                links0[i].tokens >= pkt_len && links1[i] == reserved(links0[i], pkt_len)
            } else {
                links1[i] == links0[i]
            },
{
    let cands = candidates_spec(s0.config, links0, pkt_len);
    let min_eff: int = if s0.min_links_for_aggregation > 3 {
        s0.min_links_for_aggregation as int
    } else {
        3
    };
    lemma_candidates_shape(s0.config, links0, pkt_len);
    if up_count(links0) < min_eff || cands.len() == 0 {
        lemma_wrr_token_reservation(s0.fallback.entries@, links0, links1, r, pkt_len);
    } else if cands.len() == 1 {
        let c = cands[0];
        assert forall|i: int|
            0 <= i < links0.len() implies if r.contains(#[trigger] links0[i].id) {
            links0[i].tokens >= pkt_len && links1[i] == reserved(links0[i], pkt_len)
        } else {
            links1[i] == links0[i]
        } by {
            if r.contains(links0[i].id) {
                assert(r[0] == c.id);
                assert(links0[i].id == links0[c.index as int].id);
                assert(i == c.index as int);
            } else {
                if i == c.index as int {
                    assert(r[0] == links0[i].id);
                    assert(r.contains(links0[i].id));
                    assert(false);
                }
            }
        }
    } else {
        let a = r2_best(cands, -1)->0;
        let b = r2_best(cands, a)->0;
        let ca = cands[a];
        let cb = cands[b];
        assert forall|i1: int, j1: int| 0 <= i1 < j1 < cands.len() implies cands[i1].id
            != cands[j1].id by {
            assert(cands[i1].index < cands[j1].index);
            assert(cands[i1].id == links0[cands[i1].index as int].id);
            assert(cands[j1].id == links0[cands[j1].index as int].id);
        }
        lemma_r2_best_props(cands, -1);
        lemma_r2_best_props(cands, a);
        assert(ca.index != cb.index);
        assert forall|i: int|
            0 <= i < links0.len() implies if r.contains(#[trigger] links0[i].id) {
            links0[i].tokens >= pkt_len && links1[i] == reserved(links0[i], pkt_len)
        } else {
            links1[i] == links0[i]
        } by {
            if r.contains(links0[i].id) {
                assert(r[0] == ca.id && r[1] == cb.id);
                if links0[i].id == ca.id {
                    assert(i == ca.index as int);
                } else {
                    assert(links0[i].id == cb.id);
                    assert(i == cb.index as int);
                }
            } else {
                if i == ca.index as int {
                    assert(r[0] == links0[i].id);
                    assert(r.contains(links0[i].id));
                    assert(false);
                }
                if i == cb.index as int {
                    assert(r[1] == links0[i].id);
                    assert(r.contains(links0[i].id));
                    assert(false);
                }
            }
        }
    }
}

/// The accumulator total of a rotation list.
pub open spec fn cw_sum(entries: Seq<WeightedEntry>) -> int
    decreases entries.len(),
{
    if entries.len() == 0 {
        0
    } else {
        cw_sum(entries.drop_last()) + entries.last().current_weight
    }
}

/// No accumulator move of this round hits the ends of the integer range.
pub open spec fn wrr_round_unsaturated(
    entries: Seq<WeightedEntry>,
    links: Seq<LinkState>,
    pkt_len: usize,
) -> bool {
    let total = eligible_weight_total(entries, links, pkt_len);
    forall|i: int|
        0 <= i < entries.len() ==> {
            let e = #[trigger] entries[i];
            &&& e.current_weight + e.weight_milli <= i128::MAX
            &&& e.current_weight - total >= i128::MIN
        }
}

/// Smooth round-robin accounting, the heart of long-run fairness: in a
/// round where every slot takes part, every accumulator grows by its own
/// weight and the winner's falls by the round's total, so the accumulator
/// total is conserved. Over many such rounds each slot's accumulator
/// equals (rounds so far) * weight - (wins so far) * total, and since the
/// accumulators stay bounded, each slot's share of wins approaches its
/// share of the total weight.
pub proof fn lemma_wrr_fairness_accounting(
    entries0: Seq<WeightedEntry>,
    links: Seq<LinkState>,
    pkt_len: usize,
)
    requires
        ids_distinct(links),
        ({
            let reb = rebuilt_entries(entries0, links);
            forall|i: int| 0 <= i < reb.len() ==> entry_eligible(
                #[trigger] reb[i],
                links,
                pkt_len,
            )
        }),
        wrr_round_unsaturated(rebuilt_entries(entries0, links), links, pkt_len),
    ensures
        ({
            let reb = rebuilt_entries(entries0, links);
            let fin = wrr_updated_entries(entries0, links, pkt_len);
            let total = eligible_weight_total(reb, links, pkt_len);
            let sel = wrr_selected_ids(entries0, links, pkt_len);
            &&& fin.len() == reb.len()
            &&& forall|i: int|
                0 <= i < reb.len() ==> (#[trigger] fin[i]).id == reb[i].id && fin[i].weight_milli
                    == reb[i].weight_milli
            &&& reb.len() > 0 ==> sel.len() == 1
            &&& forall|i: int|
                0 <= i < reb.len() ==> (#[trigger] fin[i]).current_weight == reb[i].current_weight
                    + reb[i].weight_milli - (if sel.contains(reb[i].id) {
                    total
                } else {
                    0
                })
            &&& cw_sum(fin) == cw_sum(reb)
        }),
{
    let reb = rebuilt_entries(entries0, links);
    let bum = bumped_entries(reb, links, pkt_len);
    let total = eligible_weight_total(reb, links, pkt_len);
    let fin = wrr_updated_entries(entries0, links, pkt_len);
    let sel = wrr_selected_ids(entries0, links, pkt_len);
    lemma_rebuilt_wf(entries0, links);
    assert forall|i: int| 0 <= i < bum.len() implies bum[i].id == reb[i].id && bum[i].weight_milli
        == reb[i].weight_milli by {}
    lemma_total_eq_on_bump(reb, bum, links, pkt_len);
    lemma_total_bounds(reb, links, pkt_len);
    lemma_wrr_best_props(bum, links, pkt_len);
    match wrr_best(bum, links, pkt_len) {
        None => {
            if reb.len() > 0 {
                assert(entry_eligible(reb[0], links, pkt_len));
                assert(entry_eligible(bum[0], links, pkt_len));
            }
            assert(reb.len() == 0);
            assert(fin =~= reb);
        },
        Some(k) => {
            assert(total > 0) by {
                lemma_total_positive(reb, links, pkt_len, k);
            }
            assert forall|i: int|
                0 <= i < reb.len() implies (#[trigger] fin[i]).current_weight == reb[i]
                .current_weight + reb[i].weight_milli - (if sel.contains(reb[i].id) {
                total
            } else {
                0
            }) by {
                assert(entry_eligible(reb[i], links, pkt_len));
                assert(bum[i].current_weight == sat_add_i128_spec(
                    reb[i].current_weight as int,
                    reb[i].weight_milli as int,
                ));
                assert(bum[i].current_weight == reb[i].current_weight + reb[i].weight_milli);
                if i == k {
                    assert(sel[0] == reb[i].id);
                    assert(sel.contains(reb[i].id));
                    assert(fin[i].current_weight == sat_add_i128_spec(
                        bum[k].current_weight as int,
                        -total,
                    ));
                } else {
                    assert(fin[i] == bum[i]);
                    if sel.contains(reb[i].id) {
                        assert(sel[0] == bum[k].id);
                        assert(reb[i].id == reb[k].id);
                        assert(false);
                    }
                }
            }
            lemma_cw_sum_pointwise(reb, bum, fin, links, pkt_len, k, total);
        },
    }
}

/// The up links of a slice, in order.
pub open spec fn up_links(links: Seq<LinkState>) -> Seq<LinkState>
    decreases links.len(),
{
    if links.len() == 0 {
        Seq::empty()
    } else {
        let rest = up_links(links.drop_last());
        if links.last().up {
            rest.push(links.last())
        } else {
            rest
        }
    }
}

/// A rebuilt rotation list slot for slot: one per up link, each the
/// rebuilt slot of that link.
pub proof fn lemma_rebuilt_pointwise(x: Seq<WeightedEntry>, links: Seq<LinkState>)
    ensures
        rebuilt_entries(x, links).len() == up_links(links).len(),
        forall|j: int|
            0 <= j < up_links(links).len() ==> #[trigger] rebuilt_entries(x, links)[j]
                == rebuilt_entry(x, up_links(links)[j]),
    decreases links.len(),
{
    if links.len() > 0 {
        lemma_rebuilt_pointwise(x, links.drop_last());
    }
}

/// A rotation list shaped like the up links — right ids, right weights,
/// one slot per up link, no repeated id — is a fixed point of rebuilding:
/// every slot keeps its accumulator.
pub proof fn lemma_rebuilt_stable(x: Seq<WeightedEntry>, links: Seq<LinkState>)
    requires
        x.len() == up_links(links).len(),
        forall|j1: int, j2: int| 0 <= j1 < j2 < x.len() ==> x[j1].id != x[j2].id,
        forall|j: int|
            0 <= j < x.len() ==> (#[trigger] x[j]).id == up_links(links)[j].id && x[j].weight_milli
                == capped_weight(up_links(links)[j].weight_milli),
    ensures
        rebuilt_entries(x, links) == x,
{
    lemma_rebuilt_pointwise(x, links);
    assert forall|j: int| 0 <= j < x.len() implies #[trigger] rebuilt_entries(x, links)[j]
        == x[j] by {
        let l = up_links(links)[j];
        assert(x[j].id == l.id);
        let kk = choose|kk: int| 0 <= kk < x.len() && x[kk].id == l.id;
        assert(kk == j);
    }
    assert(rebuilt_entries(x, links) =~= x);
}

/// The rotation after a number of rounds against a fixed link slice, the
/// token buckets refreshed before every round.
pub open spec fn wrr_run(
    e0: Seq<WeightedEntry>,
    links: Seq<LinkState>,
    pkt_len: usize,
    k: nat,
) -> Seq<WeightedEntry>
    decreases k,
{
    if k == 0 {
        e0
    } else {
        wrr_updated_entries(wrr_run(e0, links, pkt_len, (k - 1) as nat), links, pkt_len)
    }
}

/// How often the slot holding a given id won during the first `k` rounds.
pub open spec fn wrr_wins(
    e0: Seq<WeightedEntry>,
    links: Seq<LinkState>,
    pkt_len: usize,
    k: nat,
    id: PathId,
) -> int
    decreases k,
{
    if k == 0 {
        0
    } else {
        wrr_wins(e0, links, pkt_len, (k - 1) as nat, id) + if wrr_selected_ids(
            wrr_run(e0, links, pkt_len, (k - 1) as nat),
            links,
            pkt_len,
        ).contains(id) {
            1int
        } else {
            0int
        }
    }
}

/// An eligible slot's weight is no more than the round's weight total.
proof fn lemma_weight_le_total(
    entries: Seq<WeightedEntry>,
    links: Seq<LinkState>,
    pkt_len: usize,
    i: int,
)
    requires
        0 <= i < entries.len(),
        entry_eligible(entries[i], links, pkt_len),
        forall|j: int| 0 <= j < entries.len() ==> entry_eligible(
            #[trigger] entries[j],
            links,
            pkt_len,
        ),
    ensures
        entries[i].weight_milli <= eligible_weight_total(entries, links, pkt_len),
    decreases entries.len(),
{
    let prefix = entries.drop_last();
    assert forall|j: int| 0 <= j < prefix.len() implies entry_eligible(
        #[trigger] prefix[j],
        links,
        pkt_len,
    ) by {
        assert(prefix[j] == entries[j]);
    }
    if i == entries.len() - 1 {
        lemma_total_nonneg_all(prefix, links, pkt_len);
    } else {
        lemma_weight_le_total(prefix, links, pkt_len, i);
    }
}

/// A round's weight total is never negative.
proof fn lemma_total_nonneg_all(entries: Seq<WeightedEntry>, links: Seq<LinkState>, pkt_len: usize)
    ensures
        eligible_weight_total(entries, links, pkt_len) >= 0,
    decreases entries.len(),
{
    if entries.len() > 0 {
        lemma_total_nonneg_all(entries.drop_last(), links, pkt_len);
    }
}

/// Long-run weighted round-robin fairness over a fixed, fully usable link
/// slice, the token buckets refreshed before every round: starting from a
/// fresh rotation, after any number of rounds every slot's accumulator
/// equals rounds * weight - wins * total. Divided by rounds, a slot's
/// share of wins differs from its share of the weight total by exactly
/// its accumulator over rounds-times-total, so the shares track the
/// weights as closely as the accumulators stay small.
#[verifier::rlimit(60)]
pub proof fn lemma_wrr_long_run_fairness(links: Seq<LinkState>, pkt_len: usize, k: nat)
    requires
        ids_distinct(links),
        links.len() > 0,
        forall|i: int|
            0 <= i < links.len() ==> (#[trigger] links[i]).up && links[i].tokens >= pkt_len
                && links[i].weight_milli > 0,
        (k + 1) * eligible_weight_total(
            rebuilt_entries(Seq::empty(), links),
            links,
            pkt_len,
        ) < i128::MAX,
    ensures
        ({
            let e0 = rebuilt_entries(Seq::<WeightedEntry>::empty(), links);
            let total = eligible_weight_total(e0, links, pkt_len);
            let fin = wrr_run(e0, links, pkt_len, k);
            &&& fin.len() == e0.len()
            &&& forall|i: int|
                0 <= i < e0.len() ==> (#[trigger] fin[i]).id == e0[i].id && fin[i].weight_milli
                    == e0[i].weight_milli
            &&& forall|i: int|
                0 <= i < e0.len() ==> (#[trigger] fin[i]).current_weight == k * e0[i].weight_milli
                    - wrr_wins(e0, links, pkt_len, k, e0[i].id) * total
            &&& forall|i: int|
                0 <= i < e0.len() ==> 0 <= wrr_wins(e0, links, pkt_len, k, (#[trigger] e0[i]).id)
                    <= k
        }),
    decreases k,
{
    let e0 = rebuilt_entries(Seq::<WeightedEntry>::empty(), links);
    let total = eligible_weight_total(e0, links, pkt_len);
    lemma_rebuilt_wf(Seq::<WeightedEntry>::empty(), links);
    lemma_rebuilt_pointwise(Seq::<WeightedEntry>::empty(), links);
    lemma_total_nonneg_all(e0, links, pkt_len);
    assert(up_links(links).len() > 0);
    assert(e0.len() > 0);
    assert forall|i: int| 0 <= i < e0.len() implies entry_eligible(
        #[trigger] e0[i],
        links,
        pkt_len,
    ) by {
        lemma_up_link_membership(links, i);
        let l = up_links(links)[i];
        assert(e0[i] == rebuilt_entry(Seq::<WeightedEntry>::empty(), l));
        assert(e0[i].weight_milli == capped_weight(l.weight_milli));
    }
    if k == 0 {
    } else {
        assert((k + 1) * total >= k * total) by (nonlinear_arith)
            requires
                total >= 0,
                k >= 0,
        ;
        lemma_wrr_long_run_fairness(links, pkt_len, (k - 1) as nat);
        let prev = wrr_run(e0, links, pkt_len, (k - 1) as nat);
        let fin = wrr_run(e0, links, pkt_len, k);
        let sel = wrr_selected_ids(prev, links, pkt_len);

        assert forall|i: int| 0 <= i < e0.len() implies entry_eligible(
            #[trigger] prev[i],
            links,
            pkt_len,
        ) by {
            assert(prev[i].id == e0[i].id && prev[i].weight_milli == e0[i].weight_milli);
            assert(entry_eligible(e0[i], links, pkt_len));
        }
        assert forall|j1: int, j2: int| 0 <= j1 < j2 < prev.len() implies prev[j1].id
            != prev[j2].id by {
            assert(prev[j1].id == e0[j1].id && prev[j2].id == e0[j2].id);
        }
        lemma_rebuilt_stable(prev, links);
        lemma_total_eq_on_bump(e0, prev, links, pkt_len);

        assert(wrr_round_unsaturated(prev, links, pkt_len)) by {
            assert forall|i: int|
                0 <= i < prev.len() implies {
                let e = #[trigger] prev[i];
                &&& e.current_weight + e.weight_milli <= i128::MAX
                &&& e.current_weight - eligible_weight_total(prev, links, pkt_len) >= i128::MIN
            } by {
                let w = e0[i].weight_milli as int;
                let wins = wrr_wins(e0, links, pkt_len, (k - 1) as nat, e0[i].id);
                lemma_weight_le_total(e0, links, pkt_len, i);
                assert(prev[i].current_weight == (k - 1) * w - wins * total);
                assert((k - 1) * w <= (k - 1) * total) by (nonlinear_arith)
                    requires
                        0 <= w <= total,
                        k >= 1,
                ;
                assert(wins * total <= (k - 1) * total && 0 <= wins * total)
                    by (nonlinear_arith)
                    requires
                        0 <= wins <= k - 1,
                        total >= 0,
                ;
                assert((k - 1) * total + total == k * total) by (nonlinear_arith);
                assert(k * total + total == (k + 1) * total) by (nonlinear_arith);
            }
        }

        lemma_wrr_fairness_accounting(prev, links, pkt_len);

        assert forall|i: int|
            0 <= i < e0.len() implies (#[trigger] fin[i]).current_weight == k * e0[i].weight_milli
            - wrr_wins(e0, links, pkt_len, k, e0[i].id) * total && fin[i].id == e0[i].id && fin[i]
            .weight_milli == e0[i].weight_milli && 0 <= wrr_wins(e0, links, pkt_len, k, e0[i].id)
            <= k by {
            let w = e0[i].weight_milli as int;
            let wins_prev = wrr_wins(e0, links, pkt_len, (k - 1) as nat, e0[i].id);
            assert(fin[i].current_weight == prev[i].current_weight + prev[i].weight_milli - (
            if sel.contains(prev[i].id) {
                eligible_weight_total(prev, links, pkt_len)
            } else {
                0int
            }));
            assert((k - 1) * w + w == k * w) by (nonlinear_arith);
            if sel.contains(e0[i].id) {
                assert((wins_prev + 1) * total == wins_prev * total + total)
                    by (nonlinear_arith);
            }
        }
    }
}

/// Every up-link position holds an up link of the slice.
proof fn lemma_up_link_membership(links: Seq<LinkState>, j: int)
    requires
        0 <= j < up_links(links).len(),
    ensures
        exists|i: int|
            0 <= i < links.len() && links[i] == up_links(links)[j] && links[i].up,
    decreases links.len(),
{
    if links.len() > 0 {
        let prefix = links.drop_last();
        let ups = up_links(links);
        if links.last().up && j == ups.len() - 1 {
            let w = links.len() - 1;
            assert(0 <= w < links.len() && links[w] == ups[j] && links[w].up);
        } else {
            lemma_up_link_membership(prefix, j);
            let i = choose|i: int|
                0 <= i < prefix.len() && prefix[i] == up_links(prefix)[j] && prefix[i].up;
            assert(0 <= i < links.len() && links[i] == ups[j] && links[i].up);
        }
    }
}

/// The weight total of a round is untouched by the per-round bump.
proof fn lemma_total_eq_on_bump(
    reb: Seq<WeightedEntry>,
    bum: Seq<WeightedEntry>,
    links: Seq<LinkState>,
    pkt_len: usize,
)
    requires
        bum.len() == reb.len(),
        forall|i: int|
            0 <= i < reb.len() ==> (#[trigger] bum[i]).id == reb[i].id && bum[i].weight_milli
                == reb[i].weight_milli,
    ensures
        eligible_weight_total(bum, links, pkt_len) == eligible_weight_total(reb, links, pkt_len),
    decreases reb.len(),
{
    if reb.len() > 0 {
        let rp = reb.drop_last();
        let bp = bum.drop_last();
        assert forall|i: int|
            0 <= i < rp.len() implies (#[trigger] bp[i]).id == rp[i].id && bp[i].weight_milli
            == rp[i].weight_milli by {
            assert(bp[i] == bum[i] && rp[i] == reb[i]);
        }
        lemma_total_eq_on_bump(rp, bp, links, pkt_len);
        assert(entry_eligible(bum.last(), links, pkt_len) == entry_eligible(
            reb.last(),
            links,
            pkt_len,
        ));
    }
}

/// Summing accumulators after a bump of every slot and one set-back of the
/// winner: the bump adds the weight total, the set-back removes it.
proof fn lemma_cw_sum_pointwise(
    reb: Seq<WeightedEntry>,
    bum: Seq<WeightedEntry>,
    fin: Seq<WeightedEntry>,
    links: Seq<LinkState>,
    pkt_len: usize,
    k: int,
    total: int,
)
    requires
        bum.len() == reb.len(),
        fin.len() == reb.len(),
        0 <= k < reb.len(),
        total == eligible_weight_total(reb, links, pkt_len),
        forall|i: int| 0 <= i < reb.len() ==> entry_eligible(#[trigger] reb[i], links, pkt_len),
        forall|i: int|
            0 <= i < reb.len() ==> (#[trigger] fin[i]).current_weight == reb[i].current_weight
                + reb[i].weight_milli - (if i == k {
                total
            } else {
                0
            }),
    ensures
        cw_sum(fin) == cw_sum(reb),
    decreases reb.len(),
{
    lemma_cw_sum_shift(reb, fin, links, pkt_len, k, total);
}

/// Inductive helper: the accumulator total after adding every weight and
/// removing the total at one position is unchanged.
proof fn lemma_cw_sum_shift(
    reb: Seq<WeightedEntry>,
    fin: Seq<WeightedEntry>,
    links: Seq<LinkState>,
    pkt_len: usize,
    k: int,
    total: int,
)
    requires
        fin.len() == reb.len(),
        0 <= k < reb.len(),
        forall|i: int| 0 <= i < reb.len() ==> entry_eligible(#[trigger] reb[i], links, pkt_len),
        forall|i: int|
            0 <= i < reb.len() ==> (#[trigger] fin[i]).current_weight == reb[i].current_weight
                + reb[i].weight_milli - (if i == k {
                total
            } else {
                0
            }),
    ensures
        cw_sum(fin) == cw_sum(reb) + eligible_weight_total(reb, links, pkt_len) - total,
    decreases reb.len(),
{
    let rp = reb.drop_last();
    let fp = fin.drop_last();
    let last = reb.len() - 1;
    if k == last {
        lemma_cw_sum_bump_only(rp, fp, links, pkt_len);
    } else {
        assert forall|i: int|
            0 <= i < rp.len() implies (#[trigger] fp[i]).current_weight == rp[i].current_weight
            + rp[i].weight_milli - (if i == k {
            total
        } else {
            0
        }) by {
            assert(fp[i] == fin[i] && rp[i] == reb[i]);
        }
        assert forall|i: int| 0 <= i < rp.len() implies entry_eligible(
            #[trigger] rp[i],
            links,
            pkt_len,
        ) by {
            assert(rp[i] == reb[i]);
        }
        lemma_cw_sum_shift(rp, fp, links, pkt_len, k, total);
    }
}

/// Inductive helper: bumping every slot by its weight adds the weight
/// total to the accumulator total.
proof fn lemma_cw_sum_bump_only(
    reb: Seq<WeightedEntry>,
    fin: Seq<WeightedEntry>,
    links: Seq<LinkState>,
    pkt_len: usize,
)
    requires
        fin.len() == reb.len(),
        forall|i: int| 0 <= i < reb.len() ==> entry_eligible(#[trigger] reb[i], links, pkt_len),
        forall|i: int|
            0 <= i < reb.len() ==> (#[trigger] fin[i]).current_weight == reb[i].current_weight
                + reb[i].weight_milli,
    ensures
        cw_sum(fin) == cw_sum(reb) + eligible_weight_total(reb, links, pkt_len),
    decreases reb.len(),
{
    if reb.len() > 0 {
        let rp = reb.drop_last();
        let fp = fin.drop_last();
        assert forall|i: int|
            0 <= i < rp.len() implies (#[trigger] fp[i]).current_weight == rp[i].current_weight
            + rp[i].weight_milli by {
            assert(fp[i] == fin[i] && rp[i] == reb[i]);
        }
        assert forall|i: int| 0 <= i < rp.len() implies entry_eligible(
            #[trigger] rp[i],
            links,
            pkt_len,
        ) by {
            assert(rp[i] == reb[i]);
        }
        lemma_cw_sum_bump_only(rp, fp, links, pkt_len);
    }
}

} // verus!
