//! Server-side decisions: the registry of connected clients keyed by
//! source address, which clients a reply fans out to, and the two-byte
//! big-endian length framing the TCP transport uses. Sockets, timers and
//! the accept loop live outside the library.

use vstd::prelude::*;
use crate::config::WebManagerConfig;

verus! {

/// The server's transport towards its clients.
#[derive(Debug, Clone, Copy, PartialEq, Eq, Structural)]
pub enum Mode {
    Udp,
    Tcp,
}

impl Default for Mode {
    fn default() -> (r: Self)
        ensures
            r == Mode::Udp,
    {
        Mode::Udp
    }
}

/// The server's configuration.
#[derive(Debug, Clone)]
pub struct ServerConfig {
    pub description: Option<String>,
    pub listen_addr: String,
    pub dst_addr: String,
    /// Per-send deadline, in milliseconds.
    pub write_timeout: Option<u64>,
    /// Seconds of silence after which a client is dropped.
    pub client_timeout: Option<u64>,
    pub web_manager: Option<WebManagerConfig>,
    pub mode: Mode,
}

/// One connected client: its registry key (the textual source address),
/// and when it was last heard from.
#[derive(Debug)]
pub struct ClientEntry {
    pub key: String,
    /// Monotonic timestamp of the last datagram from this client, in
    /// microseconds; timestamps are supplied by the caller.
    pub last_micros: u64,
}

/// A key is registered.
pub open spec fn client_with_key(clients: Seq<ClientEntry>, key: Seq<char>) -> bool {
    exists|i: int| 0 <= i < clients.len() && clients[i].key@ == key
}

/// A client heard from at `last` is still alive at `now` under the given
/// timeout; a timestamp from the future counts as just heard.
pub open spec fn alive_at(now_micros: u64, last_micros: u64, timeout_micros: u64) -> bool {
    (if now_micros >= last_micros {
        now_micros - last_micros
    } else {
        0
    }) < timeout_micros
}

/// The registry of connected clients, keyed by source address.
pub struct ClientRegistry {
    pub clients: Vec<ClientEntry>,
}

impl ClientRegistry {
    /// Validity: one entry per key.
    pub open spec fn wf(self) -> bool {
        forall|i: int, j: int|
            0 <= i < j < self.clients@.len() ==> (#[trigger] self.clients@[i]).key@ != (
            #[trigger] self.clients@[j]).key@
    }

    pub fn new() -> (r: Self)
        ensures
            r.wf(),
            r.clients@.len() == 0,
    {
        ClientRegistry { clients: Vec::new() }
    }

    fn find_pos(&self, key: &str) -> (r: Option<usize>)
        ensures
            match r {
                Some(j) => j < self.clients@.len() && self.clients@[j as int].key@ == key@,
                None => !client_with_key(self.clients@, key@),
            },
    {
        let n = self.clients.len();
        let mut i: usize = 0;
        while i < n
            invariant
                n == self.clients@.len(),
                i <= n,
                forall|k: int| 0 <= k < i ==> self.clients@[k].key@ != key@,
            decreases n - i,
        {
            let sa = self.clients[i].key.clone();
            let sb = key.to_owned();
            if sa == sb {
                return Some(i);
            }
            i = i + 1;
        }
        None
    }

    /// Records a datagram from a client: a known key is refreshed, a new
    /// one is registered.
    pub fn upsert(&mut self, key: &str, now_micros: u64)
        requires
            old(self).wf(),
        ensures
            final(self).wf(),
            ({
                let pre = old(self).clients@;
                if client_with_key(pre, key@) {
                    let k = choose|k: int| 0 <= k < pre.len() && pre[k].key@ == key@;
                    final(self).clients@ == pre.update(
                        k,
                        ClientEntry { last_micros: now_micros, ..pre[k] },
                    )
                } else {
                    &&& final(self).clients@.len() == pre.len() + 1
                    &&& final(self).clients@.subrange(0, pre.len() as int) == pre
                    &&& final(self).clients@.last().key@ == key@
                    &&& final(self).clients@.last().last_micros == now_micros
                }
            }),
    {
        match self.find_pos(key) {
            Some(j) => {
                proof {
                    let pre = self.clients@;
                    let k = choose|k: int| 0 <= k < pre.len() && pre[k].key@ == key@;
                    assert(k == j as int);
                }
                self.clients[j].last_micros = now_micros;
            },
            None => {
                let owned = key.to_owned();
                let ghost pre = self.clients@;
                self.clients.push(ClientEntry { key: owned, last_micros: now_micros });
                proof {
                    assert forall|x: int, y: int|
                        0 <= x < y < self.clients@.len() implies (
                        #[trigger] self.clients@[x]).key@ != (#[trigger] self.clients@[y]).key@ by {
                        if y == self.clients@.len() - 1 {
                            assert(self.clients@[x] == pre[x]);
                        } else {
                            assert(self.clients@[x] == pre[x] && self.clients@[y] == pre[y]);
                        }
                    }
                }
            },
        }
    }

    /// Drops a client; reports whether it was registered.
    pub fn remove(&mut self, key: &str) -> (removed: bool)
        requires
            old(self).wf(),
        ensures
            final(self).wf(),
            ({
                let pre = old(self).clients@;
                if client_with_key(pre, key@) {
                    let k = choose|k: int| 0 <= k < pre.len() && pre[k].key@ == key@;
                    removed && final(self).clients@ == pre.remove(k)
                } else {
                    !removed && final(self).clients@ == pre
                }
            }),
    {
        match self.find_pos(key) {
            Some(j) => {
                proof {
                    let pre = self.clients@;
                    let k = choose|k: int| 0 <= k < pre.len() && pre[k].key@ == key@;
                    assert(k == j as int);
                }
                let ghost pre = self.clients@;
                self.clients.remove(j);
                proof {
                    assert forall|x: int, y: int|
                        0 <= x < y < self.clients@.len() implies (
                        #[trigger] self.clients@[x]).key@ != (#[trigger] self.clients@[y]).key@ by {
                        let xx = if x < j { x } else { x + 1 };
                        let yy = if y < j { y } else { y + 1 };
                        assert(self.clients@[x] == pre[xx]);
                        assert(self.clients@[y] == pre[yy]);
                    }
                }
                true
            },
            None => false,
        }
    }

    /// The keys a reply datagram fans out to: every client still alive at
    /// `now`, in registry order; the stale rest is reported for removal.
    pub fn plan_broadcast(&self, now_micros: u64, timeout_micros: u64) -> (r: (
        Vec<String>,
        Vec<String>,
    ))
        ensures
            r.0@.len() == live_keys(self.clients@, now_micros, timeout_micros).len(),
            forall|k: int|
                0 <= k < r.0@.len() ==> (#[trigger] r.0@[k])@ == live_keys(
                    self.clients@,
                    now_micros,
                    timeout_micros,
                )[k],
            r.1@.len() == stale_keys(self.clients@, now_micros, timeout_micros).len(),
            forall|k: int|
                0 <= k < r.1@.len() ==> (#[trigger] r.1@[k])@ == stale_keys(
                    self.clients@,
                    now_micros,
                    timeout_micros,
                )[k],
    {
        let mut live: Vec<String> = Vec::new();
        let mut stale: Vec<String> = Vec::new();
        let n = self.clients.len();
        let mut i: usize = 0;
        while i < n
            invariant
                n == self.clients@.len(),
                i <= n,
                live@.len() == live_keys(
                    self.clients@.subrange(0, i as int),
                    now_micros,
                    timeout_micros,
                ).len(),
                forall|k: int|
                    0 <= k < live@.len() ==> (#[trigger] live@[k])@ == live_keys(
                        self.clients@.subrange(0, i as int),
                        now_micros,
                        timeout_micros,
                    )[k],
                stale@.len() == stale_keys(
                    self.clients@.subrange(0, i as int),
                    now_micros,
                    timeout_micros,
                ).len(),
                forall|k: int|
                    0 <= k < stale@.len() ==> (#[trigger] stale@[k])@ == stale_keys(
                        self.clients@.subrange(0, i as int),
                        now_micros,
                        timeout_micros,
                    )[k],
            decreases n - i,
        {
            proof {
                assert(self.clients@.subrange(0, i as int + 1).drop_last() =~= self
                    .clients@.subrange(0, i as int));
                assert(self.clients@.subrange(0, i as int + 1).last() == self.clients@[i as int]);
            }
            let c = &self.clients[i];
            let elapsed = if now_micros >= c.last_micros {
                now_micros - c.last_micros
            } else {
                0
            };
            if elapsed < timeout_micros {
                live.push(c.key.clone());
            } else {
                stale.push(c.key.clone());
            }
            i = i + 1;
        }
        proof {
            assert(self.clients@.subrange(0, n as int) =~= self.clients@);
        }
        (live, stale)
    }
}

/// The keys of the clients still alive at `now`, in registry order.
pub open spec fn live_keys(clients: Seq<ClientEntry>, now_micros: u64, timeout_micros: u64) -> Seq<
    Seq<char>,
>
    decreases clients.len(),
{
    if clients.len() == 0 {
        Seq::empty()
    } else {
        let rest = live_keys(clients.drop_last(), now_micros, timeout_micros);
        if alive_at(now_micros, clients.last().last_micros, timeout_micros) {
            rest.push(clients.last().key@)
        } else {
            rest
        }
    }
}

/// The keys of the clients whose silence outlived the timeout, in
/// registry order.
pub open spec fn stale_keys(clients: Seq<ClientEntry>, now_micros: u64, timeout_micros: u64) -> Seq<
    Seq<char>,
>
    decreases clients.len(),
{
    if clients.len() == 0 {
        Seq::empty()
    } else {
        let rest = stale_keys(clients.drop_last(), now_micros, timeout_micros);
        if alive_at(now_micros, clients.last().last_micros, timeout_micros) {
            rest
        } else {
            rest.push(clients.last().key@)
        }
    }
}

/// The broadcast plan reaches every living client and no dead one: a
/// client's key is among the live keys exactly when the client is alive,
/// and among the stale keys exactly when it is not — provided keys are
/// unique.
pub proof fn lemma_broadcast_partition(
    clients: Seq<ClientEntry>,
    now_micros: u64,
    timeout_micros: u64,
)
    requires
        forall|i: int, j: int|
            0 <= i < j < clients.len() ==> (#[trigger] clients[i]).key@ != (
            #[trigger] clients[j]).key@,
    ensures
        forall|i: int|
            0 <= i < clients.len() ==> (live_keys(clients, now_micros, timeout_micros).contains(
                (#[trigger] clients[i]).key@,
            ) <==> alive_at(now_micros, clients[i].last_micros, timeout_micros)),
        forall|i: int|
            0 <= i < clients.len() ==> (stale_keys(clients, now_micros, timeout_micros).contains(
                (#[trigger] clients[i]).key@,
            ) <==> !alive_at(now_micros, clients[i].last_micros, timeout_micros)),
    decreases clients.len(),
{
    if clients.len() > 0 {
        let prefix = clients.drop_last();
        lemma_broadcast_partition(prefix, now_micros, timeout_micros);
        let lv = live_keys(clients, now_micros, timeout_micros);
        let lvr = live_keys(prefix, now_micros, timeout_micros);
        let st = stale_keys(clients, now_micros, timeout_micros);
        let str0 = stale_keys(prefix, now_micros, timeout_micros);
        lemma_keys_from_clients(clients, now_micros, timeout_micros);
        lemma_keys_from_clients(prefix, now_micros, timeout_micros);
        assert forall|i: int|
            0 <= i < clients.len() implies (lv.contains((#[trigger] clients[i]).key@) <==> alive_at(
            now_micros,
            clients[i].last_micros,
            timeout_micros,
        )) && (st.contains(clients[i].key@) <==> !alive_at(
            now_micros,
            clients[i].last_micros,
            timeout_micros,
        )) by {
            let last = clients.len() - 1;
            if i < last {
                assert(prefix[i] == clients[i]);
                if alive_at(now_micros, clients[i].last_micros, timeout_micros) {
                    assert(lvr.contains(clients[i].key@));
                    let k = choose|k: int| 0 <= k < lvr.len() && lvr[k] == clients[i].key@;
                    assert(lv[k] == clients[i].key@);
                    if st.contains(clients[i].key@) {
                        let m = choose|m: int| 0 <= m < st.len() && st[m] == clients[i].key@;
                        if !alive_at(now_micros, clients[last].last_micros, timeout_micros) && m
                            == st.len() - 1 {
                            assert(clients[last].key@ == clients[i].key@);
                            assert(false);
                        } else {
                            assert(str0.contains(clients[i].key@));
                            assert(false);
                        }
                    }
                } else {
                    assert(str0.contains(clients[i].key@));
                    let k = choose|k: int| 0 <= k < str0.len() && str0[k] == clients[i].key@;
                    assert(st[k] == clients[i].key@);
                    if lv.contains(clients[i].key@) {
                        let m = choose|m: int| 0 <= m < lv.len() && lv[m] == clients[i].key@;
                        if alive_at(now_micros, clients[last].last_micros, timeout_micros) && m
                            == lv.len() - 1 {
                            assert(clients[last].key@ == clients[i].key@);
                            assert(false);
                        } else {
                            assert(lvr.contains(clients[i].key@));
                            assert(false);
                        }
                    }
                }
            } else {
                if alive_at(now_micros, clients[i].last_micros, timeout_micros) {
                    assert(lv.last() == clients[i].key@);
                    if st.contains(clients[i].key@) {
                        assert(str0.contains(clients[i].key@));
                        let k = choose|k: int| 0 <= k < str0.len() && str0[k] == clients[i].key@;
                        assert(false);
                    }
                } else {
                    assert(st.last() == clients[i].key@);
                    if lv.contains(clients[i].key@) {
                        assert(lvr.contains(clients[i].key@));
                        let k = choose|k: int| 0 <= k < lvr.len() && lvr[k] == clients[i].key@;
                        assert(false);
                    }
                }
            }
        }
    }
}

/// Every planned key belongs to some client of the matching standing.
proof fn lemma_keys_from_clients(clients: Seq<ClientEntry>, now_micros: u64, timeout_micros: u64)
    ensures
        forall|k: int|
            0 <= k < live_keys(clients, now_micros, timeout_micros).len()
                ==> client_with_key(
                clients,
                #[trigger] live_keys(clients, now_micros, timeout_micros)[k],
            ),
        forall|k: int|
            0 <= k < stale_keys(clients, now_micros, timeout_micros).len()
                ==> client_with_key(
                clients,
                #[trigger] stale_keys(clients, now_micros, timeout_micros)[k],
            ),
    decreases clients.len(),
{
    if clients.len() > 0 {
        let prefix = clients.drop_last();
        lemma_keys_from_clients(prefix, now_micros, timeout_micros);
        assert forall|k: int|
            0 <= k < live_keys(clients, now_micros, timeout_micros).len() implies client_with_key(
            clients,
            #[trigger] live_keys(clients, now_micros, timeout_micros)[k],
        ) by {
            let lv = live_keys(clients, now_micros, timeout_micros);
            let lvr = live_keys(prefix, now_micros, timeout_micros);
            if alive_at(now_micros, clients.last().last_micros, timeout_micros) && k == lv.len()
                - 1 {
                let w = clients.len() - 1;
                assert(0 <= w < clients.len() && clients[w].key@ == lv[k]);
            } else {
                assert(client_with_key(prefix, lvr[k]));
                let i = choose|i: int| 0 <= i < prefix.len() && prefix[i].key@ == lvr[k];
                assert(0 <= i < clients.len() && clients[i].key@ == lv[k]);
            }
        }
        assert forall|k: int|
            0 <= k < stale_keys(clients, now_micros, timeout_micros).len() implies client_with_key(
            clients,
            #[trigger] stale_keys(clients, now_micros, timeout_micros)[k],
        ) by {
            let st = stale_keys(clients, now_micros, timeout_micros);
            let str0 = stale_keys(prefix, now_micros, timeout_micros);
            if !alive_at(now_micros, clients.last().last_micros, timeout_micros) && k == st.len()
                - 1 {
                let w = clients.len() - 1;
                assert(0 <= w < clients.len() && clients[w].key@ == st[k]);
            } else {
                assert(client_with_key(prefix, str0[k]));
                let i = choose|i: int| 0 <= i < prefix.len() && prefix[i].key@ == str0[k];
                assert(0 <= i < clients.len() && clients[i].key@ == st[k]);
            }
        }
    }
}

/// The two-byte big-endian length prefix of the TCP transport's framing.
pub fn encode_frame_len(len: usize) -> (r: (u8, u8))
    requires
        len <= u16::MAX,
    ensures
        r.0 as int == len as int / 256,
        r.1 as int == len as int % 256,
{
    (((len / 256) as u8), ((len % 256) as u8))
}

/// The payload length a two-byte big-endian prefix announces.
pub fn decode_frame_len(hi: u8, lo: u8) -> (r: usize)
    ensures
        r as int == hi as int * 256 + lo as int,
        r <= u16::MAX,
{
    (hi as usize) * 256 + (lo as usize)
}

/// Round trip of the framing prefix: decoding an encoded length gives the
/// length back.
pub proof fn lemma_frame_len_round_trip(len: usize)
    requires
        len <= u16::MAX,
    ensures
        (len as int / 256) * 256 + (len as int % 256) == len as int,
{
}

} // verus!
