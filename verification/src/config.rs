//! Client configuration as the core sees it: plain values, read once at
//! startup. Parsing the configuration file and its serialization live
//! outside the library.

use vstd::prelude::*;

verus! {

/// A per-interface destination override.
#[derive(Debug, Clone)]
pub struct DstOverride {
    pub if_name: String,
    pub dst_addr: String,
}

/// Settings of the embedded management web server.
#[derive(Debug, Clone)]
pub struct WebManagerConfig {
    pub listen_addr: String,
    pub username: String,
    pub password: String,
}

/// The client's configuration.
#[derive(Debug, Clone)]
pub struct ClientConfig {
    pub description: Option<String>,
    pub listen_addr: String,
    pub dst_addr: String,
    /// Per-send deadline, in milliseconds.
    pub write_timeout: Option<u64>,
    pub excluded_interfaces: Vec<String>,
    pub dst_overrides: Vec<DstOverride>,
    pub web_manager: Option<WebManagerConfig>,
}

/// The destination an interface sends to: its first override in file
/// order, or the global default.
pub open spec fn dst_for(
    name: Seq<char>,
    overrides: Seq<DstOverride>,
    default_dst: Seq<char>,
) -> Seq<char>
    decreases overrides.len(),
{
    if overrides.len() == 0 {
        default_dst
    } else if overrides.first().if_name@ == name {
        overrides.first().dst_addr@
    } else {
        dst_for(name, overrides.drop_first(), default_dst)
    }
}

/// Resolves the destination address an interface sends to: a configured
/// override wins, otherwise the global default.
pub fn get_dst_by_ifname(ifname: &str, cfg: &ClientConfig) -> (r: String)
    ensures
        r@ == dst_for(ifname@, cfg.dst_overrides@, cfg.dst_addr@),
{
    let n = cfg.dst_overrides.len();
    let mut i: usize = 0;
    proof {
        assert(cfg.dst_overrides@.skip(0) =~= cfg.dst_overrides@);
    }
    while i < n
        invariant
            n == cfg.dst_overrides@.len(),
            i <= n,
            dst_for(ifname@, cfg.dst_overrides@, cfg.dst_addr@) == dst_for(
                ifname@,
                cfg.dst_overrides@.skip(i as int),
                cfg.dst_addr@,
            ),
        decreases n - i,
    {
        proof {
            let rest = cfg.dst_overrides@.skip(i as int);
            assert(rest.first() == cfg.dst_overrides@[i as int]);
            assert(rest.drop_first() =~= cfg.dst_overrides@.skip(i as int + 1));
        }
        let ov = &cfg.dst_overrides[i];
        let sa = ov.if_name.clone();
        let sb = ifname.to_owned();
        if sa == sb {
            return ov.dst_addr.clone();
        }
        i = i + 1;
    }
    proof {
        assert(cfg.dst_overrides@.skip(n as int) =~= Seq::<DstOverride>::empty());
    }
    cfg.dst_addr.clone()
}

} // verus!
