//! Address selection over an enumerated list of host interfaces. The
//! enumeration itself is I/O and happens outside the library; the rows it
//! yields — one interface name per assigned address, IPv4 addresses as
//! octets — are judged here.

use vstd::prelude::*;

verus! {

/// An IPv4 address as its four octets.
#[derive(Debug, Clone, Copy, PartialEq, Eq, Hash, Structural)]
pub struct Ipv4Octets {
    pub a: u8,
    pub b: u8,
    pub c: u8,
    pub d: u8,
}

/// A source address is usable if it is neither loopback (127.0.0.0/8) nor
/// link-local (169.254.0.0/16).
pub open spec fn usable_ipv4(ip: Ipv4Octets) -> bool {
    ip.a != 127 && !(ip.a == 169 && ip.b == 254)
}

/// One row of the host's interface enumeration: an interface name and one
/// of its addresses (`None` for an address family the core ignores).
#[derive(Debug, Clone)]
pub struct IfaceRow {
    pub name: String,
    pub ipv4: Option<Ipv4Octets>,
}

/// The source address chosen for an interface: the first usable IPv4
/// among its rows, in enumeration order.
pub open spec fn address_for(name: Seq<char>, rows: Seq<IfaceRow>) -> Option<Ipv4Octets>
    decreases rows.len(),
{
    if rows.len() == 0 {
        None
    } else if rows.first().name@ == name && rows.first().ipv4 is Some && usable_ipv4(
        rows.first().ipv4->0,
    ) {
        rows.first().ipv4
    } else {
        address_for(name, rows.drop_first())
    }
}

/// An interface is present if any enumeration row carries its name,
/// whatever the address family.
pub open spec fn present_in(name: Seq<char>, rows: Seq<IfaceRow>) -> bool {
    exists|i: int| 0 <= i < rows.len() && rows[i].name@ == name
}

/// Picks the source address for an interface: its first usable IPv4, in
/// enumeration order; loopback and link-local addresses never qualify.
pub fn get_address_by_interface(ifname: &str, rows: &Vec<IfaceRow>) -> (r: Option<Ipv4Octets>)
    ensures
        r == address_for(ifname@, rows@),
{
    let n = rows.len();
    let mut i: usize = 0;
    proof {
        assert(rows@.skip(0) =~= rows@);
    }
    while i < n
        invariant
            n == rows@.len(),
            i <= n,
            address_for(ifname@, rows@) == address_for(ifname@, rows@.skip(i as int)),
        decreases n - i,
    {
        proof {
            let rest = rows@.skip(i as int);
            assert(rest.first() == rows@[i as int]);
            assert(rest.drop_first() =~= rows@.skip(i as int + 1));
        }
        let row = &rows[i];
        let sa = row.name.clone();
        let sb = ifname.to_owned();
        if sa == sb {
            match row.ipv4 {
                Some(ip) => {
                    if ip.a != 127 && !(ip.a == 169 && ip.b == 254) {
                        return Some(ip);
                    }
                },
                None => {},
            }
        }
        i = i + 1;
    }
    proof {
        assert(rows@.skip(n as int) =~= Seq::<IfaceRow>::empty());
    }
    None
}

/// Whether the enumeration lists an interface under this name at all.
pub fn interface_exists(ifname: &str, rows: &Vec<IfaceRow>) -> (r: bool)
    ensures
        r == present_in(ifname@, rows@),
{
    let n = rows.len();
    let mut i: usize = 0;
    while i < n
        invariant
            n == rows@.len(),
            i <= n,
            forall|k: int| 0 <= k < i ==> rows@[k].name@ != ifname@,
        decreases n - i,
    {
        let sa = rows[i].name.clone();
        let sb = ifname.to_owned();
        if sa == sb {
            return true;
        }
        i = i + 1;
    }
    false
}

} // verus!
