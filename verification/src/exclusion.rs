//! The exclusion-swap set: the management surface can invert an
//! interface's configured exclusion at runtime without editing the
//! configuration. Effective exclusion is the configured flag XOR the swap
//! bit.

use vstd::prelude::*;

verus! {

/// A name is listed: some entry's characters are exactly the name's.
pub open spec fn name_in(list: Seq<String>, name: Seq<char>) -> bool {
    exists|i: int| 0 <= i < list.len() && list[i]@ == name
}

/// The set of interface names whose configured exclusion is inverted.
pub struct ExclusionSwaps {
    pub swapped: Vec<String>,
}

impl ExclusionSwaps {
    /// Validity: each name is listed at most once.
    pub open spec fn wf(self) -> bool {
        forall|i: int, j: int| 0 <= i < j < self.swapped@.len() ==> self.swapped@[i]@
            != self.swapped@[j]@
    }

    /// Whether a name's exclusion is currently inverted.
    pub open spec fn swapped_spec(self, name: Seq<char>) -> bool {
        name_in(self.swapped@, name)
    }

    pub fn new() -> (r: Self)
        ensures
            r.wf(),
            forall|n: Seq<char>| !r.swapped_spec(n),
    {
        ExclusionSwaps { swapped: Vec::new() }
    }

    pub fn is_swapped(&self, name: &str) -> (r: bool)
        ensures
            r == self.swapped_spec(name@),
    {
        let n = self.swapped.len();
        let mut i: usize = 0;
        while i < n
            invariant
                n == self.swapped@.len(),
                i <= n,
                forall|k: int| 0 <= k < i ==> self.swapped@[k]@ != name@,
            decreases n - i,
        {
            if str_eq_local(self.swapped[i].as_str(), name) {
                return true;
            }
            i = i + 1;
        }
        false
    }

    /// Inverts the swap bit of one interface: a swapped name is unswapped,
    /// an unswapped one becomes swapped. No other name is affected.
    pub fn swap_exclusion(&mut self, ifname: &str)
        requires
            old(self).wf(),
        ensures
            final(self).wf(),
            final(self).swapped_spec(ifname@) == !old(self).swapped_spec(ifname@),
            forall|n: Seq<char>|
                n != ifname@ ==> final(self).swapped_spec(n) == old(self).swapped_spec(n),
    {
        let n = self.swapped.len();
        let mut i: usize = 0;
        while i < n
            invariant
                n == self.swapped@.len(),
                i <= n,
                self.swapped@ == old(self).swapped@,
                old(self).wf(),
                forall|k: int| 0 <= k < i ==> self.swapped@[k]@ != ifname@,
            decreases n - i,
        {
            if str_eq_local(self.swapped[i].as_str(), ifname) {
                let ghost pre = self.swapped@;
                self.swapped.remove(i);
                proof {
                    assert forall|x: int, y: int|
                        0 <= x < y < self.swapped@.len() implies self.swapped@[x]@
                        != self.swapped@[y]@ by {
                        let cur = self.swapped@;
                        if x < i {
                            assert(cur[x] == pre[x]);
                        } else {
                            assert(cur[x] == pre[x + 1]);
                        }
                        if y < i {
                            assert(cur[y] == pre[y]);
                        } else {
                            assert(cur[y] == pre[y + 1]);
                        }
                    }
                    assert forall|m: Seq<char>| self.swapped_spec(m) == (if m == ifname@ {
                        false
                    } else {
                        old(self).swapped_spec(m)
                    }) by {
                        let cur = self.swapped@;
                        if name_in(cur, m) {
                            let k = choose|k: int| 0 <= k < cur.len() && cur[k]@ == m;
                            if k < i {
                                assert(pre[k]@ == m);
                            } else {
                                assert(pre[k + 1]@ == m);
                            }
                        }
                        if m == ifname@ {
                            if name_in(cur, m) {
                                let k = choose|k: int| 0 <= k < cur.len() && cur[k]@ == m;
                                if k < i {
                                    assert(pre[k]@ == m);
                                    assert(false);
                                } else {
                                    assert(pre[k + 1]@ == m);
                                    assert(false);
                                }
                            }
                        } else {
                            if name_in(pre, m) {
                                let k = choose|k: int| 0 <= k < pre.len() && pre[k]@ == m;
                                assert(k != i);
                                if k < i {
                                    assert(cur[k]@ == m);
                                } else {
                                    assert(cur[k - 1]@ == m);
                                }
                                assert(name_in(cur, m));
                            }
                        }
                    }
                }
                return ;
            }
            i = i + 1;
        }
        let owned = ifname.to_owned();
        let ghost pre = self.swapped@;
        self.swapped.push(owned);
        proof {
            assert(self.swapped@.last()@ == ifname@);
            assert forall|m: Seq<char>| self.swapped_spec(m) == (if m == ifname@ {
                true
            } else {
                old(self).swapped_spec(m)
            }) by {
                let cur = self.swapped@;
                if m == ifname@ {
                    assert(cur[cur.len() - 1]@ == m);
                } else {
                    if name_in(cur, m) {
                        let k = choose|k: int| 0 <= k < cur.len() && cur[k]@ == m;
                        assert(k < pre.len());
                        assert(pre[k]@ == m);
                    }
                    if name_in(pre, m) {
                        let k = choose|k: int| 0 <= k < pre.len() && pre[k]@ == m;
                        assert(cur[k]@ == m);
                    }
                }
            }
        }
    }

    /// Clears every swap bit.
    pub fn reset_exclusions(&mut self)
        ensures
            final(self).wf(),
            forall|n: Seq<char>| !final(self).swapped_spec(n),
    {
        self.swapped.clear();
    }

    /// Clears one interface's swap bit; reports whether anything changed.
    pub fn mark_included(&mut self, ifname: &str) -> (changed: bool)
        requires
            old(self).wf(),
        ensures
            final(self).wf(),
            changed == old(self).swapped_spec(ifname@),
            !final(self).swapped_spec(ifname@),
            forall|n: Seq<char>|
                n != ifname@ ==> final(self).swapped_spec(n) == old(self).swapped_spec(n),
    {
        if self.is_swapped(ifname) {
            self.swap_exclusion(ifname);
            true
        } else {
            false
        }
    }

    /// Sets one interface's swap bit; reports whether anything changed.
    pub fn exclude(&mut self, ifname: &str) -> (changed: bool)
        requires
            old(self).wf(),
        ensures
            final(self).wf(),
            changed == !old(self).swapped_spec(ifname@),
            final(self).swapped_spec(ifname@),
            forall|n: Seq<char>|
                n != ifname@ ==> final(self).swapped_spec(n) == old(self).swapped_spec(n),
    {
        if !self.is_swapped(ifname) {
            self.swap_exclusion(ifname);
            true
        } else {
            false
        }
    }
}

/// Toggling one interface's swap bit twice restores every interface's
/// effective exclusion: the first toggle inverts the bit, the second
/// inverts it back, and no other name is touched either time.
pub proof fn lemma_swap_exclusion_involution(
    s0: ExclusionSwaps,
    s1: ExclusionSwaps,
    s2: ExclusionSwaps,
    ifname: Seq<char>,
    excl: Seq<String>,
)
    requires
        s1.swapped_spec(ifname) == !s0.swapped_spec(ifname),
        forall|n: Seq<char>| n != ifname ==> s1.swapped_spec(n) == s0.swapped_spec(n),
        s2.swapped_spec(ifname) == !s1.swapped_spec(ifname),
        forall|n: Seq<char>| n != ifname ==> s2.swapped_spec(n) == s1.swapped_spec(n),
    ensures
        forall|n: Seq<char>| s2.swapped_spec(n) == s0.swapped_spec(n),
        forall|n: Seq<char>|
            effectively_excluded(n, excl, s2) == effectively_excluded(n, excl, s0),
        effectively_excluded(ifname, excl, s1) == !effectively_excluded(ifname, excl, s0),
{
}

/// A name's effective exclusion: configured XOR swapped.
pub open spec fn effectively_excluded(
    name: Seq<char>,
    excl: Seq<String>,
    swaps: ExclusionSwaps,
) -> bool {
    name_in(excl, name) != swaps.swapped_spec(name)
}

/// Whether an interface is effectively excluded: it is configured as
/// excluded exactly when its swap bit is clear.
pub fn is_excluded(name: &str, excl: &Vec<String>, swaps: &ExclusionSwaps) -> (r: bool)
    ensures
        r == effectively_excluded(name@, excl@, *swaps),
{
    let n = excl.len();
    let mut i: usize = 0;
    while i < n
        invariant
            n == excl@.len(),
            i <= n,
            forall|k: int| 0 <= k < i ==> excl@[k]@ != name@,
        decreases n - i,
    {
        if str_eq_local(excl[i].as_str(), name) {
            return !swaps.is_swapped(name);
        }
        i = i + 1;
    }
    swaps.is_swapped(name)
}

/// String comparison over views, local to the exclusion machinery.
fn str_eq_local(a: &str, b: &str) -> (r: bool)
    ensures
        r == (a@ == b@),
{
    let sa = a.to_owned();
    let sb = b.to_owned();
    sa == sb
}

} // verus!
