//! The per-interface weight store. Weights live in a small human-editable
//! text file, one `name: weight` line per interface, weights as decimals
//! with up to three fraction digits (stored fixed-point, scaled by 1000).
//! Reading and writing the file is I/O and happens outside the library;
//! this module parses its text, keeps the in-memory mapping, fills in
//! missing interfaces at weight one, and counts versions so schedulers
//! can invalidate cheaply.

use vstd::prelude::*;
use vstd::string::is_ascii;

verus! {

/// One interface's stored weight.
#[derive(Debug)]
pub struct WeightEntry {
    pub name: String,
    /// Fixed-point weight, scaled by 1000 (1000 is a weight of one).
    pub weight_milli: u64,
}

/// An entry under this name exists.
pub open spec fn has_weight_name(entries: Seq<WeightEntry>, name: Seq<char>) -> bool {
    exists|i: int| 0 <= i < entries.len() && entries[i].name@ == name
}

/// The weight stored under a name, or one (1000) where none is stored.
pub open spec fn weight_or_default(entries: Seq<WeightEntry>, name: Seq<char>) -> u64 {
    if has_weight_name(entries, name) {
        entries[choose|i: int| 0 <= i < entries.len() && entries[i].name@ == name].weight_milli
    } else {
        1000
    }
}

/// The entries after filling in the given names: each missing name is
/// appended at weight one, in order of first appearance; present entries
/// are untouched.
pub open spec fn ensured_names(entries: Seq<WeightEntry>, names: Seq<String>) -> Seq<Seq<char>>
    decreases names.len(),
{
    if names.len() == 0 {
        Seq::empty()
    } else {
        let rest = ensured_names(entries, names.drop_last());
        let nm = names.last()@;
        if has_weight_name(entries, nm) || rest.contains(nm) {
            rest
        } else {
            rest.push(nm)
        }
    }
}

/// The in-memory weight mapping with its change counter.
pub struct WeightStore {
    pub entries: Vec<WeightEntry>,
    /// Grows by one on every successful reload and on every change made
    /// by filling in missing interfaces.
    pub version: u64,
}

impl WeightStore {
    /// Validity: one entry per name.
    pub open spec fn wf(self) -> bool {
        forall|i: int, j: int|
            0 <= i < j < self.entries@.len() ==> (#[trigger] self.entries@[i]).name@ != (
            #[trigger] self.entries@[j]).name@
    }

    pub fn new() -> (r: Self)
        ensures
            r.wf(),
            r.entries@.len() == 0,
            r.version == 0,
    {
        WeightStore { entries: Vec::new(), version: 0 }
    }

    fn find_pos(&self, name: &str) -> (r: Option<usize>)
        ensures
            match r {
                Some(j) => j < self.entries@.len() && self.entries@[j as int].name@ == name@,
                None => !has_weight_name(self.entries@, name@),
            },
    {
        let n = self.entries.len();
        let mut i: usize = 0;
        while i < n
            invariant
                n == self.entries@.len(),
                i <= n,
                forall|k: int| 0 <= k < i ==> self.entries@[k].name@ != name@,
            decreases n - i,
        {
            let sa = self.entries[i].name.clone();
            let sb = name.to_owned();
            if sa == sb {
                return Some(i);
            }
            i = i + 1;
        }
        None
    }

    /// The weights for a list of interface names, in the same order; a
    /// name without a stored entry weighs one.
    pub fn weights_for(&self, names: &Vec<String>) -> (r: Vec<u64>)
        requires
            self.wf(),
        ensures
            r@.len() == names@.len(),
            forall|i: int|
                0 <= i < names@.len() ==> #[trigger] r@[i] == weight_or_default(
                    self.entries@,
                    names@[i]@,
                ),
    {
        let mut out: Vec<u64> = Vec::new();
        let n = names.len();
        let mut i: usize = 0;
        while i < n
            invariant
                n == names@.len(),
                i <= n,
                self.wf(),
                out@.len() == i as int,
                forall|k: int|
                    0 <= k < i ==> #[trigger] out@[k] == weight_or_default(
                        self.entries@,
                        names@[k]@,
                    ),
            decreases n - i,
        {
            let w = match self.find_pos(names[i].as_str()) {
                Some(j) => {
                    proof {
                        let k = choose|k: int|
                            0 <= k < self.entries@.len() && self.entries@[k].name@
                                == names@[i as int]@;
                        assert(k == j as int);
                    }
                    self.entries[j].weight_milli
                },
                None => 1000,
            };
            out.push(w);
            i = i + 1;
        }
        out
    }

    /// Fills in any missing interface: each name without an entry gets
    /// one at weight one, appended in order of first appearance; stored
    /// entries are untouched. A change bumps the version — the caller
    /// persists the store when this returns true.
    pub fn ensure_interfaces(&mut self, names: &Vec<String>) -> (changed: bool)
        requires
            old(self).wf(),
            old(self).version < u64::MAX,
        ensures
            final(self).wf(),
            final(self).entries@.len() == old(self).entries@.len() + ensured_names(
                old(self).entries@,
                names@,
            ).len(),
            final(self).entries@.subrange(0, old(self).entries@.len() as int) == old(
                self,
            ).entries@,
            forall|k: int|
                old(self).entries@.len() <= k < final(self).entries@.len() ==> {
                    &&& (#[trigger] final(self).entries@[k]).name@ == ensured_names(
                        old(self).entries@,
                        names@,
                    )[k - old(self).entries@.len()]
                    &&& final(self).entries@[k].weight_milli == 1000
                },
            changed == (ensured_names(old(self).entries@, names@).len() > 0),
            final(self).version == if changed {
                old(self).version + 1
            } else {
                old(self).version as int
            },
            forall|i: int|
                0 <= i < names@.len() ==> has_weight_name(
                    final(self).entries@,
                    (#[trigger] names@[i])@,
                ),
    {
        let ghost entries0 = self.entries@;
        let ghost base = self.entries@.len() as int;
        let n = names.len();
        let mut i: usize = 0;
        let mut changed = false;
        while i < n
            invariant
                n == names@.len(),
                i <= n,
                entries0.len() == base,
                self.wf(),
                self.version == old(self).version,
                old(self).version < u64::MAX,
                self.entries@.len() == base + ensured_names(entries0, names@.subrange(0, i as int)).len(),
                self.entries@.subrange(0, base) == entries0,
                forall|k: int|
                    base <= k < self.entries@.len() ==> {
                        &&& (#[trigger] self.entries@[k]).name@ == ensured_names(
                            entries0,
                            names@.subrange(0, i as int),
                        )[k - base]
                        &&& self.entries@[k].weight_milli == 1000
                    },
                changed == (ensured_names(entries0, names@.subrange(0, i as int)).len() > 0),
            decreases n - i,
        {
            proof {
                assert(names@.subrange(0, i as int + 1).drop_last() =~= names@.subrange(
                    0,
                    i as int,
                ));
                assert(names@.subrange(0, i as int + 1).last() == names@[i as int]);
            }
            let nm = names[i].clone();
            let ghost added = ensured_names(entries0, names@.subrange(0, i as int));
            match self.find_pos(nm.as_str()) {
                Some(_) => {
                    proof {
                        if !has_weight_name(entries0, nm@) {
                            let j = choose|j: int|
                                0 <= j < self.entries@.len() && self.entries@[j].name@ == nm@;
                            if j < base {
                                assert(self.entries@.subrange(0, base)[j] == self.entries@[j]);
                                assert(entries0[j].name@ == nm@);
                                assert(false);
                            }
                            assert(j >= base);
                            assert(added[j - base] == nm@);
                            assert(added.contains(nm@));
                        }
                    }
                },
                None => {
                    proof {
                        if has_weight_name(entries0, nm@) {
                            let j = choose|j: int|
                                0 <= j < entries0.len() && entries0[j].name@ == nm@;
                            assert(self.entries@.subrange(0, base)[j] == entries0[j]);
                            assert(self.entries@[j].name@ == nm@);
                            assert(false);
                        }
                        if added.contains(nm@) {
                            let k = choose|k: int| 0 <= k < added.len() && added[k] == nm@;
                            assert(self.entries@[base + k].name@ == nm@);
                            assert(false);
                        }
                    }
                    let ghost pre = self.entries@;
                    self.entries.push(WeightEntry { name: nm, weight_milli: 1000 });
                    changed = true;
                    proof {
                        assert(self.entries@.subrange(0, base) =~= pre.subrange(0, base));
                        assert forall|x: int, y: int|
                            0 <= x < y < self.entries@.len() implies (
                            #[trigger] self.entries@[x]).name@ != (
                            #[trigger] self.entries@[y]).name@ by {
                            if y == self.entries@.len() - 1 {
                                assert(self.entries@[x] == pre[x]);
                            } else {
                                assert(self.entries@[x] == pre[x] && self.entries@[y] == pre[y]);
                            }
                        }
                    }
                },
            }
            i = i + 1;
        }
        proof {
            assert(names@.subrange(0, n as int) =~= names@);
            lemma_ensured_names_cover(entries0, names@);
            assert forall|i2: int| 0 <= i2 < names@.len() implies has_weight_name(
                self.entries@,
                (#[trigger] names@[i2])@,
            ) by {
                if has_weight_name(entries0, names@[i2]@) {
                    let j = choose|j: int|
                        0 <= j < entries0.len() && entries0[j].name@ == names@[i2]@;
                    assert(self.entries@.subrange(0, base)[j] == entries0[j]);
                    assert(self.entries@[j].name@ == names@[i2]@);
                } else {
                    let added = ensured_names(entries0, names@);
                    assert(added.contains(names@[i2]@));
                    let k = choose|k: int| 0 <= k < added.len() && added[k] == names@[i2]@;
                    assert(self.entries@[base + k].name@ == names@[i2]@);
                }
            }
        }
        if changed {
            self.version = self.version + 1;
        }
        changed
    }
}

/// Every given name ends up stored: it was there already, or it is among
/// the appended ones.
proof fn lemma_ensured_names_cover(entries: Seq<WeightEntry>, names: Seq<String>)
    ensures
        forall|i: int|
            0 <= i < names.len() ==> has_weight_name(entries, (#[trigger] names[i])@)
                || ensured_names(entries, names).contains(names[i]@),
    decreases names.len(),
{
    if names.len() > 0 {
        let prefix = names.drop_last();
        lemma_ensured_names_cover(entries, prefix);
        let all = ensured_names(entries, names);
        let rest = ensured_names(entries, prefix);
        assert forall|i: int|
            0 <= i < names.len() implies has_weight_name(entries, (#[trigger] names[i])@)
            || all.contains(names[i]@) by {
            if i < names.len() - 1 {
                assert(prefix[i] == names[i]);
                if !has_weight_name(entries, names[i]@) {
                    assert(rest.contains(names[i]@));
                    let k = choose|k: int| 0 <= k < rest.len() && rest[k] == names[i]@;
                    if has_weight_name(entries, names.last()@) || rest.contains(names.last()@) {
                        assert(all[k] == names[i]@);
                    } else {
                        assert(all[k] == names[i]@);
                    }
                }
            } else {
                let nm = names.last()@;
                if !has_weight_name(entries, nm) {
                    if rest.contains(nm) {
                        let k = choose|k: int| 0 <= k < rest.len() && rest[k] == nm;
                        assert(all[k] == nm);
                    } else {
                        assert(all.last() == nm);
                    }
                }
            }
        }
    }
}

/// Filling in interfaces is idempotent, and no stored weight is ever
/// negative: a second pass with the same names appends nothing, changes
/// nothing, and leaves the version alone — every name is already there —
/// and weights, stored fixed-point in an unsigned word, are at least
/// zero by construction.
pub proof fn lemma_ensure_interfaces_idempotent(entries: Seq<WeightEntry>, names: Seq<String>)
    requires
        forall|i: int|
            0 <= i < names.len() ==> has_weight_name(entries, (#[trigger] names[i])@),
    ensures
        ensured_names(entries, names).len() == 0,
        forall|i: int| 0 <= i < entries.len() ==> (#[trigger] entries[i]).weight_milli >= 0,
    decreases names.len(),
{
    if names.len() > 0 {
        let prefix = names.drop_last();
        assert forall|i: int| 0 <= i < prefix.len() implies has_weight_name(
            entries,
            (#[trigger] prefix[i])@,
        ) by {
            assert(prefix[i] == names[i]);
        }
        lemma_ensure_interfaces_idempotent(entries, prefix);
    }
}

/// A decimal digit.
pub open spec fn is_digit_char(c: char) -> bool {
    48 <= c as int && c as int <= 57
}

/// A digit's value.
pub open spec fn digit_val(c: char) -> int {
    c as int - 48
}

/// Every character is a decimal digit.
pub open spec fn all_digits(s: Seq<char>) -> bool {
    forall|i: int| 0 <= i < s.len() ==> is_digit_char(#[trigger] s[i])
}

/// The number a digit string denotes, most significant digit first.
pub open spec fn digits_val(s: Seq<char>) -> int
    decreases s.len(),
{
    if s.len() == 0 {
        0
    } else {
        digits_val(s.drop_last()) * 10 + digit_val(s.last())
    }
}

/// The position of the first occurrence of a character, or the length
/// when it does not occur.
pub open spec fn first_index_of(s: Seq<char>, c: char) -> int
    decreases s.len(),
{
    if s.len() == 0 {
        0
    } else if s.first() == c {
        0
    } else {
        1 + first_index_of(s.drop_first(), c)
    }
}

/// What the first occurrence satisfies: nothing before it matches, and it
/// matches unless the character is absent.
pub proof fn lemma_first_index_of(s: Seq<char>, c: char)
    ensures
        0 <= first_index_of(s, c) <= s.len(),
        forall|k: int| 0 <= k < first_index_of(s, c) ==> s[k] != c,
        first_index_of(s, c) < s.len() ==> s[first_index_of(s, c)] == c,
    decreases s.len(),
{
    if s.len() > 0 && s.first() != c {
        lemma_first_index_of(s.drop_first(), c);
        let p = first_index_of(s, c);
        assert forall|k: int| 0 <= k < p implies s[k] != c by {
            if k > 0 {
                assert(s.drop_first()[k - 1] == s[k]);
            }
        }
        if p < s.len() {
            assert(s.drop_first()[p - 1] == s[p]);
        }
    }
}

/// How many spaces the string starts with.
pub open spec fn leading_spaces(s: Seq<char>) -> int
    decreases s.len(),
{
    if s.len() == 0 {
        0
    } else if s.first() == ' ' {
        1 + leading_spaces(s.drop_first())
    } else {
        0
    }
}

/// What the leading-space count satisfies.
pub proof fn lemma_leading_spaces(s: Seq<char>)
    ensures
        0 <= leading_spaces(s) <= s.len(),
        forall|k: int| 0 <= k < leading_spaces(s) ==> s[k] == ' ',
        leading_spaces(s) < s.len() ==> s[leading_spaces(s)] != ' ',
    decreases s.len(),
{
    if s.len() > 0 && s.first() == ' ' {
        lemma_leading_spaces(s.drop_first());
        let p = leading_spaces(s);
        assert forall|k: int| 0 <= k < p implies s[k] == ' ' by {
            if k > 0 {
                assert(s.drop_first()[k - 1] == s[k]);
            }
        }
        if p < s.len() {
            assert(s.drop_first()[p - 1] == s[p]);
        }
    }
}

/// The fixed-point value a weight literal denotes: digits with an
/// optional dot and one to three fraction digits, scaled by 1000; too
/// large a value, or anything else, does not parse.
pub open spec fn weight_value_spec(s: Seq<char>) -> Option<u64> {
    let p = first_index_of(s, '.');
    if p == s.len() {
        if s.len() > 0 && all_digits(s) && digits_val(s) * 1000 <= u64::MAX {
            Some((digits_val(s) * 1000) as u64)
        } else {
            None
        }
    } else {
        let ip = s.subrange(0, p);
        let fp = s.subrange(p + 1, s.len() as int);
        if ip.len() > 0 && all_digits(ip) && 1 <= fp.len() <= 3 && all_digits(fp) {
            let scale: int = if fp.len() == 1 {
                100
            } else if fp.len() == 2 {
                10
            } else {
                1
            };
            let v = digits_val(ip) * 1000 + digits_val(fp) * scale;
            if v <= u64::MAX {
                Some(v as u64)
            } else {
                None
            }
        } else {
            None
        }
    }
}

/// What one line denotes: a nonempty name before the first colon, then
/// optional spaces, then a weight literal.
pub open spec fn parse_line_spec(line: Seq<char>) -> Option<(Seq<char>, u64)> {
    let p = first_index_of(line, ':');
    if p == 0 || p >= line.len() {
        None
    } else {
        let name = line.subrange(0, p);
        let after = line.subrange(p + 1, line.len() as int);
        let v = after.subrange(leading_spaces(after), after.len() as int);
        match weight_value_spec(v) {
            Some(w) => Some((name, w)),
            None => None,
        }
    }
}

/// What a weight file denotes: its nonempty lines in order, each a name
/// and a weight; one bad line spoils the whole file.
pub open spec fn parse_weights_spec(s: Seq<char>) -> Option<Seq<(Seq<char>, u64)>>
    decreases s.len(),
{
    if s.len() == 0 {
        Some(Seq::empty())
    } else {
        let nl = first_index_of(s, '\n');
        if 0 <= nl && nl < s.len() {
            let line = s.subrange(0, nl);
            let rest = s.subrange(nl + 1, s.len() as int);
            match parse_weights_spec(rest) {
                Some(tail) => if line.len() == 0 {
                    Some(tail)
                } else {
                    match parse_line_spec(line) {
                        Some(e) => Some(seq![e] + tail),
                        None => None,
                    }
                },
                None => None,
            }
        } else {
            match parse_line_spec(s) {
                Some(e) => Some(seq![e]),
                None => None,
            }
        }
    }
}

/// The name-and-weight views of stored entries.
pub open spec fn entry_views(v: Seq<WeightEntry>) -> Seq<(Seq<char>, u64)> {
    v.map(|i: int, e: WeightEntry| (e.name@, e.weight_milli))
}

/// No two pairs share a name.
pub open spec fn pairs_unique(pairs: Seq<(Seq<char>, u64)>) -> bool {
    forall|i: int, j: int| 0 <= i < j < pairs.len() ==> (#[trigger] pairs[i]).0 != (
    #[trigger] pairs[j]).0
}

/// Reads a digit run as a number, clamping just past the largest word so
/// overflow is detectable.
fn parse_digits(s: &str, from: usize, to: usize) -> (r: Option<u64>)
    requires
        from <= to <= s@.len(),
    ensures
        ({
            let sub = s@.subrange(from as int, to as int);
            match r {
                Some(v) => all_digits(sub) && digits_val(sub) <= u64::MAX && v == digits_val(sub),
                None => !(all_digits(sub) && digits_val(sub) <= u64::MAX),
            }
        }),
{
    let mut acc: u128 = 0;
    let mut i: usize = from;
    while i < to
        invariant
            from <= i <= to <= s@.len(),
            all_digits(s@.subrange(from as int, i as int)),
            ({
                let dv = digits_val(s@.subrange(from as int, i as int));
                if dv <= u64::MAX {
                    acc == dv
                } else {
                    acc == u64::MAX as u128 + 1
                }
            }),
            acc <= u64::MAX as u128 + 1,
        decreases to - i,
    {
        proof {
            assert(s@.subrange(from as int, i as int + 1).drop_last() =~= s@.subrange(
                from as int,
                i as int,
            ));
            assert(s@.subrange(from as int, i as int + 1).last() == s@[i as int]);
        }
        let c = s.get_char(i);
        let b = c as u32;
        if b < 48 || b > 57 {
            proof {
                let sub = s@.subrange(from as int, to as int);
                assert(sub[i as int - from] == s@[i as int]);
                assert(!is_digit_char(sub[i as int - from]));
            }
            return None;
        }
        let d = (b - 48) as u128;
        proof {
            let dv = digits_val(s@.subrange(from as int, i as int));
            if dv > u64::MAX {
                assert(dv * 10 >= dv) by (nonlinear_arith)
                    requires
                        dv >= 0,
                ;
            }
        }
        let next = acc * 10 + d;
        if next > u64::MAX as u128 {
            acc = u64::MAX as u128 + 1;
        } else {
            acc = next;
        }
        i = i + 1;
    }
    if acc > u64::MAX as u128 {
        proof {
            let sub = s@.subrange(from as int, to as int);
            assert(digits_val(sub) > u64::MAX);
        }
        None
    } else {
        Some(acc as u64)
    }
}

/// Finds the first occurrence of an ASCII character in a range of the
/// string, as an absolute position; `to` means it is absent.
fn find_char_in(s: &str, from: usize, to: usize, target: char) -> (r: usize)
    requires
        from <= to <= s@.len(),
    ensures
        from <= r <= to,
        r - from == first_index_of(s@.subrange(from as int, to as int), target),
{
    proof {
        lemma_first_index_of(s@.subrange(from as int, to as int), target);
    }
    let mut i: usize = from;
    while i < to
        invariant
            from <= i <= to <= s@.len(),
            forall|k: int| 0 <= k < i - from ==> s@.subrange(from as int, to as int)[k] != target,
        decreases to - i,
    {
        let c = s.get_char(i);
        if c == target {
            proof {
                let sub = s@.subrange(from as int, to as int);
                let p = first_index_of(sub, target);
                lemma_first_index_of(sub, target);
                assert(sub[i as int - from] == s@[i as int]);
                assert(sub[i as int - from] == target);
                if p < i as int - from {
                    assert(sub[p] != target);
                    assert(false);
                }
                if p > i as int - from {
                    assert(sub[i as int - from] != target);
                    assert(false);
                }
            }
            return i;
        }
        proof {
            assert(s@.subrange(from as int, to as int)[i as int - from] == s@[i as int]);
        }
        i = i + 1;
    }
    proof {
        let sub = s@.subrange(from as int, to as int);
        let p = first_index_of(sub, target);
        lemma_first_index_of(sub, target);
        if p < sub.len() {
            assert(sub[p] != target);
            assert(false);
        }
    }
    to
}

/// Reads a weight literal in a range of the string.
#[verifier::rlimit(60)]
fn parse_weight_value(s: &str, from: usize, to: usize) -> (r: Option<u64>)
    requires
        from <= to <= s@.len(),
    ensures
        r == weight_value_spec(s@.subrange(from as int, to as int)),
{
    let ghost sub = s@.subrange(from as int, to as int);
    let dot = find_char_in(s, from, to, '.');
    if dot == to {
        if from == to {
            return None;
        }
        match parse_digits(s, from, to) {
            Some(v) => {
                let scaled: u128 = (v as u128) * 1000;
                if scaled > u64::MAX as u128 {
                    None
                } else {
                    Some(scaled as u64)
                }
            },
            None => {
                proof {
                    if all_digits(sub) && digits_val(sub) * 1000 <= u64::MAX {
                        assert(digits_val(sub) <= digits_val(sub) * 1000) by (nonlinear_arith)
                            requires
                                digits_val(sub) >= 0,
                        ;
                        assert(false);
                    }
                }
                None
            },
        }
    } else {
        let ghost ip = sub.subrange(0, dot as int - from);
        let ghost fp = sub.subrange(dot as int - from + 1, sub.len() as int);
        proof {
            assert(ip =~= s@.subrange(from as int, dot as int));
            assert(fp =~= s@.subrange(dot as int + 1, to as int));
        }
        if dot == from {
            return None;
        }
        let flen = to - (dot + 1);
        if flen < 1 || flen > 3 {
            return None;
        }
        let iv = match parse_digits(s, from, dot) {
            Some(v) => v,
            None => {
                proof {
                    let scale: int = if fp.len() == 1 {
                        100
                    } else if fp.len() == 2 {
                        10
                    } else {
                        1
                    };
                    if ip.len() > 0 && all_digits(ip) && 1 <= fp.len() <= 3 && all_digits(fp)
                        && digits_val(ip) * 1000 + digits_val(fp) * scale <= u64::MAX {
                        lemma_digits_val_nonneg(ip);
                        lemma_digits_val_nonneg(fp);
                        assert(digits_val(ip) <= digits_val(ip) * 1000) by (nonlinear_arith)
                            requires
                                digits_val(ip) >= 0,
                        ;
                        assert(digits_val(fp) * scale >= 0) by (nonlinear_arith)
                            requires
                                digits_val(fp) >= 0,
                                scale >= 0,
                        ;
                        assert(false);
                    }
                }
                return None;
            },
        };
        let fv = match parse_digits(s, dot + 1, to) {
            Some(v) => v,
            None => {
                proof {
                    if all_digits(fp) {
                        lemma_digits_small(fp);
                        assert(false);
                    }
                }
                return None;
            },
        };
        let scale: u128 = if flen == 1 {
            100
        } else if flen == 2 {
            10
        } else {
            1
        };
        let total: u128 = (iv as u128) * 1000 + (fv as u128) * scale;
        if total > u64::MAX as u128 {
            None
        } else {
            Some(total as u64)
        }
    }
}

/// The position after the run of spaces a range starts with.
fn skip_spaces(s: &str, from: usize, to: usize) -> (r: usize)
    requires
        from <= to <= s@.len(),
    ensures
        from <= r <= to,
        r - from == leading_spaces(s@.subrange(from as int, to as int)),
{
    proof {
        lemma_leading_spaces(s@.subrange(from as int, to as int));
    }
    let mut i: usize = from;
    while i < to
        invariant
            from <= i <= to <= s@.len(),
            forall|k: int| 0 <= k < i - from ==> s@.subrange(from as int, to as int)[k] == ' ',
        decreases to - i,
    {
        let c = s.get_char(i);
        if c != ' ' {
            proof {
                let sub = s@.subrange(from as int, to as int);
                let ls = leading_spaces(sub);
                lemma_leading_spaces(sub);
                assert(sub[i as int - from] == s@[i as int]);
                if ls < i as int - from {
                    assert(sub[ls] == ' ');
                    assert(false);
                }
                if ls > i as int - from {
                    assert(sub[i as int - from] == ' ');
                    assert(false);
                }
            }
            return i;
        }
        proof {
            assert(s@.subrange(from as int, to as int)[i as int - from] == s@[i as int]);
        }
        i = i + 1;
    }
    proof {
        let sub = s@.subrange(from as int, to as int);
        let ls = leading_spaces(sub);
        lemma_leading_spaces(sub);
        if ls < sub.len() {
            assert(sub[ls] == ' ');
            assert(false);
        }
    }
    to
}

/// Reads one `name: weight` line in a range of the string.
fn parse_weight_line(s: &str, from: usize, to: usize) -> (r: Option<(String, u64)>)
    requires
        is_ascii(s),
        from <= to <= s@.len(),
    ensures
        ({
            let line = s@.subrange(from as int, to as int);
            match r {
                Some(p) => parse_line_spec(line) == Some((p.0@, p.1)),
                None => parse_line_spec(line) is None,
            }
        }),
{
    let ghost line = s@.subrange(from as int, to as int);
    let colon = find_char_in(s, from, to, ':');
    if colon == from || colon == to {
        return None;
    }
    proof {
        assert(line.subrange(0, colon as int - from) =~= s@.subrange(from as int, colon as int));
        assert(line.subrange(colon as int - from + 1, line.len() as int) =~= s@.subrange(
            colon as int + 1,
            to as int,
        ));
    }
    let name = s.substring_ascii(from, colon).to_owned();
    let ghost after = line.subrange(colon as int - from + 1, line.len() as int);
    let vstart = skip_spaces(s, colon + 1, to);
    proof {
        assert(after =~= s@.subrange(colon as int + 1, to as int));
        assert(after.subrange(leading_spaces(after), after.len() as int) =~= s@.subrange(
            vstart as int,
            to as int,
        ));
    }
    match parse_weight_value(s, vstart, to) {
        Some(w) => Some((name, w)),
        None => None,
    }
}

/// Reads a whole weight file: its nonempty lines in order, or nothing if
/// any line is bad or the text is not ASCII.
#[verifier::rlimit(60)]
pub fn parse_weights(text: &str) -> (r: Option<Vec<WeightEntry>>)
    ensures
        ({
            if is_ascii(text) {
                match r {
                    Some(v) => parse_weights_spec(text@) == Some(entry_views(v@)),
                    None => parse_weights_spec(text@) is None,
                }
            } else {
                r is None
            }
        }),
{
    if !text.is_ascii() {
        return None;
    }
    let n = text.unicode_len();
    let mut out: Vec<WeightEntry> = Vec::new();
    let mut pos: usize = 0;
    proof {
        assert(text@.subrange(0, n as int) =~= text@);
        assert(entry_views(out@) =~= Seq::<(Seq<char>, u64)>::empty());
    }
    while pos < n
        invariant
            pos <= n,
            n == text@.len(),
            is_ascii(text),
            ({
                let full = parse_weights_spec(text@);
                let rem = parse_weights_spec(text@.subrange(pos as int, n as int));
                match rem {
                    Some(tail) => full == Some(entry_views(out@) + tail),
                    None => full is None,
                }
            }),
        decreases n - pos,
    {
        let ghost remaining = text@.subrange(pos as int, n as int);
        let nl = find_char_in(text, pos, n, '\n');
        proof {
            lemma_first_index_of(remaining, '\n');
            assert(remaining.subrange(0, nl as int - pos) =~= text@.subrange(
                pos as int,
                nl as int,
            ));
            if (nl as int) < n as int {
                assert(remaining.subrange(nl as int - pos + 1, remaining.len() as int)
                    =~= text@.subrange(nl as int + 1, n as int));
            }
        }
        let line_end = nl;
        if line_end > pos {
            match parse_weight_line(text, pos, line_end) {
                Some(p) => {
                    let ghost pre = out@;
                    out.push(WeightEntry { name: p.0, weight_milli: p.1 });
                    proof {
                        assert(entry_views(out@) =~= entry_views(pre).push(
                            (out@.last().name@, out@.last().weight_milli),
                        ));
                        let rem2 = parse_weights_spec(
                            if (nl as int) < n as int {
                                text@.subrange(nl as int + 1, n as int)
                            } else {
                                Seq::<char>::empty()
                            },
                        );
                        match rem2 {
                            Some(tail) => {
                                assert(entry_views(pre) + (seq![
                                    (out@.last().name@, out@.last().weight_milli),
                                ] + tail) =~= entry_views(out@) + tail);
                            },
                            None => {},
                        }
                    }
                },
                None => {
                    return None;
                },
            }
        }
        if nl == n {
            pos = n;
            proof {
                assert(text@.subrange(n as int, n as int) =~= Seq::<char>::empty());
            }
        } else {
            pos = nl + 1;
        }
    }
    proof {
        assert(text@.subrange(n as int, n as int) =~= Seq::<char>::empty());
    }
    Some(out)
}

/// Whether every stored entry carries a different name.
fn entries_unique(v: &Vec<WeightEntry>) -> (r: bool)
    ensures
        r == pairs_unique(entry_views(v@)),
{
    let n = v.len();
    let mut i: usize = 0;
    while i < n
        invariant
            n == v@.len(),
            i <= n,
            forall|x: int, y: int| 0 <= x < y < i ==> (#[trigger] v@[x]).name@ != (
            #[trigger] v@[y]).name@,
        decreases n - i,
    {
        let mut j: usize = 0;
        while j < i
            invariant
                j <= i,
                i < n,
                n == v@.len(),
                forall|x: int, y: int| 0 <= x < y < i ==> (#[trigger] v@[x]).name@ != (
                #[trigger] v@[y]).name@,
                forall|x: int| 0 <= x < j ==> (#[trigger] v@[x]).name@ != v@[i as int].name@,
            decreases i - j,
        {
            let sa = v[j].name.clone();
            let sb = v[i].name.clone();
            if sa == sb {
                proof {
                    assert(entry_views(v@)[j as int].0 == entry_views(v@)[i as int].0);
                }
                return false;
            }
            j = j + 1;
        }
        i = i + 1;
    }
    proof {
        assert forall|x: int, y: int|
            0 <= x < y < entry_views(v@).len() implies (#[trigger] entry_views(v@)[x]).0 != (
        #[trigger] entry_views(v@)[y]).0 by {
            assert(v@[x].name@ != v@[y].name@);
        }
    }
    true
}

impl WeightStore {
    /// Replaces the stored mapping with a freshly read file, bumping the
    /// version; a file that does not parse, or lists a name twice, leaves
    /// the store untouched — no partial update.
    pub fn reload(&mut self, text: &str) -> (ok: bool)
        requires
            old(self).wf(),
            old(self).version < u64::MAX,
        ensures
            final(self).wf(),
            ({
                if is_ascii(text) && parse_weights_spec(text@) is Some && pairs_unique(
                    parse_weights_spec(text@)->0,
                ) {
                    &&& ok
                    &&& entry_views(final(self).entries@) == parse_weights_spec(text@)->0
                    &&& final(self).version == old(self).version + 1
                } else {
                    &&& !ok
                    &&& *final(self) == *old(self)
                }
            }),
    {
        match parse_weights(text) {
            Some(v) => {
                if entries_unique(&v) {
                    proof {
                        assert forall|x: int, y: int|
                            0 <= x < y < v@.len() implies (#[trigger] v@[x]).name@ != (
                        #[trigger] v@[y]).name@ by {
                            assert(entry_views(v@)[x].0 == v@[x].name@);
                            assert(entry_views(v@)[y].0 == v@[y].name@);
                        }
                    }
                    self.entries = v;
                    self.version = self.version + 1;
                    true
                } else {
                    false
                }
            },
            None => false,
        }
    }
}

/// A digit string's value is not negative.
proof fn lemma_digits_val_nonneg(s: Seq<char>)
    requires
        all_digits(s),
    ensures
        digits_val(s) >= 0,
    decreases s.len(),
{
    if s.len() > 0 {
        let prefix = s.drop_last();
        assert forall|i: int| 0 <= i < prefix.len() implies is_digit_char(
            #[trigger] prefix[i],
        ) by {
            assert(prefix[i] == s[i]);
        }
        lemma_digits_val_nonneg(prefix);
        assert(digits_val(prefix) * 10 >= 0) by (nonlinear_arith)
            requires
                digits_val(prefix) >= 0,
        ;
    }
}

/// A digit string of at most three digits stays below a thousand — in
/// particular it fits the word, so a failed read means a bad digit.
proof fn lemma_digits_small(s: Seq<char>)
    requires
        s.len() <= 3,
        all_digits(s),
    ensures
        s.len() <= 1 ==> digits_val(s) < 10,
        s.len() <= 2 ==> digits_val(s) < 100,
        digits_val(s) < 1000,
    decreases s.len(),
{
    if s.len() > 0 {
        let prefix = s.drop_last();
        assert forall|i: int| 0 <= i < prefix.len() implies is_digit_char(
            #[trigger] prefix[i],
        ) by {
            assert(prefix[i] == s[i]);
        }
        lemma_digits_small(prefix);
        assert(digits_val(prefix) < 10 ==> digits_val(prefix) * 10 <= 90) by (nonlinear_arith);
        assert(digits_val(prefix) < 100 ==> digits_val(prefix) * 10 <= 990) by (nonlinear_arith);
    }
}

} // verus!
