//! The network interfaces that the notifier prints: their addresses grouped
//! by interface, and the text report of them.
use vstd::prelude::*;
use crate::strings::{chars_of, push_str, str_eq};

verus! {

/// A network interface with the text of each of its addresses, in order.
pub struct Interface {
    pub name: String,
    pub addresses: Vec<String>,
}

/// One line per address, each indented by two spaces.
pub open spec fn addresses_text(ips: Seq<String>) -> Seq<char>
    decreases ips.len(),
{
    if ips.len() == 0 {
        Seq::empty()
    } else {
        addresses_text(ips.drop_last()) + "\n  "@ + ips.last()@
    }
}

/// The block of one interface: a blank line, its name, its addresses.
pub open spec fn interface_text(i: Interface) -> Seq<char> {
    "\n"@ + i.name@ + addresses_text(i.addresses@) + "\n"@
}

/// The blocks of every interface of `is`, in order.
pub open spec fn interfaces_text(is: Seq<Interface>) -> Seq<char>
    decreases is.len(),
{
    if is.len() == 0 {
        Seq::empty()
    } else {
        interfaces_text(is.drop_last()) + interface_text(is.last())
    }
}

/// The report: a title with the host name and the time, then the block of
/// each interface, or a note that there is none.
pub open spec fn interfaces_report(hostname: Seq<char>, now: Seq<char>, is: Seq<Interface>) -> Seq<char> {
    "Current network interfaces of\n"@ + hostname + "\n"@ + now + "\n"@ + (if is.len() == 0 {
        "\nNo network interfaces found.\n"@
    } else {
        interfaces_text(is)
    })
}

/// Write the report of the network interfaces (see [`interfaces_report`]).
pub fn format_interfaces(hostname: &str, now: &str, interfaces: &Vec<Interface>) -> (text: String)
    ensures
        text@ == interfaces_report(hostname@, now@, interfaces@),
{
    let mut text = String::new();
    push_str(&mut text, "Current network interfaces of\n");
    push_str(&mut text, hostname);
    push_str(&mut text, "\n");
    push_str(&mut text, now);
    push_str(&mut text, "\n");
    let ghost title = text@;
    if interfaces.len() == 0 {
        push_str(&mut text, "\nNo network interfaces found.\n");
        return text;
    }
    let mut i: usize = 0;
    while i < interfaces.len()
        invariant
            i <= interfaces.len(),
            text@ == title + interfaces_text(interfaces@.take(i as int)),
        decreases interfaces.len() - i,
    {
        let iface = &interfaces[i];
        assert(interfaces@.take(i + 1).drop_last() =~= interfaces@.take(i as int));
        let ghost before = text@;
        push_str(&mut text, "\n");
        push_str(&mut text, iface.name.as_str());
        let mut j: usize = 0;
        while j < iface.addresses.len()
            invariant
                j <= iface.addresses.len(),
                text@ == before + "\n"@ + iface.name@ + addresses_text(iface.addresses@.take(j as int)),
            decreases iface.addresses.len() - j,
        {
            assert(iface.addresses@.take(j + 1).drop_last() =~= iface.addresses@.take(j as int));
            push_str(&mut text, "\n  ");
            push_str(&mut text, iface.addresses[j].as_str());
            assert(text@ =~= before + "\n"@ + iface.name@ + addresses_text(iface.addresses@.take(j + 1)));
            j = j + 1;
        }
        assert(iface.addresses@.take(iface.addresses.len() as int) =~= iface.addresses@);
        push_str(&mut text, "\n");
        assert(text@ =~= title + interfaces_text(interfaces@.take(i + 1)));
        i = i + 1;
    }
    assert(interfaces@.take(interfaces.len() as int) =~= interfaces@);
    text
}

/// One address of a network interface as the system reports it. An address
/// is ordered and told apart by its key: the family (`0` for IPv4, `1` for
/// IPv6), then the address as a number.
pub struct InterfaceAddr {
    pub name: String,
    pub loopback: bool,
    pub family: u8,
    pub bits: u128,
}

/// The addresses of one interface, by key, in increasing order.
pub struct InterfaceGroup {
    pub name: String,
    pub addresses: Vec<(u8, u128)>,
}

/// The order of address keys: by family, then by number.
pub open spec fn key_lt(a: (u8, u128), b: (u8, u128)) -> bool {
    a.0 < b.0 || (a.0 == b.0 && a.1 < b.1)
}

/// The lexicographic order of names, character by character.
pub open spec fn name_lt(a: Seq<char>, b: Seq<char>) -> bool
    decreases a.len(),
{
    if a.len() == 0 {
        b.len() > 0
    } else if b.len() == 0 {
        false
    } else if a[0] != b[0] {
        a[0] < b[0]
    } else {
        name_lt(a.drop_first(), b.drop_first())
    }
}

/// The addresses of each interface named in `entries`, loopback addresses
/// left out.
pub open spec fn addr_map(entries: Seq<InterfaceAddr>) -> Map<Seq<char>, Set<(u8, u128)>>
    decreases entries.len(),
{
    if entries.len() == 0 {
        Map::empty()
    } else {
        let m = addr_map(entries.drop_last());
        let e = entries.last();
        if e.loopback {
            m
        } else {
            let old = if m.contains_key(e.name@) {
                m[e.name@]
            } else {
                Set::empty()
            };
            m.insert(e.name@, old.insert((e.family, e.bits)))
        }
    }
}

/// Keys in strictly increasing order.
pub open spec fn keys_sorted(ks: Seq<(u8, u128)>) -> bool {
    forall|i: int, j: int| 0 <= i < j < ks.len() ==> key_lt(#[trigger] ks[i], #[trigger] ks[j])
}

/// `gs` lists the interfaces of `m`, each once, by name in increasing order,
/// each with its addresses in increasing order.
pub open spec fn groups_of(gs: Seq<InterfaceGroup>, m: Map<Seq<char>, Set<(u8, u128)>>) -> bool {
    &&& forall|i: int, j: int| 0 <= i < j < gs.len() ==> name_lt(#[trigger] gs[i].name@, #[trigger] gs[j].name@)
    &&& forall|i: int| 0 <= i < gs.len() ==> {
        &&& keys_sorted((#[trigger] gs[i]).addresses@)
        &&& m.contains_key(gs[i].name@)
        &&& gs[i].addresses@.to_set() == m[gs[i].name@]
    }
    &&& forall|n: Seq<char>| #[trigger] m.contains_key(n) ==> exists|i: int| 0 <= i < gs.len() && gs[i].name@ == n
}

proof fn lemma_name_lt_irreflexive(a: Seq<char>)
    ensures
        !name_lt(a, a),
    decreases a.len(),
{
    if a.len() > 0 {
        lemma_name_lt_irreflexive(a.drop_first());
    }
}

proof fn lemma_name_lt_transitive(a: Seq<char>, b: Seq<char>, c: Seq<char>)
    requires
        name_lt(a, b),
        name_lt(b, c),
    ensures
        name_lt(a, c),
    decreases a.len(),
{
    if a.len() > 0 && b.len() > 0 && c.len() > 0 && a[0] == b[0] && b[0] == c[0] {
        lemma_name_lt_transitive(a.drop_first(), b.drop_first(), c.drop_first());
    }
}

proof fn lemma_name_lt_total(a: Seq<char>, b: Seq<char>)
    requires
        a != b,
    ensures
        name_lt(a, b) || name_lt(b, a),
    decreases a.len(),
{
    if a.len() == 0 && b.len() == 0 {
        assert(a =~= b);
    } else if a.len() > 0 && b.len() > 0 && a[0] == b[0] {
        if a.drop_first() =~= b.drop_first() {
            assert(a =~= b) by {
                assert forall|i: int| 0 <= i < a.len() implies a[i] == b[i] by {
                    if i > 0 {
                        assert(a[i] == a.drop_first()[i - 1]);
                        assert(b[i] == b.drop_first()[i - 1]);
                    }
                }
            }
        } else {
            lemma_name_lt_total(a.drop_first(), b.drop_first());
        }
    }
}

/// Whether `a` comes before `b` (see [`name_lt`]).
fn name_less(a: &[char], b: &[char]) -> (lt: bool)
    ensures
        lt == name_lt(a@, b@),
{
    let mut i: usize = 0;
    assert(a@.skip(0) =~= a@ && b@.skip(0) =~= b@);
    while i < a.len() && i < b.len() && a[i] == b[i]
        invariant
            i <= a.len(),
            i <= b.len(),
            name_lt(a@, b@) == name_lt(a@.skip(i as int), b@.skip(i as int)),
        decreases a.len() - i,
    {
        assert(a@.skip(i as int).drop_first() =~= a@.skip(i + 1));
        assert(b@.skip(i as int).drop_first() =~= b@.skip(i + 1));
        i = i + 1;
    }
    if i == a.len() {
        i < b.len()
    } else if i == b.len() {
        false
    } else {
        assert(a@.skip(i as int)[0] == a@[i as int] && b@.skip(i as int)[0] == b@[i as int]);
        a[i] < b[i]
    }
}

/// `ks` with `k` added in order, where it is not there yet.
fn insert_key(ks: &mut Vec<(u8, u128)>, k: (u8, u128))
    requires
        keys_sorted(old(ks)@),
    ensures
        keys_sorted(final(ks)@),
        final(ks)@.to_set() == old(ks)@.to_set().insert(k),
{
    let mut q: usize = 0;
    while q < ks.len() && (ks[q].0 < k.0 || (ks[q].0 == k.0 && ks[q].1 < k.1))
        invariant
            q <= ks.len(),
            forall|j: int| 0 <= j < q ==> key_lt(#[trigger] ks@[j], k),
        decreases ks.len() - q,
    {
        q = q + 1;
    }
    if q < ks.len() && ks[q].0 == k.0 && ks[q].1 == k.1 {
        assert(ks@[q as int] == k);
        assert(ks@.to_set().insert(k) =~= ks@.to_set());
        return;
    }
    let ghost old_ks = ks@;
    ks.insert(q, k);
    assert(keys_sorted(ks@)) by {
        assert forall|i: int, j: int| 0 <= i < j < ks@.len() implies key_lt(#[trigger] ks@[i], #[trigger] ks@[j]) by {
            if j < q {
                assert(ks@[i] == old_ks[i] && ks@[j] == old_ks[j]);
            } else if j == q {
                assert(ks@[i] == old_ks[i]);
            } else if i < q {
                assert(ks@[i] == old_ks[i] && ks@[j] == old_ks[j - 1]);
                assert(key_lt(old_ks[i], old_ks[q as int]));
            } else if i == q {
                assert(ks@[j] == old_ks[j - 1]);
                assert(q < old_ks.len());
                assert(!key_lt(old_ks[q as int], k));
                assert(old_ks[q as int] != k);
            } else {
                assert(ks@[i] == old_ks[i - 1] && ks@[j] == old_ks[j - 1]);
            }
        }
    }
    assert forall|x: (u8, u128)| ks@.to_set().contains(x) == old_ks.to_set().insert(k).contains(x) by {
        if ks@.to_set().contains(x) {
            assert(ks@.contains(x));
            let w = choose|w: int| 0 <= w < ks@.len() && ks@[w] == x;
            if w < q {
                assert(old_ks[w] == x);
            } else if w > q {
                assert(old_ks[w - 1] == x);
            }
        }
        if old_ks.to_set().contains(x) {
            assert(old_ks.contains(x));
            let w = choose|w: int| 0 <= w < old_ks.len() && old_ks[w] == x;
            if w < q {
                assert(ks@[w] == x);
            } else {
                assert(ks@[w + 1] == x);
            }
            assert(ks@.contains(x));
        }
        if x == k {
            assert(ks@[q as int] == k);
            assert(ks@.contains(x));
        }
    }
    assert(ks@.to_set() =~= old_ks.to_set().insert(k));
}

/// Group the addresses of `entries` by interface, leaving out loopback
/// addresses: one group per interface name in increasing order, each with
/// its address keys once, in increasing order (see [`groups_of`]).
pub fn group_interfaces(entries: &Vec<InterfaceAddr>) -> (gs: Vec<InterfaceGroup>)
    ensures
        groups_of(gs@, addr_map(entries@)),
{
    let mut gs: Vec<InterfaceGroup> = Vec::new();
    let mut i: usize = 0;
    assert(entries@.take(0) =~= Seq::<InterfaceAddr>::empty());
    while i < entries.len()
        invariant
            i <= entries.len(),
            groups_of(gs@, addr_map(entries@.take(i as int))),
        decreases entries.len() - i,
    {
        let ghost m = addr_map(entries@.take(i as int));
        assert(entries@.take(i + 1).drop_last() =~= entries@.take(i as int));
        assert(entries@.take(i + 1).last() == entries@[i as int]);
        let e = &entries[i];
        if !e.loopback {
            let ghost n = e.name@;
            let k = (e.family, e.bits);
            let ghost old_set = if m.contains_key(n) {
                m[n]
            } else {
                Set::empty()
            };
            let ghost m2 = m.insert(n, old_set.insert(k));
            assert(addr_map(entries@.take(i + 1)) == m2);
            let name = chars_of(e.name.as_str());
            let mut p: usize = 0;
            while p < gs.len() && name_less(chars_of(gs[p].name.as_str()).as_slice(), name.as_slice())
                invariant
                    p <= gs.len(),
                    name@ == n,
                    forall|j: int| 0 <= j < p ==> name_lt(#[trigger] gs@[j].name@, n),
                decreases gs.len() - p,
            {
                p = p + 1;
            }
            let ghost old_gs = gs@;
            if p < gs.len() && str_eq(gs[p].name.as_str(), e.name.as_str()) {
                let mut g = gs.remove(p);
                assert(g == old_gs[p as int]);
                assert(old_set == g.addresses@.to_set());
                insert_key(&mut g.addresses, k);
                gs.insert(p, g);
                assert(gs@ =~= old_gs.update(p as int, g));
                assert forall|j: int| 0 <= j < gs@.len() implies {
                    &&& keys_sorted((#[trigger] gs@[j]).addresses@)
                    &&& m2.contains_key(gs@[j].name@)
                    &&& gs@[j].addresses@.to_set() == m2[gs@[j].name@]
                } by {
                    if j != p {
                        assert(gs@[j] == old_gs[j]);
                        if j < p {
                            lemma_name_lt_irreflexive(n);
                        } else {
                            lemma_name_lt_irreflexive(n);
                            assert(name_lt(old_gs[p as int].name@, old_gs[j].name@));
                        }
                        assert(gs@[j].name@ != n);
                    }
                }
                assert forall|nn: Seq<char>| #[trigger] m2.contains_key(nn) implies exists|j: int|
                    0 <= j < gs@.len() && gs@[j].name@ == nn by {
                    if nn == n {
                        assert(gs@[p as int].name@ == nn);
                    } else {
                        assert(m.contains_key(nn));
                        let j = choose|j: int| 0 <= j < old_gs.len() && old_gs[j].name@ == nn;
                        assert(gs@[j].name@ == nn);
                    }
                }
            } else {
                proof {
                    lemma_name_lt_irreflexive(n);
                    if p < old_gs.len() {
                        assert(old_gs[p as int].name@ != n);
                        lemma_name_lt_total(old_gs[p as int].name@, n);
                        assert(name_lt(n, old_gs[p as int].name@));
                    }
                }
                assert(!m.contains_key(n)) by {
                    if m.contains_key(n) {
                        let j = choose|j: int| 0 <= j < old_gs.len() && old_gs[j].name@ == n;
                        if j < p {
                            assert(name_lt(old_gs[j].name@, n));
                        } else if j > p {
                            assert(name_lt(old_gs[p as int].name@, old_gs[j].name@));
                            lemma_name_lt_transitive(n, old_gs[p as int].name@, n);
                        }
                    }
                }
                let mut addresses: Vec<(u8, u128)> = Vec::new();
                addresses.push(k);
                assert(addresses@.to_set() =~= Set::<(u8, u128)>::empty().insert(k)) by {
                    assert(addresses@[0] == k);
                    assert forall|x: (u8, u128)| addresses@.to_set().contains(x) == (x == k) by {
                        if x == k {
                            assert(addresses@.contains(x));
                        }
                    }
                }
                let g = InterfaceGroup { name: e.name.clone(), addresses };
                gs.insert(p, g);
                assert forall|a: int, b: int| 0 <= a < b < gs@.len() implies name_lt(
                    #[trigger] gs@[a].name@,
                    #[trigger] gs@[b].name@,
                ) by {
                    if b < p {
                        assert(gs@[a] == old_gs[a] && gs@[b] == old_gs[b]);
                    } else if b == p {
                        assert(gs@[a] == old_gs[a]);
                    } else if a < p {
                        assert(gs@[a] == old_gs[a] && gs@[b] == old_gs[b - 1]);
                        assert(name_lt(old_gs[a].name@, n));
                        if b - 1 > p {
                            assert(name_lt(old_gs[p as int].name@, old_gs[b - 1].name@));
                            lemma_name_lt_transitive(n, old_gs[p as int].name@, old_gs[b - 1].name@);
                        }
                        lemma_name_lt_transitive(old_gs[a].name@, n, old_gs[b - 1].name@);
                    } else if a == p {
                        assert(gs@[b] == old_gs[b - 1]);
                        if b - 1 > p {
                            assert(name_lt(old_gs[p as int].name@, old_gs[b - 1].name@));
                            lemma_name_lt_transitive(n, old_gs[p as int].name@, old_gs[b - 1].name@);
                        }
                    } else {
                        assert(gs@[a] == old_gs[a - 1] && gs@[b] == old_gs[b - 1]);
                    }
                }
                assert forall|j: int| 0 <= j < gs@.len() implies {
                    &&& keys_sorted((#[trigger] gs@[j]).addresses@)
                    &&& m2.contains_key(gs@[j].name@)
                    &&& gs@[j].addresses@.to_set() == m2[gs@[j].name@]
                } by {
                    if j < p {
                        assert(gs@[j] == old_gs[j]);
                        assert(gs@[j].name@ != n);
                    } else if j > p {
                        assert(gs@[j] == old_gs[j - 1]);
                        assert(name_lt(n, gs@[j].name@)) by {
                            if j - 1 > p {
                                assert(name_lt(old_gs[p as int].name@, old_gs[j - 1].name@));
                                lemma_name_lt_transitive(n, old_gs[p as int].name@, old_gs[j - 1].name@);
                            }
                        }
                        assert(gs@[j].name@ != n);
                    } else {
                        assert(gs@[j] == g);
                    }
                }
                assert forall|nn: Seq<char>| #[trigger] m2.contains_key(nn) implies exists|j: int|
                    0 <= j < gs@.len() && gs@[j].name@ == nn by {
                    if nn == n {
                        assert(gs@[p as int].name@ == nn);
                    } else {
                        assert(m.contains_key(nn));
                        let j = choose|j: int| 0 <= j < old_gs.len() && old_gs[j].name@ == nn;
                        if j < p {
                            assert(gs@[j].name@ == nn);
                        } else {
                            assert(gs@[j + 1].name@ == nn);
                        }
                    }
                }
            }
        }
        i = i + 1;
    }
    assert(entries@.take(entries.len() as int) =~= entries@);
    gs
}

/// Listing addresses works address by address: the lines of two runs of
/// addresses, one after the other, are the lines of each, one after the
/// other.
pub proof fn law_addresses_text_concat(a: Seq<String>, b: Seq<String>)
    ensures
        addresses_text(a + b) == addresses_text(a) + addresses_text(b),
    decreases b.len(),
{
    if b.len() == 0 {
        assert(a + b =~= a);
        assert(addresses_text(a) + addresses_text(b) =~= addresses_text(a));
    } else {
        law_addresses_text_concat(a, b.drop_last());
        assert((a + b).drop_last() =~= a + b.drop_last());
        assert((a + b).last() == b.last());
        assert(addresses_text(a) + (addresses_text(b.drop_last()) + "\n  "@ + b.last()@) =~= (
        addresses_text(a) + addresses_text(b.drop_last())) + "\n  "@ + b.last()@);
    }
}

/// One address is listed as a line break, two spaces and its text.
pub proof fn law_address_text_single(x: String)
    ensures
        addresses_text(seq![x]) == "\n  "@ + x@,
{
    assert(seq![x].drop_last() =~= Seq::<String>::empty());
    assert(addresses_text(seq![x].drop_last()) == Seq::<char>::empty());
    assert(seq![x].last() == x);
    assert(Seq::<char>::empty() + "\n  "@ + x@ =~= "\n  "@ + x@);
}

/// Reporting interfaces works interface by interface.
pub proof fn law_interfaces_text_concat(a: Seq<Interface>, b: Seq<Interface>)
    ensures
        interfaces_text(a + b) == interfaces_text(a) + interfaces_text(b),
    decreases b.len(),
{
    if b.len() == 0 {
        assert(a + b =~= a);
        assert(interfaces_text(a) + interfaces_text(b) =~= interfaces_text(a));
    } else {
        law_interfaces_text_concat(a, b.drop_last());
        assert((a + b).drop_last() =~= a + b.drop_last());
        assert((a + b).last() == b.last());
        assert(interfaces_text(a) + (interfaces_text(b.drop_last()) + interface_text(b.last())) =~= (
        interfaces_text(a) + interfaces_text(b.drop_last())) + interface_text(b.last()));
    }
}

/// One interface is reported as a blank line, its name, one line per
/// address, and a line break.
pub proof fn law_interface_text_single(i: Interface)
    ensures
        interfaces_text(seq![i]) == "\n"@ + i.name@ + addresses_text(i.addresses@) + "\n"@,
{
    assert(seq![i].drop_last() =~= Seq::<Interface>::empty());
    assert(interfaces_text(seq![i].drop_last()) == Seq::<char>::empty());
    assert(seq![i].last() == i);
    assert(Seq::<char>::empty() + interface_text(i) =~= interface_text(i));
}

/// Whether entry `e` reports address `k` of interface `n`.
pub open spec fn reports(e: InterfaceAddr, n: Seq<char>, k: (u8, u128)) -> bool {
    !e.loopback && e.name@ == n && (e.family, e.bits) == k
}

/// An interface is listed exactly when some address of it is not a loopback
/// address, and it is listed with exactly those addresses.
pub proof fn law_addr_map(entries: Seq<InterfaceAddr>, n: Seq<char>, k: (u8, u128))
    ensures
        addr_map(entries).contains_key(n) <==> exists|i: int|
            0 <= i < entries.len() && !(#[trigger] entries[i]).loopback && entries[i].name@ == n,
        addr_map(entries).contains_key(n) ==> (addr_map(entries)[n].contains(k) <==> exists|i: int|
            0 <= i < entries.len() && reports(#[trigger] entries[i], n, k)),
    decreases entries.len(),
{
    if entries.len() > 0 {
        let init = entries.drop_last();
        let e = entries.last();
        law_addr_map(init, n, k);
        assert forall|i: int| 0 <= i < init.len() implies #[trigger] init[i] == entries[i] by {}
        let last = entries.len() - 1;
        assert(entries[last] == e);
        if exists|i: int| 0 <= i < entries.len() && !(#[trigger] entries[i]).loopback && entries[i].name@ == n {
            let i = choose|i: int| 0 <= i < entries.len() && !(#[trigger] entries[i]).loopback && entries[i].name@ == n;
            if i < last {
                assert(init[i] == entries[i]);
            }
        }
        if exists|i: int| 0 <= i < entries.len() && reports(#[trigger] entries[i], n, k) {
            let i = choose|i: int| 0 <= i < entries.len() && reports(#[trigger] entries[i], n, k);
            if i < last {
                assert(init[i] == entries[i]);
            }
        }
    }
}

} // verus!
