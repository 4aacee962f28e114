//! The proxy exports the emulator hands to the guest: each `dll!function`
//! key gets a fresh fake import address the first time it is asked for,
//! and the hook dispatcher maps such an address back to its key.

use vstd::prelude::*;
use vstd::string::StringExecFns;
use crate::logtext::chars_of;

verus! {

/// The value paired with the first `key` in `entries`.
pub open spec fn lookup<K, V>(entries: Seq<(K, V)>, key: K) -> Option<V>
    decreases entries.len(),
{
    if entries.len() == 0 {
        None
    } else if entries[0].0 == key {
        Some(entries[0].1)
    } else {
        lookup(entries.drop_first(), key)
    }
}

/// `entries` after setting `key` to `value`: the first entry for `key`
/// changes, or a new entry goes at the end.
pub open spec fn assigned<K, V>(entries: Seq<(K, V)>, key: K, value: V) -> Seq<(K, V)>
    decreases entries.len(),
{
    if entries.len() == 0 {
        seq![(key, value)]
    } else if entries[0].0 == key {
        entries.update(0, (key, value))
    } else {
        seq![entries[0]] + assigned(entries.drop_first(), key, value)
    }
}

proof fn lemma_lookup_assigned<K, V>(entries: Seq<(K, V)>, key: K, value: V, other: K)
    ensures
        lookup(assigned(entries, key, value), key) == Some(value),
        other != key ==> lookup(assigned(entries, key, value), other) == lookup(entries, other),
    decreases entries.len(),
{
    if entries.len() == 0 {
        let one = seq![(key, value)];
        assert(one.drop_first() =~= Seq::<(K, V)>::empty());
        assert(lookup(Seq::<(K, V)>::empty(), other) is None);
        assert(other != key ==> lookup(one, other) == lookup(one.drop_first(), other));
    } else if entries[0].0 != key {
        lemma_lookup_assigned(entries.drop_first(), key, value, other);
        let a = seq![entries[0]] + assigned(entries.drop_first(), key, value);
        assert(a[0] == entries[0]);
        assert(a.drop_first() =~= assigned(entries.drop_first(), key, value));
        assert(other != key ==> lookup(a, other) == lookup(entries, other));
    } else {
        let u = entries.update(0, (key, value));
        assert(u[0] == (key, value));
        assert(u.drop_first() =~= entries.drop_first());
        assert(other != key ==> lookup(u, other) == lookup(u.drop_first(), other));
    }
}

/// The key of the proxy export `symbol` of `dll`: `dll!symbol`.
pub open spec fn proxy_key(dll: Seq<char>, symbol: Seq<char>) -> Seq<char> {
    dll + "!"@ + symbol
}

fn text_eq(a: &str, b: &str) -> (r: bool)
    ensures
        r == (a@ == b@),
{
    let x = chars_of(a);
    let y = chars_of(b);
    if x.len() != y.len() {
        return false;
    }
    let mut i: usize = 0;
    while i < x.len()
        invariant
            x@ == a@,
            y@ == b@,
            x@.len() == y@.len(),
            0 <= i <= x@.len(),
            forall|k: int| 0 <= k < i ==> x@[k] == y@[k],
        decreases x@.len() - i,
    {
        if x[i] != y[i] {
            return false;
        }
        i = i + 1;
    }
    proof {
        assert(x@ =~= y@);
    }
    true
}

/// What registering `key` does: `after` is `before` with `addr` the address
/// already recorded for `key`, or with `addr` the next address, recorded
/// both ways.
pub open spec fn registration(before: ProxyExports, after: ProxyExports, key: Seq<char>, addr: u32) -> bool {
    match lookup(before.export_entries(), key) {
        Some(a) => addr == a && after == before,
        None => {
            &&& addr == before.next_address
            &&& after.next_address == before.next_address.wrapping_add(4)
            &&& after.export_entries() == before.export_entries().push((key, addr))
            &&& after.symbol_entries() == assigned(before.symbol_entries(), addr, key)
        },
    }
}

/// The proxy exports by key, the dispatcher's map from fake import
/// addresses back to keys, and the next fake import address.
pub struct ProxyExports {
    pub exports: Vec<(String, u32)>,
    pub symbols: Vec<(u32, String)>,
    pub next_address: u32,
}

impl ProxyExports {
    /// The exports by key, in the order they were first set.
    pub closed spec fn export_entries(&self) -> Seq<(Seq<char>, u32)> {
        self.exports@.map_values(|e: (String, u32)| (e.0@, e.1))
    }

    /// The keys by fake import address, in the order they were added.
    pub closed spec fn symbol_entries(&self) -> Seq<(u32, Seq<char>)> {
        self.symbols@.map_values(|e: (u32, String)| (e.0, e.1@))
    }

    /// No proxy exports yet; the first fake import address is `base`.
    pub fn new(base: u32) -> (p: ProxyExports)
        ensures
            p.export_entries() == Seq::<(Seq<char>, u32)>::empty(),
            p.symbol_entries() == Seq::<(u32, Seq<char>)>::empty(),
            p.next_address == base,
    {
        let p = ProxyExports { exports: Vec::new(), symbols: Vec::new(), next_address: base };
        proof {
            assert(p.export_entries() =~= Seq::<(Seq<char>, u32)>::empty());
            assert(p.symbol_entries() =~= Seq::<(u32, Seq<char>)>::empty());
        }
        p
    }

    /// The address recorded for `key`.
    pub fn get(&self, key: &str) -> (r: Option<u32>)
        ensures
            r == lookup(self.export_entries(), key@),
    {
        let mut i: usize = 0;
        proof {
            assert(self.export_entries().skip(0) =~= self.export_entries());
        }
        while i < self.exports.len()
            invariant
                0 <= i <= self.exports@.len(),
                lookup(self.export_entries(), key@) == lookup(self.export_entries().skip(i as int), key@),
            decreases self.exports@.len() - i,
        {
            let ghost rest = self.export_entries().skip(i as int);
            proof {
                assert(rest[0] == (self.exports@[i as int].0@, self.exports@[i as int].1));
                assert(rest.drop_first() =~= self.export_entries().skip(i + 1));
            }
            if text_eq(self.exports[i].0.as_str(), key) {
                return Some(self.exports[i].1);
            }
            i = i + 1;
        }
        None
    }

    /// Records `value` for `key`, replacing what `key` had.
    pub fn insert(&mut self, key: &str, value: u32)
        ensures
            final(self).export_entries() == assigned(old(self).export_entries(), key@, value),
            final(self).symbol_entries() == old(self).symbol_entries(),
            final(self).next_address == old(self).next_address,
    {
        let ghost e0 = self.export_entries();
        let mut i: usize = 0;
        while i < self.exports.len()
            invariant
                0 <= i <= self.exports@.len(),
                self.exports@ == old(self).exports@,
                self.symbols@ == old(self).symbols@,
                self.next_address == old(self).next_address,
                e0 == self.export_entries(),
                forall|k: int| 0 <= k < i ==> #[trigger] e0[k].0 != key@,
            decreases self.exports@.len() - i,
        {
            if text_eq(self.exports[i].0.as_str(), key) {
                let ghost before = self.exports@;
                self.exports.set(i, (key.to_owned(), value));
                proof {
                    lemma_assigned_at(e0, i as int, key@, value);
                    assert(self.export_entries() =~= e0.update(i as int, (key@, value)));
                }
                return;
            }
            i = i + 1;
        }
        self.exports.push((key.to_owned(), value));
        proof {
            lemma_assigned_absent(e0, key@, value);
            assert(self.export_entries() =~= e0.push((key@, value)));
        }
    }

    /// The key whose fake import address is `addr`.
    pub fn symbol_at(&self, addr: u32) -> (r: Option<String>)
        ensures
            match r {
                Some(s) => lookup(self.symbol_entries(), addr) == Some(s@),
                None => lookup(self.symbol_entries(), addr) is None,
            },
    {
        let mut i: usize = 0;
        proof {
            assert(self.symbol_entries().skip(0) =~= self.symbol_entries());
        }
        while i < self.symbols.len()
            invariant
                0 <= i <= self.symbols@.len(),
                lookup(self.symbol_entries(), addr) == lookup(self.symbol_entries().skip(i as int), addr),
            decreases self.symbols@.len() - i,
        {
            let ghost rest = self.symbol_entries().skip(i as int);
            proof {
                assert(rest[0] == (self.symbols@[i as int].0, self.symbols@[i as int].1@));
                assert(rest.drop_first() =~= self.symbol_entries().skip(i + 1));
            }
            if self.symbols[i].0 == addr {
                return Some(self.symbols[i].1.clone());
            }
            i = i + 1;
        }
        None
    }

    /// The fake import address of `symbol` in `dll`: the one given before,
    /// or the next free one (which the dispatcher then maps back to the key;
    /// the next address moves on by 4, wrapping).
    pub fn register_proxy_symbol(&mut self, dll: &str, symbol: &str) -> (addr: u32)
        ensures
            ({
                let key = proxy_key(dll@, symbol@);
                match lookup(old(self).export_entries(), key) {
                    Some(a) => addr == a && *final(self) == *old(self),
                    None => {
                        &&& addr == old(self).next_address
                        &&& final(self).next_address == old(self).next_address.wrapping_add(4)
                        &&& final(self).export_entries() == old(self).export_entries().push((key, addr))
                        &&& final(self).symbol_entries() == assigned(old(self).symbol_entries(), addr, key)
                    },
                }
            }),
    {
        let mut key = dll.to_owned();
        key.append("!");
        key.append(symbol);
        proof {
            reveal_strlit("!");
        }
        match self.get(key.as_str()) {
            Some(a) => return a,
            None => {},
        }
        let addr = self.next_address;
        self.next_address = self.next_address.wrapping_add(4);
        proof {
            lemma_lookup_none(self.export_entries(), key@);
            lemma_assigned_absent(self.export_entries(), key@, addr);
        }
        self.insert(key.as_str(), addr);
        self.set_symbol(addr, key);
        addr
    }

    fn set_symbol(&mut self, addr: u32, key: String)
        ensures
            final(self).symbol_entries() == assigned(old(self).symbol_entries(), addr, key@),
            final(self).export_entries() == old(self).export_entries(),
            final(self).next_address == old(self).next_address,
    {
        let ghost s0 = self.symbol_entries();
        let ghost kv = key@;
        let mut i: usize = 0;
        while i < self.symbols.len()
            invariant
                0 <= i <= self.symbols@.len(),
                self.symbols@ == old(self).symbols@,
                self.exports@ == old(self).exports@,
                self.next_address == old(self).next_address,
                s0 == self.symbol_entries(),
                kv == key@,
                forall|k: int| 0 <= k < i ==> #[trigger] s0[k].0 != addr,
            decreases self.symbols@.len() - i,
        {
            if self.symbols[i].0 == addr {
                self.symbols.set(i, (addr, key));
                proof {
                    lemma_assigned_at(s0, i as int, addr, kv);
                    assert(self.symbol_entries() =~= s0.update(i as int, (addr, kv)));
                }
                return;
            }
            i = i + 1;
        }
        self.symbols.push((addr, key));
        proof {
            lemma_assigned_absent(s0, addr, kv);
            assert(self.symbol_entries() =~= s0.push((addr, kv)));
        }
    }
}

proof fn lemma_assigned_at<K, V>(entries: Seq<(K, V)>, i: int, key: K, value: V)
    requires
        0 <= i < entries.len(),
        entries[i].0 == key,
        forall|k: int| 0 <= k < i ==> #[trigger] entries[k].0 != key,
    ensures
        assigned(entries, key, value) == entries.update(i, (key, value)),
    decreases i,
{
    if i > 0 {
        let rest = entries.drop_first();
        assert forall|k: int| 0 <= k < i - 1 implies #[trigger] rest[k].0 != key by {
            assert(rest[k] == entries[k + 1]);
        }
        lemma_assigned_at(rest, i - 1, key, value);
        assert(seq![entries[0]] + rest.update(i - 1, (key, value)) =~= entries.update(i, (key, value)));
    }
}

proof fn lemma_assigned_absent<K, V>(entries: Seq<(K, V)>, key: K, value: V)
    requires
        forall|k: int| 0 <= k < entries.len() ==> #[trigger] entries[k].0 != key,
    ensures
        assigned(entries, key, value) == entries.push((key, value)),
        lookup(entries, key) is None,
    decreases entries.len(),
{
    if entries.len() > 0 {
        let rest = entries.drop_first();
        assert forall|k: int| 0 <= k < rest.len() implies #[trigger] rest[k].0 != key by {
            assert(rest[k] == entries[k + 1]);
        }
        lemma_assigned_absent(rest, key, value);
        assert(seq![entries[0]] + rest.push((key, value)) =~= entries.push((key, value)));
    }
}

/// Asking again for a registered symbol gives the same address, and the
/// dispatcher maps a newly given address back to the symbol's key.
pub proof fn lemma_proxy_symbol_stable(
    exports: Seq<(Seq<char>, u32)>, symbols: Seq<(u32, Seq<char>)>, key: Seq<char>, addr: u32,
)
    requires
        lookup(exports, key) is None,
    ensures
        lookup(exports.push((key, addr)), key) == Some(addr),
        lookup(assigned(symbols, addr, key), addr) == Some(key),
{
    lemma_lookup_push(exports, key, addr);
    lemma_lookup_assigned(symbols, addr, key, addr);
}

proof fn lemma_lookup_none<K, V>(entries: Seq<(K, V)>, key: K)
    requires
        lookup(entries, key) is None,
    ensures
        forall|k: int| 0 <= k < entries.len() ==> #[trigger] entries[k].0 != key,
    decreases entries.len(),
{
    if entries.len() > 0 {
        let rest = entries.drop_first();
        lemma_lookup_none(rest, key);
        assert forall|k: int| 0 <= k < entries.len() implies #[trigger] entries[k].0 != key by {
            if k > 0 {
                assert(entries[k] == rest[k - 1]);
            }
        }
    }
}

proof fn lemma_lookup_push<K, V>(entries: Seq<(K, V)>, key: K, value: V)
    requires
        lookup(entries, key) is None,
    ensures
        lookup(entries.push((key, value)), key) == Some(value),
    decreases entries.len(),
{
    if entries.len() > 0 {
        lemma_lookup_push(entries.drop_first(), key, value);
        assert(entries.push((key, value)).drop_first() =~= entries.drop_first().push((key, value)));
    }
}

} // verus!
