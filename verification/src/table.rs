//! Small ordered tables: a map kept as a vector sorted by key.
use vstd::prelude::*;

use crate::addr::{Ipv4Addr, SocketAddrV4};

verus! {

/// A key that a number below `2^128` stands for. Keys are ordered by it.
pub trait Key: Copy {
    /// The number that stands for this key.
    spec fn rank(self) -> int;

    /// Computes the number that stands for this key.
    fn number(self) -> (n: u128)
        ensures
            n == self.rank(),
    ;

    /// Different keys have different numbers.
    proof fn lemma_distinct(a: Self, b: Self)
        requires
            a.rank() == b.rank(),
        ensures
            a == b,
    ;
}

impl Key for Ipv4Addr {
    open spec fn rank(self) -> int {
        ((self.a * 256 + self.b) * 256 + self.c) * 256 + self.d
    }

    fn number(self) -> (n: u128) {
        ((self.a as u128 * 256 + self.b as u128) * 256 + self.c as u128) * 256 + self.d as u128
    }

    proof fn lemma_distinct(a: Self, b: Self) {
    }
}

impl Key for SocketAddrV4 {
    open spec fn rank(self) -> int {
        self.ip.rank() * 65536 + self.port
    }

    fn number(self) -> (n: u128) {
        let ip: u128 = self.ip.number();
        ip * 65536 + self.port as u128
    }

    proof fn lemma_distinct(a: Self, b: Self) {
        Ipv4Addr::lemma_distinct(a.ip, b.ip);
    }
}

/// A directed pair of port numbers.
#[derive(Clone, Copy, Debug, PartialEq, Eq, Structural)]
pub struct Edge {
    pub from: usize,
    pub to: usize,
}

impl Key for Edge {
    open spec fn rank(self) -> int {
        self.from * 0x1_0000_0000_0000_0000 + self.to
    }

    fn number(self) -> (n: u128) {
        self.from as u128 * 0x1_0000_0000_0000_0000 + self.to as u128
    }

    proof fn lemma_distinct(a: Self, b: Self) {
    }
}

/// Whether the keys of `entries` strictly ascend.
pub open spec fn ascending<K: Key, V>(entries: Seq<(K, V)>) -> bool {
    forall|i: int, j: int|
        0 <= i < j < entries.len() ==> (#[trigger] entries[i]).0.rank() < (
        #[trigger] entries[j]).0.rank()
}

/// The map that sorted entries stand for.
pub open spec fn entries_map<K: Key, V>(entries: Seq<(K, V)>) -> Map<K, V> {
    Map::new(
        |k: K| exists|i: int| 0 <= i < entries.len() && (#[trigger] entries[i]).0 == k,
        |k: K| entries[choose|i: int| 0 <= i < entries.len() && (#[trigger] entries[i]).0 == k].1,
    )
}

/// An entry of sorted entries is what the map holds under its key.
pub proof fn lemma_entry<K: Key, V>(entries: Seq<(K, V)>, i: int)
    requires
        ascending(entries),
        0 <= i < entries.len(),
    ensures
        entries_map(entries).contains_key(entries[i].0),
        entries_map(entries)[entries[i].0] == entries[i].1,
{
    let k = entries[i].0;
    let j = choose|j: int| 0 <= j < entries.len() && (#[trigger] entries[j]).0 == k;
    if i < j {
        assert(entries[i].0.rank() < entries[j].0.rank());
    } else if j < i {
        assert(entries[j].0.rank() < entries[i].0.rank());
    }
}

/// A map has as many keys as there are entries.
pub proof fn lemma_count<K: Key, V>(entries: Seq<(K, V)>)
    requires
        ascending(entries),
    ensures
        entries_map(entries).dom().finite(),
        entries_map(entries).len() == entries.len(),
{
    let keys = Seq::new(entries.len(), |i: int| entries[i].0);
    assert(keys.no_duplicates()) by {
        assert forall|i: int, j: int|
            0 <= i < keys.len() && 0 <= j < keys.len() && i != j implies keys[i] != keys[j] by {
            if i < j {
                assert(entries[i].0.rank() < entries[j].0.rank());
            } else {
                assert(entries[j].0.rank() < entries[i].0.rank());
            }
        }
    }
    keys.unique_seq_to_set();
    assert(entries_map(entries).dom() =~= keys.to_set()) by {
        assert forall|k: K| keys.to_set().contains(k) <==> entries_map(
            entries,
        ).dom().contains(k) by {
            if keys.to_set().contains(k) {
                let i = choose|i: int| 0 <= i < keys.len() && keys[i] == k;
                assert(entries[i].0 == k);
            }
            if entries_map(entries).dom().contains(k) {
                let i = choose|i: int| 0 <= i < entries.len() && (#[trigger] entries[i]).0 == k;
                assert(keys[i] == k);
            }
        }
    }
}

/// A map from keys to values, walked in the order of its keys.
pub struct Table<K, V> {
    entries: Vec<(K, V)>,
}

impl<K: Key, V: Copy> Table<K, V> {
    /// The entries, in the order of their keys.
    pub closed spec fn entries(self) -> Seq<(K, V)> {
        self.entries@
    }

    /// The map from keys to values.
    pub open spec fn view(self) -> Map<K, V> {
        entries_map(self.entries())
    }

    /// The keys ascend, so none occurs twice.
    pub open spec fn inv(self) -> bool {
        ascending(self.entries())
    }

    /// An empty table.
    pub fn new() -> (table: Self)
        ensures
            table.inv(),
            table.entries() == Seq::<(K, V)>::empty(),
            table@ == Map::<K, V>::empty(),
    {
        let table = Table { entries: Vec::new() };
        assert(table@ =~= Map::<K, V>::empty());
        table
    }

    /// How many entries there are.
    pub fn len(&self) -> (n: usize)
        ensures
            n == self.entries().len(),
    {
        self.entries.len()
    }

    /// The entry at position `i` of the order.
    pub fn at(&self, i: usize) -> (entry: (K, V))
        requires
            i < self.entries().len(),
        ensures
            entry == self.entries()[i as int],
    {
        self.entries[i]
    }

    /// Finds the first position whose key does not precede `key`.
    fn lower_bound(&self, key: K) -> (pos: usize)
        requires
            self.inv(),
        ensures
            pos <= self.entries().len(),
            forall|i: int| 0 <= i < pos ==> (#[trigger] self.entries()[i]).0.rank() < key.rank(),
            forall|i: int|
                pos <= i < self.entries().len() ==> (#[trigger] self.entries()[i]).0.rank()
                    >= key.rank(),
    {
        let wanted: u128 = key.number();
        let mut lo: usize = 0;
        let mut hi: usize = self.entries.len();
        while lo < hi
            invariant
                self.inv(),
                wanted == key.rank(),
                lo <= hi <= self.entries@.len(),
                forall|i: int| 0 <= i < lo ==> (#[trigger] self.entries()[i]).0.rank() < key.rank(),
                forall|i: int|
                    hi <= i < self.entries().len() ==> (#[trigger] self.entries()[i]).0.rank()
                        >= key.rank(),
            decreases hi - lo,
        {
            let mid: usize = lo + (hi - lo) / 2;
            let found: u128 = self.entries[mid].0.number();
            assert(self.entries()[mid as int].0.rank() == found);
            if found < wanted {
                lo = mid + 1;
            } else {
                hi = mid;
            }
        }
        lo
    }

    /// Whether `key` has an entry.
    pub fn contains_key(&self, key: K) -> (yes: bool)
        requires
            self.inv(),
        ensures
            yes == self@.contains_key(key),
    {
        self.get(key).is_some()
    }

    /// The value under `key`.
    pub fn get(&self, key: K) -> (value: Option<V>)
        requires
            self.inv(),
        ensures
            value is Some <==> self@.contains_key(key),
            value matches Some(v) ==> v == self@[key],
    {
        let pos: usize = self.lower_bound(key);
        if pos < self.entries.len() && self.entries[pos].0.number() == key.number() {
            proof {
                K::lemma_distinct(self.entries@[pos as int].0, key);
                lemma_entry(self.entries(), pos as int);
            }
            Some(self.entries[pos].1)
        } else {
            assert(!self@.contains_key(key)) by {
                if self@.contains_key(key) {
                    let i = choose|i: int|
                        0 <= i < self.entries().len() && (#[trigger] self.entries()[i]).0 == key;
                    assert(self.entries()[i].0.rank() == key.rank());
                    if i > pos {
                        assert(self.entries()[pos as int].0.rank() < self.entries()[i].0.rank());
                    }
                }
            }
            None
        }
    }

    /// Puts `value` under `key`, in place of what was there.
    pub fn insert(&mut self, key: K, value: V)
        requires
            old(self).inv(),
        ensures
            final(self).inv(),
            final(self)@ == old(self)@.insert(key, value),
            final(self).entries().len() == old(self).entries().len() + (if old(
                self,
            )@.contains_key(key) {
                0int
            } else {
                1
            }),
    {
        let pos: usize = self.lower_bound(key);
        let ghost before = self.entries@;
        if pos < self.entries.len() && self.entries[pos].0.number() == key.number() {
            proof {
                K::lemma_distinct(before[pos as int].0, key);
                lemma_entry(before, pos as int);
            }
            self.entries[pos] = (key, value);
            proof {
                let after = self.entries@;
                assert(after =~= before.update(pos as int, (key, value)));
                assert forall|i: int, j: int| 0 <= i < j < after.len() implies (
                #[trigger] after[i]).0.rank() < (#[trigger] after[j]).0.rank() by {
                    assert(before[i].0.rank() < before[j].0.rank());
                }
                assert forall|k: K| #[trigger]
                    entries_map(after).contains_key(k) <==> entries_map(before).insert(
                        key,
                        value,
                    ).contains_key(k) by {
                    lemma_replaced(before, after, pos as int, k);
                }
                assert forall|k: K| #[trigger] entries_map(after).contains_key(k) implies entries_map(
                    after,
                )[k] == entries_map(before).insert(key, value)[k] by {
                    lemma_replaced(before, after, pos as int, k);
                }
                assert(entries_map(after) =~= entries_map(before).insert(key, value));
            }
        } else {
            self.entries.insert(pos, (key, value));
            proof {
                let after = self.entries@;
                assert(after =~= before.insert(pos as int, (key, value)));
                if pos < before.len() {
                    assert(before[pos as int].0.rank() > key.rank());
                }
                assert forall|i: int| pos <= i < before.len() implies (
                #[trigger] before[i]).0.rank() > key.rank() by {
                    if i > pos {
                        assert(before[pos as int].0.rank() < before[i].0.rank());
                    }
                }
                assert forall|i: int, j: int| 0 <= i < j < after.len() implies (
                #[trigger] after[i]).0.rank() < (#[trigger] after[j]).0.rank() by {
                    let i0 = if i < pos {
                        i
                    } else {
                        i - 1
                    };
                    let j0 = if j < pos {
                        j
                    } else {
                        j - 1
                    };
                    if i != pos {
                        assert(after[i] == before[i0]);
                    }
                    if j != pos {
                        assert(after[j] == before[j0]);
                    }
                    if i != pos && j != pos {
                        assert(before[i0].0.rank() < before[j0].0.rank());
                    }
                }
                assert(!entries_map(before).contains_key(key)) by {
                    if entries_map(before).contains_key(key) {
                        let i = choose|i: int|
                            0 <= i < before.len() && (#[trigger] before[i]).0 == key;
                        assert(before[i].0.rank() == key.rank());
                    }
                }
                assert forall|k: K| #[trigger]
                    entries_map(after).contains_key(k) <==> entries_map(before).insert(
                        key,
                        value,
                    ).contains_key(k) by {
                    lemma_inserted(before, after, pos as int, key, value, k);
                }
                assert forall|k: K| #[trigger] entries_map(after).contains_key(k) implies entries_map(
                    after,
                )[k] == entries_map(before).insert(key, value)[k] by {
                    lemma_inserted(before, after, pos as int, key, value, k);
                }
                assert(entries_map(after) =~= entries_map(before).insert(key, value));
            }
        }
    }

    /// Removes every entry that `keep` rejects.
    pub(crate) fn retain<F: Fn(K, V) -> bool>(
        &mut self,
        keep: F,
        Ghost(p): Ghost<spec_fn((K, V)) -> bool>,
    )
        requires
            old(self).inv(),
            forall|k: K, v: V| keep.requires((k, v)),
            forall|k: K, v: V, b: bool| keep.ensures((k, v), b) ==> b == p((k, v)),
        ensures
            final(self).inv(),
            final(self).entries() == old(self).entries().filter(p),
            final(self).entries().len() <= old(self).entries().len(),
    {
        let ghost before = self.entries@;
        let mut kept: Vec<(K, V)> = Vec::new();
        let mut i: usize = 0;
        assert(before.take(0).filter(p) =~= Seq::<(K, V)>::empty()) by {
            reveal(Seq::filter);
        }
        while i < self.entries.len()
            invariant
                i <= self.entries@.len(),
                self.entries@ == before,
                kept@ == before.take(i as int).filter(p),
                kept@.len() <= i,
                forall|k: K, v: V| keep.requires((k, v)),
                forall|k: K, v: V, b: bool| keep.ensures((k, v), b) ==> b == p((k, v)),
            decreases self.entries@.len() - i,
        {
            let entry = self.entries[i];
            assert(before.take(i as int + 1).drop_last() =~= before.take(i as int));
            assert(before.take(i as int + 1).last() == entry);
            proof {
                reveal(Seq::filter);
            }
            if keep(entry.0, entry.1) {
                kept.push(entry);
            }
            i += 1;
        }
        assert(before.take(before.len() as int) =~= before);
        self.entries = kept;
        proof {
            lemma_filter_ascends(before, p);
        }
    }
}

/// Keeping the entries that satisfy `p` keeps them in order, and keeps exactly
/// those keys whose value satisfies it.
pub proof fn lemma_kept<K: Key, V>(entries: Seq<(K, V)>, p: spec_fn((K, V)) -> bool)
    requires
        ascending(entries),
    ensures
        ascending(entries.filter(p)),
        forall|k: K| #[trigger]
            entries_map(entries.filter(p)).contains_key(k) <==> (entries_map(entries).contains_key(k)
                && p((k, entries_map(entries)[k]))),
        forall|k: K| #[trigger]
            entries_map(entries.filter(p)).contains_key(k) ==> entries_map(entries.filter(p))[k]
                == entries_map(entries)[k],
{
    let kept = entries.filter(p);
    lemma_filter_ascends(entries, p);
    assert forall|k: K| #[trigger] entries_map(kept).contains_key(k) implies entries_map(
        entries,
    ).contains_key(k) && p((k, entries_map(entries)[k])) && entries_map(kept)[k] == entries_map(
        entries,
    )[k] by {
        let i = choose|i: int| 0 <= i < kept.len() && (#[trigger] kept[i]).0 == k;
        entries.lemma_filter_pred(p, i);
        entries.lemma_filter_contains_rev(p, kept[i]);
        let j = choose|j: int| 0 <= j < entries.len() && entries[j] == kept[i];
        lemma_entry(entries, j);
        lemma_entry(kept, i);
    }
    assert forall|k: K|
        entries_map(entries).contains_key(k) && p((k, entries_map(entries)[k])) implies #[trigger] entries_map(
    kept).contains_key(k) by {
        let j = choose|j: int| 0 <= j < entries.len() && (#[trigger] entries[j]).0 == k;
        lemma_entry(entries, j);
        entries.lemma_filter_contains(p, j);
        let i = choose|i: int| 0 <= i < kept.len() && kept[i] == entries[j];
        assert(kept[i].0 == k);
    }
}

/// A filtered ascending sequence ascends, and its last entry does not come
/// after the last one filtered.
proof fn lemma_filter_ascends<K: Key, V>(entries: Seq<(K, V)>, p: spec_fn((K, V)) -> bool)
    requires
        ascending(entries),
    ensures
        ascending(entries.filter(p)),
        forall|i: int|
            0 <= i < entries.filter(p).len() ==> (#[trigger] entries.filter(p)[i]).0.rank()
                <= entries.last().0.rank(),
    decreases entries.len(),
{
    reveal(Seq::filter);
    if entries.len() > 0 {
        let front = entries.drop_last();
        assert(ascending(front)) by {
            assert forall|i: int, j: int| 0 <= i < j < front.len() implies (
            #[trigger] front[i]).0.rank() < (#[trigger] front[j]).0.rank() by {
                assert(entries[i].0.rank() < entries[j].0.rank());
            }
        }
        lemma_filter_ascends(front, p);
        if front.len() > 0 {
            assert(front.last() == entries[entries.len() - 2]);
            assert(entries[entries.len() - 2].0.rank() < entries[entries.len() - 1].0.rank());
        }
    }
}

/// What replacing the value of one entry does to the map, key by key.
proof fn lemma_replaced<K: Key, V>(before: Seq<(K, V)>, after: Seq<(K, V)>, pos: int, k: K)
    requires
        ascending(before),
        ascending(after),
        0 <= pos < before.len(),
        after == before.update(pos, after[pos]),
        after[pos].0 == before[pos].0,
    ensures
        entries_map(after).contains_key(k) <==> entries_map(before).contains_key(k),
        entries_map(after).contains_key(k) ==> entries_map(after)[k] == (if k == before[pos].0 {
            after[pos].1
        } else {
            entries_map(before)[k]
        }),
{
    if entries_map(after).contains_key(k) {
        let i = choose|i: int| 0 <= i < after.len() && (#[trigger] after[i]).0 == k;
        assert(before[i].0 == k);
        lemma_entry(after, i);
        lemma_entry(before, i);
        lemma_entry(after, pos);
    }
    if entries_map(before).contains_key(k) {
        let i = choose|i: int| 0 <= i < before.len() && (#[trigger] before[i]).0 == k;
        assert(after[i].0 == k);
    }
}

/// What adding an entry does to the map, key by key.
proof fn lemma_inserted<K: Key, V>(
    before: Seq<(K, V)>,
    after: Seq<(K, V)>,
    pos: int,
    key: K,
    value: V,
    k: K,
)
    requires
        ascending(before),
        ascending(after),
        0 <= pos <= before.len(),
        after == before.insert(pos, (key, value)),
        !entries_map(before).contains_key(key),
    ensures
        entries_map(after).contains_key(k) <==> (k == key || entries_map(before).contains_key(k)),
        entries_map(after).contains_key(k) ==> entries_map(after)[k] == (if k == key {
            value
        } else {
            entries_map(before)[k]
        }),
{
    lemma_entry(after, pos);
    if entries_map(after).contains_key(k) && k != key {
        let i = choose|i: int| 0 <= i < after.len() && (#[trigger] after[i]).0 == k;
        let i0 = if i < pos {
            i
        } else {
            i - 1
        };
        assert(after[i] == before[i0]);
        lemma_entry(after, i);
        lemma_entry(before, i0);
    }
    if entries_map(before).contains_key(k) {
        let i0 = choose|i: int| 0 <= i < before.len() && (#[trigger] before[i]).0 == k;
        let i = if i0 < pos {
            i0
        } else {
            i0 + 1
        };
        assert(after[i] == before[i0]);
    }
}

} // verus!
