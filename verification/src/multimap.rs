//! A multimap: a key to set-of-values container kept as an association list
//! with distinct keys and duplicate-free value vectors, with a union
//! operation.  Duplicate key-value mappings are ignored.

use vstd::prelude::*;
use vstd::slice::slice_index_get;

verus! {

/// A 1-to-many map.  Keys appear at most once; each key's values are kept
/// as a duplicate-free, nonempty vector.
#[derive(Debug)]
pub struct MultiMap<K, V> {
    entries: Vec<(K, Vec<V>)>,
}

/// The first entry of the list whose key is `k`.
pub open spec fn alist_find<K, V>(s: Seq<(K, Vec<V>)>, k: K) -> Option<int>
    decreases s.len(),
{
    if s.len() == 0 {
        None
    } else if s[0].0 == k {
        Some(0)
    } else {
        match alist_find(s.drop_first(), k) {
            Some(i) => Some(i + 1),
            None => None,
        }
    }
}

/// The set of values an entry list associates with `k`.
pub open spec fn alist_val_set<K, V>(s: Seq<(K, Vec<V>)>, k: K) -> Set<V> {
    match alist_find(s, k) {
        Some(i) => s[i].1@.to_set(),
        None => Set::empty(),
    }
}

impl<K, V> MultiMap<K, V> {
    /// The set of values this map associates with `k`.
    pub closed spec fn val_set(&self, k: K) -> Set<V> {
        alist_val_set(self.entries@, k)
    }

    /// Keys are distinct and every value vector is duplicate-free and
    /// nonempty.
    pub closed spec fn inv(&self) -> bool {
        &&& forall|i: int, j: int|
            0 <= i < j < self.entries@.len() ==> #[trigger] self.entries@[i].0
                != #[trigger] self.entries@[j].0
        &&& forall|i: int|
            0 <= i < self.entries@.len() ==> (#[trigger] self.entries@[i].1@).no_duplicates()
                && self.entries@[i].1@.len() > 0
    }

    /// Whether the map holds no key at all.
    pub closed spec fn has_no_keys(&self) -> bool {
        self.entries@.len() == 0
    }

    /// How many keys the map holds.
    pub closed spec fn key_count(&self) -> nat {
        self.entries@.len()
    }

    /// The key of the `i`-th entry.
    pub closed spec fn key_at(&self, i: int) -> K {
        self.entries@[i].0
    }

    /// The values of the `i`-th entry.
    pub closed spec fn vals_at(&self, i: int) -> Seq<V> {
        self.entries@[i].1@
    }

    /// Make a new, empty multimap.
    pub fn new() -> (m: MultiMap<K, V>)
        ensures
            m.inv(),
            m.has_no_keys(),
            forall|k: K| m.val_set(k) == Set::<V>::empty(),
            m.key_count() == 0,
    {
        let m = MultiMap { entries: Vec::new() };
        proof {
            assert(forall|k: K| alist_find(m.entries@, k) is None);
        }
        m
    }

    /// The number of keys.
    pub fn num_entries(&self) -> (n: usize)
        ensures
            n == self.key_count(),
    {
        self.entries.len()
    }

    /// Whether the map holds no key at all.
    pub fn is_empty_map(&self) -> (r: bool)
        ensures
            r == self.has_no_keys(),
    {
        self.entries.len() == 0
    }
}

/// Finding a key is not disturbed by updating another entry in place, as
/// long as the entry keeps its key; and every found entry bears the key
/// that was sought.
proof fn lemma_alist_find_props<K, V>(s: Seq<(K, Vec<V>)>, k: K)
    ensures
        alist_find(s, k) matches Some(i) ==> 0 <= i < s.len() && s[i].0 == k && (forall|j: int|
            0 <= j < i ==> s[j].0 != k),
        alist_find(s, k) is None ==> forall|j: int| 0 <= j < s.len() ==> s[j].0 != k,
    decreases s.len(),
{
    if s.len() > 0 && !(s[0].0 == k) {
        let d = s.drop_first();
        lemma_alist_find_props(d, k);
        match alist_find(s, k) {
            Some(i) => {
                assert(alist_find(d, k) == Some(i - 1));
                assert(d[i - 1] == s[i]);
                assert forall|j: int| 0 <= j < i implies s[j].0 != k by {
                    if j > 0 {
                        assert(d[j - 1] == s[j]);
                    }
                }
            },
            None => {
                assert forall|j: int| 0 <= j < s.len() implies s[j].0 != k by {
                    if j > 0 {
                        assert(d[j - 1] == s[j]);
                    }
                }
            },
        }
    }
}

/// After updating entry `i` without changing its key, searches for every
/// key land where they landed before.
proof fn lemma_alist_find_update<K, V>(s: Seq<(K, Vec<V>)>, i: int, e: (K, Vec<V>), k: K)
    requires
        0 <= i < s.len(),
        e.0 == s[i].0,
    ensures
        alist_find(s.update(i, e), k) == alist_find(s, k),
    decreases s.len(),
{
    let s2 = s.update(i, e);
    if s.len() > 0 {
        if i == 0 {
            if !(s[0].0 == k) {
                assert(s2.drop_first() =~= s.drop_first());
            }
        } else {
            assert(s2[0] == s[0]);
            if !(s[0].0 == k) {
                assert(s2.drop_first() =~= s.drop_first().update(i - 1, e));
                lemma_alist_find_update(s.drop_first(), i - 1, e, k);
            }
        }
    }
}

/// Appending a fresh entry at the end does not disturb searches for other
/// keys, and is found for its own key exactly when that key was absent.
proof fn lemma_alist_find_push<K, V>(s: Seq<(K, Vec<V>)>, e: (K, Vec<V>), k: K)
    ensures
        k == e.0 && alist_find(s, k) is None ==> alist_find(s.push(e), k) == Some(s.len() as int),
        alist_find(s, k) matches Some(i) ==> alist_find(s.push(e), k) == Some(i),
        !(k == e.0) && alist_find(s, k) is None ==> alist_find(s.push(e), k) is None,
    decreases s.len(),
{
    let s2 = s.push(e);
    if s.len() == 0 {
        assert(s2.drop_first() =~= Seq::<(K, Vec<V>)>::empty());
        if k == e.0 {
            assert(s2[0].0 == k);
            assert(alist_find(s2, k) == Some(0int));
        } else {
            assert(alist_find(s2, k) is None);
        }
    } else {
        assert(s2[0] == s[0]);
        assert(s2.drop_first() =~= s.drop_first().push(e));
        lemma_alist_find_push(s.drop_first(), e, k);
        if s[0].0 == k {
            assert(alist_find(s2, k) == Some(0int));
        } else {
            assert(alist_find(s, k) == match alist_find(s.drop_first(), k) {
                Some(i) => Some(i + 1),
                None => None,
            });
            assert(alist_find(s2, k) == match alist_find(s2.drop_first(), k) {
                Some(i) => Some(i + 1),
                None => None,
            });
        }
    }
}

/// Removing entry `i` removes exactly its key from the map.
proof fn lemma_alist_find_remove<K, V>(s: Seq<(K, Vec<V>)>, i: int, k: K)
    requires
        0 <= i < s.len(),
        forall|a: int, b: int| 0 <= a < b < s.len() ==> #[trigger] s[a].0 != #[trigger] s[b].0,
    ensures
        k == s[i].0 ==> alist_find(s.remove(i), k) is None,
        !(k == s[i].0) ==> match alist_find(s.remove(i), k) {
            Some(j) => s.remove(i)[j] == s[alist_find(s, k).unwrap()] && alist_find(s, k) is Some,
            None => alist_find(s, k) is None,
        },
    decreases s.len(),
{
    lemma_alist_find_props(s, k);
    lemma_alist_find_props(s.remove(i), k);
    let s2 = s.remove(i);
    if k == s[i].0 {
        match alist_find(s2, k) {
            Some(j) => {
                let jj = if j < i {
                    j
                } else {
                    j + 1
                };
                assert(s2[j] == s[jj]);
            },
            None => {},
        }
    } else {
        match alist_find(s2, k) {
            Some(j) => {
                let jj = if j < i {
                    j
                } else {
                    j + 1
                };
                assert(s2[j] == s[jj]);
                let f = alist_find(s, k).unwrap();
                if f != jj {
                    if f < jj {
                        let f2 = if f < i {
                            f
                        } else {
                            f - 1
                        };
                        assert(s2[f2] == s[f]);
                    }
                }
            },
            None => {
                match alist_find(s, k) {
                    Some(f) => {
                        let f2 = if f < i {
                            f
                        } else {
                            f - 1
                        };
                        assert(s2[f2] == s[f]);
                    },
                    None => {},
                }
            },
        }
    }
}

/// The exec interface of the multimap, shared by both key types the
/// automata use (character labels and state ids).
pub trait MultiMapMethods<K, V>: Sized {
    /// The container's internal invariant.
    spec fn mm_inv(&self) -> bool;

    /// The set of values a key maps to.
    spec fn mm_val_set(&self, k: K) -> Set<V>;

    /// Whether the container holds no key at all.
    spec fn mm_has_no_keys(&self) -> bool;

    /// Get the set of values associated with a key.
    fn get_multi(&self, key: K) -> (r: Vec<V>)
        requires
            self.mm_inv(),
        ensures
            r@.to_set() == self.mm_val_set(key),
            r@.no_duplicates(),
    ;

    /// Add a mapping from a key to a value.
    fn add_multi(&mut self, key: K, value: V)
        requires
            old(self).mm_inv(),
        ensures
            final(self).mm_inv(),
            forall|k2: K| #[trigger] final(self).mm_val_set(k2) == (if k2 == key {
                old(self).mm_val_set(key).insert(value)
            } else {
                old(self).mm_val_set(k2)
            }),
            !final(self).mm_has_no_keys(),
    ;

    /// Add a set of mappings from a key to each given value.
    fn add_all_multi(&mut self, key: K, values: &Vec<V>)
        requires
            old(self).mm_inv(),
        ensures
            final(self).mm_inv(),
            forall|k2: K| #[trigger] final(self).mm_val_set(k2) == (if k2 == key {
                old(self).mm_val_set(key) + values@.to_set()
            } else {
                old(self).mm_val_set(k2)
            }),
            final(self).mm_has_no_keys() == (old(self).mm_has_no_keys() && values@.len() == 0),
    ;
}

/// Whether a vector holds a value.
pub fn contains_u16(v: &Vec<u16>, x: u16) -> (r: bool)
    ensures
        r == v@.to_set().contains(x),
{
    let n = v.len();
    let mut i: usize = 0;
    while i < n
        invariant
            i <= n,
            n == v@.len(),
            forall|j: int| 0 <= j < i ==> v@[j] != x,
        decreases n - i,
    {
        if v[i] == x {
            assert(v@.contains(x));
            return true;
        }
        i += 1;
    }
    assert(!v@.contains(x));
    false
}

/// Copies a vector of state ids.
pub fn copy_u16s(v: &Vec<u16>) -> (r: Vec<u16>)
    ensures
        r@ == v@,
{
    let n = v.len();
    let mut r: Vec<u16> = Vec::new();
    let mut i: usize = 0;
    while i < n
        invariant
            i <= n,
            n == v@.len(),
            r@ =~= v@.subrange(0, i as int),
        decreases n - i,
    {
        r.push(v[i]);
        i += 1;
    }
    assert(r@ =~= v@);
    r
}

impl<K, V> MultiMap<K, V> {
    /// The key of the `i`-th entry, for walking the entries.
    pub fn key_of_entry(&self, i: usize) -> (k: K)
        where K: Copy
        requires
            i < self.key_count(),
        ensures
            k == self.key_at(i as int),
    {
        self.entries[i].0
    }

    /// The values of the `i`-th entry, for walking the entries.
    pub fn vals_of_entry(&self, i: usize) -> (v: &Vec<V>)
        requires
            i < self.key_count(),
        ensures
            v@ == self.vals_at(i as int),
    {
        &self.entries[i].1
    }
}

/// Walking the entries of a well-formed multimap visits each key once,
/// with exactly its value set; keys never visited map to the empty set.
pub proof fn lemma_mm_iteration<K, V>(m: &MultiMap<K, V>)
    requires
        m.inv(),
    ensures
        forall|i: int, j: int| 0 <= i < j < m.key_count() ==> m.key_at(i) != m.key_at(j),
        forall|i: int|
            0 <= i < m.key_count() ==> (#[trigger] m.vals_at(i)).no_duplicates() && m.vals_at(
                i,
            ).len() > 0 && m.val_set(m.key_at(i)) == m.vals_at(i).to_set(),
        forall|k: K|
            (#[trigger] m.val_set(k)) == Set::<V>::empty() || exists|i: int|
                0 <= i < m.key_count() && m.key_at(i) == k,
{
    assert forall|i: int| 0 <= i < m.key_count() implies (#[trigger] m.vals_at(
        i,
    )).no_duplicates() && m.vals_at(i).len() > 0 && m.val_set(m.key_at(i)) == m.vals_at(
        i,
    ).to_set() by {
        let k = m.key_at(i);
        lemma_alist_find_props(m.entries@, k);
        match alist_find(m.entries@, k) {
            Some(f) => {
                if f != i {
                    assert(m.entries@[f].0 == m.entries@[i].0);
                }
            },
            None => {
                assert(m.entries@[i].0 == k);
            },
        }
    }
    assert forall|k: K| !((#[trigger] m.val_set(k)) == Set::<V>::empty()) implies exists|i: int|
        0 <= i < m.key_count() && m.key_at(i) == k by {
        lemma_alist_find_props(m.entries@, k);
        match alist_find(m.entries@, k) {
            Some(f) => {
                assert(0 <= f < m.key_count() && m.key_at(f) == k);
            },
            None => {},
        }
    }
}

pub proof fn lemma_push_to_set(s: Seq<u16>, v: u16)
    ensures
        s.push(v).to_set() == s.to_set().insert(v),
{
    assert forall|a: u16| s.push(v).to_set().contains(a) implies s.to_set().insert(v).contains(
        a,
    ) by {
        let idx = choose|idx: int| 0 <= idx < s.push(v).len() && s.push(v)[idx] == a;
        if idx < s.len() {
            assert(s.contains(a));
        }
    }
    assert forall|a: u16| s.to_set().insert(v).contains(a) implies s.push(v).to_set().contains(
        a,
    ) by {
        if a == v {
            assert(s.push(v)[s.len() as int] == v);
            assert(s.push(v).contains(a));
        } else {
            let idx = choose|idx: int| 0 <= idx < s.len() && s[idx] == a;
            assert(s.push(v)[idx] == a);
            assert(s.push(v).contains(a));
        }
    }
    assert(s.push(v).to_set() =~= s.to_set().insert(v));
}

/// Replaces the entry at `i` by the same key with one more value.
fn mm_add_found<K: Copy>(m: &mut MultiMap<K, u16>, i: usize, value: u16)
    requires
        old(m).inv(),
        i < old(m).key_count(),
    ensures
        final(m).inv(),
        !final(m).has_no_keys(),
        forall|k2: K| #[trigger] final(m).val_set(k2) == (if k2 == old(m).key_at(i as int) {
            old(m).val_set(old(m).key_at(i as int)).insert(value)
        } else {
            old(m).val_set(k2)
        }),
{
    let ghost s0 = m.entries@;
    let e = m.entries.remove(i);
    let ghost s1 = m.entries@;
    let k0 = e.0;
    let mut vals = e.1;
    let ghost v0 = vals@;
    if !contains_u16(&vals, value) {
        vals.push(value);
        proof {
            lemma_push_to_set(v0, value);
        }
    } else {
        proof {
            assert(v0.to_set() =~= v0.to_set().insert(value));
        }
    }
    proof {
        assert(vals@.to_set() == v0.to_set().insert(value));
        assert(vals@.no_duplicates());
        assert(vals@.len() > 0);
    }
    let ghost newe = (k0, vals);
    m.entries.push((k0, vals));
    proof {
        let key = s0[i as int].0;
        assert forall|k2: K| #[trigger] alist_val_set(m.entries@, k2) == (if k2 == key {
            alist_val_set(s0, key).insert(value)
        } else {
            alist_val_set(s0, k2)
        }) by {
            lemma_alist_find_props(s0, k2);
            lemma_alist_find_remove(s0, i as int, k2);
            lemma_alist_find_props(s1, k2);
            lemma_alist_find_push(s1, (key, vals), k2);
            lemma_alist_find_props(m.entries@, k2);
            if k2 == key {
                assert(alist_find(s1, k2) is None);
                assert(alist_find(m.entries@, k2) == Some(s1.len() as int));
                assert(alist_find(s0, k2) == Some(i as int));
            }
        }
        assert forall|a: int, b: int|
            0 <= a < b < m.entries@.len() implies #[trigger] m.entries@[a].0
            != #[trigger] m.entries@[b].0 by {
            if b + 1 == m.entries@.len() {
                lemma_alist_find_remove(s0, i as int, m.entries@[a].0);
                lemma_alist_find_props(s1, m.entries@[a].0);
                if m.entries@[a].0 == key {
                    assert(alist_find(s1, key) is None);
                    assert(s1[a] == m.entries@[a]);
                }
            } else {
                let a0 = if a < i {
                    a
                } else {
                    a + 1
                };
                let b0 = if b < i {
                    b
                } else {
                    b + 1
                };
                assert(s1[a] == s0[a0] && s1[b] == s0[b0]);
            }
        }
        assert forall|j: int|
            0 <= j < m.entries@.len() implies (#[trigger] m.entries@[j].1@).no_duplicates()
            && m.entries@[j].1@.len() > 0 by {
            if j + 1 < m.entries@.len() {
                let j0 = if j < i {
                    j
                } else {
                    j + 1
                };
                assert(s1[j] == s0[j0]);
            }
        }
    }
}

/// Appends a fresh entry for a key that is absent.
fn mm_add_fresh<K: Copy>(m: &mut MultiMap<K, u16>, key: K, value: u16)
    requires
        old(m).inv(),
        forall|j: int| 0 <= j < old(m).key_count() ==> old(m).key_at(j) != key,
    ensures
        final(m).inv(),
        !final(m).has_no_keys(),
        forall|k2: K| #[trigger] final(m).val_set(k2) == (if k2 == key {
            old(m).val_set(key).insert(value)
        } else {
            old(m).val_set(k2)
        }),
{
    let ghost s0 = m.entries@;
    let mut vals: Vec<u16> = Vec::new();
    vals.push(value);
    proof {
        assert(vals@ =~= Seq::<u16>::empty().push(value));
        lemma_push_to_set(Seq::<u16>::empty(), value);
        assert(Seq::<u16>::empty().to_set() =~= Set::<u16>::empty());
    }
    m.entries.push((key, vals));
    proof {
        lemma_alist_find_props(s0, key);
        match alist_find(s0, key) {
            Some(f) => {
                assert(old(m).key_at(f) == s0[f].0);
                assert(false);
            },
            None => {},
        }
        assert(alist_find(s0, key) is None);
        assert forall|k2: K| #[trigger] alist_val_set(m.entries@, k2) == (if k2 == key {
            alist_val_set(s0, key).insert(value)
        } else {
            alist_val_set(s0, k2)
        }) by {
            lemma_alist_find_props(s0, k2);
            lemma_alist_find_push(s0, (key, vals), k2);
            lemma_alist_find_props(m.entries@, k2);
        }
        assert forall|a: int, b: int|
            0 <= a < b < m.entries@.len() implies #[trigger] m.entries@[a].0
            != #[trigger] m.entries@[b].0 by {
            if b + 1 == m.entries@.len() {
                assert(m.entries@[a] == s0[a]);
            }
        }
    }
}

/// Replaces the entry at `i` by the same key extended with every given
/// value.
fn mm_extend_found<K: Copy>(m: &mut MultiMap<K, u16>, i: usize, values: &Vec<u16>)
    requires
        old(m).inv(),
        i < old(m).key_count(),
    ensures
        final(m).inv(),
        !final(m).has_no_keys(),
        forall|k2: K| #[trigger] final(m).val_set(k2) == (if k2 == old(m).key_at(i as int) {
            old(m).val_set(old(m).key_at(i as int)) + values@.to_set()
        } else {
            old(m).val_set(k2)
        }),
{
    let ghost s0 = m.entries@;
    let e = m.entries.remove(i);
    let ghost s1 = m.entries@;
    let k0 = e.0;
    let mut vals = e.1;
    let ghost v0 = vals@;
    let n = values.len();
    let mut t: usize = 0;
    while t < n
        invariant
            t <= n,
            n == values@.len(),
            vals@.to_set() == v0.to_set() + values@.subrange(0, t as int).to_set(),
            vals@.no_duplicates(),
            vals@.len() >= v0.len(),
        decreases n - t,
    {
        let ghost vcur = vals@;
        let x = values[t];
        if !contains_u16(&vals, x) {
            vals.push(x);
            proof {
                lemma_push_to_set(vcur, x);
            }
        }
        proof {
            assert(values@.subrange(0, t as int).push(x) =~= values@.subrange(0, t as int + 1));
            lemma_push_to_set(values@.subrange(0, t as int), x);
            assert(vals@.to_set() =~= v0.to_set() + values@.subrange(0, t as int + 1).to_set());
        }
        t += 1;
    }
    proof {
        assert(values@.subrange(0, n as int) =~= values@);
    }
    m.entries.push((k0, vals));
    proof {
        let key = s0[i as int].0;
        assert forall|k2: K| #[trigger] alist_val_set(m.entries@, k2) == (if k2 == key {
            alist_val_set(s0, key) + values@.to_set()
        } else {
            alist_val_set(s0, k2)
        }) by {
            lemma_alist_find_props(s0, k2);
            lemma_alist_find_remove(s0, i as int, k2);
            lemma_alist_find_props(s1, k2);
            lemma_alist_find_push(s1, (key, vals), k2);
            lemma_alist_find_props(m.entries@, k2);
            if k2 == key {
                assert(alist_find(s1, k2) is None);
                assert(alist_find(m.entries@, k2) == Some(s1.len() as int));
                assert(alist_find(s0, k2) == Some(i as int));
            }
        }
        assert forall|a: int, b: int|
            0 <= a < b < m.entries@.len() implies #[trigger] m.entries@[a].0
            != #[trigger] m.entries@[b].0 by {
            if b + 1 == m.entries@.len() {
                lemma_alist_find_remove(s0, i as int, m.entries@[a].0);
                lemma_alist_find_props(s1, m.entries@[a].0);
                if m.entries@[a].0 == key {
                    assert(alist_find(s1, key) is None);
                    assert(s1[a] == m.entries@[a]);
                }
            } else {
                let a0 = if a < i {
                    a
                } else {
                    a + 1
                };
                let b0 = if b < i {
                    b
                } else {
                    b + 1
                };
                assert(s1[a] == s0[a0] && s1[b] == s0[b0]);
            }
        }
        assert forall|j: int|
            0 <= j < m.entries@.len() implies (#[trigger] m.entries@[j].1@).no_duplicates()
            && m.entries@[j].1@.len() > 0 by {
            if j + 1 < m.entries@.len() {
                let j0 = if j < i {
                    j
                } else {
                    j + 1
                };
                assert(s1[j] == s0[j0]);
            }
        }
    }
}

/// Appends a fresh entry holding every given value, for an absent key.
fn mm_extend_fresh<K: Copy>(m: &mut MultiMap<K, u16>, key: K, values: &Vec<u16>)
    requires
        old(m).inv(),
        values@.len() > 0,
        forall|j: int| 0 <= j < old(m).key_count() ==> old(m).key_at(j) != key,
    ensures
        final(m).inv(),
        !final(m).has_no_keys(),
        forall|k2: K| #[trigger] final(m).val_set(k2) == (if k2 == key {
            old(m).val_set(key) + values@.to_set()
        } else {
            old(m).val_set(k2)
        }),
{
    let ghost s0 = m.entries@;
    let mut vals: Vec<u16> = Vec::new();
    let n = values.len();
    let mut t: usize = 0;
    while t < n
        invariant
            t <= n,
            n == values@.len(),
            vals@.to_set() == values@.subrange(0, t as int).to_set(),
            vals@.no_duplicates(),
            t > 0 ==> vals@.len() > 0,
        decreases n - t,
    {
        let ghost vcur = vals@;
        let x = values[t];
        if !contains_u16(&vals, x) {
            vals.push(x);
            proof {
                lemma_push_to_set(vcur, x);
            }
        }
        proof {
            assert(values@.subrange(0, t as int).push(x) =~= values@.subrange(0, t as int + 1));
            lemma_push_to_set(values@.subrange(0, t as int), x);
            assert(vals@.to_set() =~= values@.subrange(0, t as int + 1).to_set());
        }
        t += 1;
    }
    proof {
        assert(values@.subrange(0, n as int) =~= values@);
    }
    m.entries.push((key, vals));
    proof {
        lemma_alist_find_props(s0, key);
        match alist_find(s0, key) {
            Some(f) => {
                assert(old(m).key_at(f) == s0[f].0);
                assert(false);
            },
            None => {},
        }
        assert(alist_find(s0, key) is None);
        assert forall|k2: K| #[trigger] alist_val_set(m.entries@, k2) == (if k2 == key {
            alist_val_set(s0, key) + values@.to_set()
        } else {
            alist_val_set(s0, k2)
        }) by {
            lemma_alist_find_props(s0, k2);
            lemma_alist_find_push(s0, (key, vals), k2);
            lemma_alist_find_props(m.entries@, k2);
            if k2 == key {
                assert(alist_val_set(s0, key) =~= Set::<u16>::empty());
                assert(alist_val_set(m.entries@, k2) =~= alist_val_set(s0, key)
                    + values@.to_set());
            }
        }
        assert forall|a: int, b: int|
            0 <= a < b < m.entries@.len() implies #[trigger] m.entries@[a].0
            != #[trigger] m.entries@[b].0 by {
            if b + 1 == m.entries@.len() {
                assert(m.entries@[a] == s0[a]);
            }
        }
    }
}

impl MultiMap<char, u16> {
    /// The index of the entry holding `key`, if any.
    fn find_index(&self, key: char) -> (r: Option<usize>)
        ensures
            r matches Some(i) ==> i < self.key_count() && self.key_at(i as int) == key
                && alist_find(self.entries@, key) == Some(i as int),
            r is None ==> forall|j: int| 0 <= j < self.key_count() ==> self.key_at(j) != key,
            r is None ==> alist_find(self.entries@, key) is None,
    {
        let n = self.entries.len();
        let mut i: usize = 0;
        while i < n
            invariant
                i <= n,
                n == self.entries@.len(),
                forall|j: int| 0 <= j < i ==> self.entries@[j].0 != key,
            decreases n - i,
        {
            if self.entries[i].0 == key {
                proof {
                    lemma_alist_find_props(self.entries@, key);
                    match alist_find(self.entries@, key) {
                        Some(f) => {
                            assert(f == i);
                        },
                        None => {
                            assert(self.entries@[i as int].0 == key);
                            assert(false);
                        },
                    }
                }
                return Some(i);
            }
            i += 1;
        }
        proof {
            lemma_alist_find_props(self.entries@, key);
            match alist_find(self.entries@, key) {
                Some(f) => {
                    assert(self.entries@[f].0 == key);
                    assert(false);
                },
                None => {},
            }
        }
        None
    }

    /// Drops a key and all its values.
    pub fn remove(&mut self, key: char)
        requires
            old(self).inv(),
        ensures
            final(self).inv(),
            forall|k2: char| #[trigger] final(self).val_set(k2) == (if k2 == key {
                Set::<u16>::empty()
            } else {
                old(self).val_set(k2)
            }),
    {
        let found = self.find_index(key);
        match found {
            None => {
                proof {
                    assert(alist_val_set(self.entries@, key) =~= Set::<u16>::empty());
                }
            },
            Some(i) => {
                let ghost s0 = self.entries@;
                self.entries.remove(i);
                proof {
                    assert forall|k2: char| #[trigger] alist_val_set(self.entries@, k2) == (
                    if k2 == key {
                        Set::<u16>::empty()
                    } else {
                        alist_val_set(s0, k2)
                    }) by {
                        lemma_alist_find_remove(s0, i as int, k2);
                        lemma_alist_find_props(s0, k2);
                        lemma_alist_find_props(self.entries@, k2);
                    }
                    assert forall|a: int, b: int|
                        0 <= a < b < self.entries@.len() implies #[trigger] self.entries@[a].0
                        != #[trigger] self.entries@[b].0 by {
                        let a0 = if a < i {
                            a
                        } else {
                            a + 1
                        };
                        let b0 = if b < i {
                            b
                        } else {
                            b + 1
                        };
                        assert(self.entries@[a] == s0[a0] && self.entries@[b] == s0[b0]);
                    }
                    assert forall|j: int|
                        0 <= j < self.entries@.len() implies (#[trigger] self.entries@[
                        j].1@).no_duplicates() && self.entries@[j].1@.len() > 0 by {
                        let j0 = if j < i {
                            j
                        } else {
                            j + 1
                        };
                        assert(self.entries@[j] == s0[j0]);
                    }
                }
            },
        }
    }
}

impl MultiMapMethods<char, u16> for MultiMap<char, u16> {
    open spec fn mm_inv(&self) -> bool {
        self.inv()
    }

    open spec fn mm_val_set(&self, k: char) -> Set<u16> {
        self.val_set(k)
    }

    open spec fn mm_has_no_keys(&self) -> bool {
        self.has_no_keys()
    }

    fn get_multi(&self, key: char) -> (r: Vec<u16>) {
        match self.find_index(key) {
            Some(i) => copy_u16s(&self.entries[i].1),
            None => {
                proof {
                    assert(alist_val_set(self.entries@, key) =~= Set::<u16>::empty());
                    assert(Seq::<u16>::empty().to_set() =~= Set::<u16>::empty());
                }
                Vec::new()
            },
        }
    }

    fn add_multi(&mut self, key: char, value: u16) {
        match self.find_index(key) {
            Some(i) => {
                mm_add_found(self, i, value);
            },
            None => {
                mm_add_fresh(self, key, value);
            },
        }
    }

    fn add_all_multi(&mut self, key: char, values: &Vec<u16>) {
        if values.len() == 0 {
            proof {
                assert(values@.to_set() =~= Set::<u16>::empty());
                assert forall|k2: char| #[trigger] self.val_set(k2) == (if k2 == key {
                    self.val_set(key) + values@.to_set()
                } else {
                    self.val_set(k2)
                }) by {
                    assert(self.val_set(key) + values@.to_set() =~= self.val_set(key));
                }
            }
            return ;
        }
        match self.find_index(key) {
            Some(i) => {
                mm_extend_found(self, i, values);
            },
            None => {
                mm_extend_fresh(self, key, values);
            },
        }
    }
}

impl MultiMap<u16, u16> {
    /// The index of the entry holding `key`, if any.
    fn find_index_state(&self, key: u16) -> (r: Option<usize>)
        ensures
            r matches Some(i) ==> i < self.key_count() && self.key_at(i as int) == key
                && alist_find(self.entries@, key) == Some(i as int),
            r is None ==> forall|j: int| 0 <= j < self.key_count() ==> self.key_at(j) != key,
            r is None ==> alist_find(self.entries@, key) is None,
    {
        let n = self.entries.len();
        let mut i: usize = 0;
        while i < n
            invariant
                i <= n,
                n == self.entries@.len(),
                forall|j: int| 0 <= j < i ==> self.entries@[j].0 != key,
            decreases n - i,
        {
            if self.entries[i].0 == key {
                proof {
                    lemma_alist_find_props(self.entries@, key);
                    match alist_find(self.entries@, key) {
                        Some(f) => {
                            assert(f == i);
                        },
                        None => {
                            assert(self.entries@[i as int].0 == key);
                            assert(false);
                        },
                    }
                }
                return Some(i);
            }
            i += 1;
        }
        proof {
            lemma_alist_find_props(self.entries@, key);
            match alist_find(self.entries@, key) {
                Some(f) => {
                    assert(self.entries@[f].0 == key);
                    assert(false);
                },
                None => {},
            }
        }
        None
    }
}

impl MultiMapMethods<u16, u16> for MultiMap<u16, u16> {
    open spec fn mm_inv(&self) -> bool {
        self.inv()
    }

    open spec fn mm_val_set(&self, k: u16) -> Set<u16> {
        self.val_set(k)
    }

    open spec fn mm_has_no_keys(&self) -> bool {
        self.has_no_keys()
    }

    fn get_multi(&self, key: u16) -> (r: Vec<u16>) {
        match self.find_index_state(key) {
            Some(i) => copy_u16s(&self.entries[i].1),
            None => {
                proof {
                    assert(alist_val_set(self.entries@, key) =~= Set::<u16>::empty());
                    assert(Seq::<u16>::empty().to_set() =~= Set::<u16>::empty());
                }
                Vec::new()
            },
        }
    }

    fn add_multi(&mut self, key: u16, value: u16) {
        match self.find_index_state(key) {
            Some(i) => {
                mm_add_found(self, i, value);
            },
            None => {
                mm_add_fresh(self, key, value);
            },
        }
    }

    fn add_all_multi(&mut self, key: u16, values: &Vec<u16>) {
        if values.len() == 0 {
            proof {
                assert(values@.to_set() =~= Set::<u16>::empty());
                assert forall|k2: u16| #[trigger] self.val_set(k2) == (if k2 == key {
                    self.val_set(key) + values@.to_set()
                } else {
                    self.val_set(k2)
                }) by {
                    assert(self.val_set(key) + values@.to_set() =~= self.val_set(key));
                }
            }
            return ;
        }
        match self.find_index_state(key) {
            Some(i) => {
                mm_extend_found(self, i, values);
            },
            None => {
                mm_extend_fresh(self, key, values);
            },
        }
    }
}

/// The union, label by label, of the value sets of a list of multimaps.
pub open spec fn union_val_set(ms: Seq<&MultiMap<char, u16>>, k: char) -> Set<u16>
    decreases ms.len(),
{
    if ms.len() == 0 {
        Set::empty()
    } else {
        union_val_set(ms.drop_last(), k) + ms.last().val_set(k)
    }
}

/// What the first `j` entries of a map contribute to key `k`.
spec fn prefix_val_set(m: &MultiMap<char, u16>, j: int, k: char) -> Set<u16>
    decreases j,
{
    if j <= 0 {
        Set::empty()
    } else {
        prefix_val_set(m, j - 1, k) + (if m.key_at(j - 1) == k {
            m.vals_at(j - 1).to_set()
        } else {
            Set::empty()
        })
    }
}

proof fn lemma_prefix_val_set(m: &MultiMap<char, u16>, j: int, k: char)
    requires
        m.inv(),
        0 <= j <= m.key_count(),
    ensures
        (forall|i: int| 0 <= i < j ==> m.key_at(i) != k) ==> prefix_val_set(m, j, k) == Set::<
            u16,
        >::empty(),
        (exists|i: int| 0 <= i < j && m.key_at(i) == k) ==> prefix_val_set(m, j, k) == m.val_set(
            k,
        ),
    decreases j,
{
    lemma_mm_iteration(m);
    if j > 0 {
        lemma_prefix_val_set(m, j - 1, k);
        if m.key_at(j - 1) == k {
            assert forall|i: int| 0 <= i < j - 1 implies m.key_at(i) != k by {}
            assert(prefix_val_set(m, j - 1, k) == Set::<u16>::empty());
            assert(prefix_val_set(m, j, k) =~= m.vals_at(j - 1).to_set());
            assert(m.val_set(m.key_at(j - 1)) == m.vals_at(j - 1).to_set());
        } else {
            assert(prefix_val_set(m, j, k) =~= prefix_val_set(m, j - 1, k));
        }
    }
}

/// Compute the union of a list of multimaps.
pub fn union_multi(maps: &[&MultiMap<char, u16>]) -> (u: MultiMap<char, u16>)
    requires
        forall|i: int| 0 <= i < maps@.len() ==> (#[trigger] maps@[i]).inv(),
    ensures
        u.inv(),
        forall|k: char| #[trigger] u.val_set(k) == union_val_set(maps@, k),
{
    let mut u: MultiMap<char, u16> = MultiMap::new();
    let n = maps.len();
    let mut i: usize = 0;
    proof {
        assert forall|k: char| #[trigger] u.val_set(k) == union_val_set(
            maps@.subrange(0, 0),
            k,
        ) by {
            assert(maps@.subrange(0, 0) =~= Seq::<&MultiMap<char, u16>>::empty());
        }
    }
    while i < n
        invariant
            i <= n,
            n == maps@.len(),
            forall|t: int| 0 <= t < maps@.len() ==> (#[trigger] maps@[t]).inv(),
            u.inv(),
            forall|k: char| #[trigger] u.val_set(k) == union_val_set(maps@.subrange(0, i as int), k),
        decreases n - i,
    {
        let m: &MultiMap<char, u16> = *slice_index_get(maps, i);
        let nj = m.num_entries();
        let mut j: usize = 0;
        proof {
            assert forall|k: char|
                #[trigger] u.val_set(k) == union_val_set(maps@.subrange(0, i as int), k)
                + prefix_val_set(m, 0, k) by {
                assert(union_val_set(maps@.subrange(0, i as int), k) + Set::<u16>::empty()
                    =~= union_val_set(maps@.subrange(0, i as int), k));
            }
        }
        while j < nj
            invariant
                j <= nj,
                i < n,
                n == maps@.len(),
                forall|t: int| 0 <= t < maps@.len() ==> (#[trigger] maps@[t]).inv(),
                m == maps@[i as int],
                m.inv(),
                nj == m.key_count(),
                u.inv(),
                forall|k: char|
                    #[trigger] u.val_set(k) == union_val_set(maps@.subrange(0, i as int), k)
                        + prefix_val_set(m, j as int, k),
            decreases nj - j,
        {
            let key = m.key_of_entry(j);
            let vals = m.vals_of_entry(j);
            let ghost uprev = *&u;
            u.add_all_multi(key, vals);
            proof {
                assert forall|k: char|
                    #[trigger] u.val_set(k) == union_val_set(maps@.subrange(0, i as int), k)
                    + prefix_val_set(m, j as int + 1, k) by {
                    assert(u.mm_val_set(k) == (if k == key {
                        uprev.mm_val_set(key) + vals@.to_set()
                    } else {
                        uprev.mm_val_set(k)
                    }));
                    if k == key {
                        assert(u.val_set(k) == uprev.val_set(k) + vals@.to_set());
                    } else {
                        assert(u.val_set(k) == uprev.val_set(k));
                        assert(prefix_val_set(m, j as int + 1, k) =~= prefix_val_set(
                            m,
                            j as int,
                            k,
                        ));
                    }
                    assert(u.val_set(k) =~= union_val_set(maps@.subrange(0, i as int), k)
                        + prefix_val_set(m, j as int + 1, k));
                }
            }
            j += 1;
        }
        proof {
            assert forall|k: char|
                #[trigger] u.val_set(k) == union_val_set(maps@.subrange(0, i as int + 1), k) by {
                lemma_prefix_val_set(m, nj as int, k);
                lemma_mm_iteration(m);
                if exists|t: int| 0 <= t < nj && m.key_at(t) == k {
                    assert(prefix_val_set(m, nj as int, k) == m.val_set(k));
                } else {
                    assert(m.val_set(k) == Set::<u16>::empty());
                    assert(prefix_val_set(m, nj as int, k) == Set::<u16>::empty());
                }
                let pre = maps@.subrange(0, i as int + 1);
                assert(pre.drop_last() =~= maps@.subrange(0, i as int));
                assert(pre.last() == maps@[i as int]);
                assert(u.val_set(k) =~= union_val_set(maps@.subrange(0, i as int), k) + m.val_set(
                    k,
                ));
            }
        }
        i += 1;
    }
    proof {
        assert(maps@.subrange(0, n as int) =~= maps@);
    }
    u
}

/// Two entry lists with the same keys and the same value views behave the
/// same.
proof fn lemma_alist_congruent<K, V>(s1: Seq<(K, Vec<V>)>, s2: Seq<(K, Vec<V>)>)
    requires
        s1.len() == s2.len(),
        forall|i: int|
            0 <= i < s1.len() ==> (#[trigger] s1[i]).0 == s2[i].0 && s1[i].1@ == s2[i].1@,
    ensures
        forall|k: K| #[trigger] alist_find(s1, k) == alist_find(s2, k),
        forall|k: K| #[trigger] alist_val_set(s1, k) == alist_val_set(s2, k),
    decreases s1.len(),
{
    if s1.len() > 0 {
        let d1 = s1.drop_first();
        let d2 = s2.drop_first();
        assert forall|i: int|
            0 <= i < d1.len() implies (#[trigger] d1[i]).0 == d2[i].0 && d1[i].1@ == d2[i].1@ by {
            assert(d1[i] == s1[i + 1] && d2[i] == s2[i + 1]);
            assert(s1[i + 1].0 == s2[i + 1].0 && s1[i + 1].1@ == s2[i + 1].1@);
        }
        lemma_alist_congruent(d1, d2);
        assert forall|k: K| #[trigger] alist_find(s1, k) == alist_find(s2, k) by {
            assert(s1[0].0 == s2[0].0);
            assert(alist_find(d1, k) == alist_find(d2, k));
        }
        assert forall|k: K| #[trigger] alist_val_set(s1, k) == alist_val_set(s2, k) by {
            assert(alist_find(s1, k) == alist_find(s2, k));
            match alist_find(s1, k) {
                Some(f) => {
                    lemma_alist_find_props(s1, k);
                    assert(0 <= f < s1.len());
                    assert(s1[f].0 == s2[f].0 && s1[f].1@ == s2[f].1@);
                    assert(s1[f].1@.to_set() =~= s2[f].1@.to_set());
                },
                None => {},
            }
        }
    }
}

impl MultiMap<char, u16> {
    /// An independent copy of this map.
    pub fn duplicate(&self) -> (r: MultiMap<char, u16>)
        ensures
            forall|k: char| #[trigger] r.val_set(k) == self.val_set(k),
            r.inv() == self.inv(),
            r.has_no_keys() == self.has_no_keys(),
            r.key_count() == self.key_count(),
            forall|i: int|
                0 <= i < self.key_count() ==> #[trigger] r.key_at(i) == self.key_at(i)
                    && r.vals_at(i) == self.vals_at(i),
    {
        let n = self.entries.len();
        let mut es: Vec<(char, Vec<u16>)> = Vec::new();
        let mut i: usize = 0;
        while i < n
            invariant
                i <= n,
                n == self.entries@.len(),
                es@.len() == i,
                forall|j: int|
                    0 <= j < i ==> (#[trigger] es@[j]).0 == self.entries@[j].0 && es@[j].1@
                        == self.entries@[j].1@,
            decreases n - i,
        {
            let k = self.entries[i].0;
            let vs = copy_u16s(&self.entries[i].1);
            es.push((k, vs));
            i += 1;
        }
        let r = MultiMap { entries: es };
        proof {
            lemma_alist_congruent(r.entries@, self.entries@);
            if self.inv() {
                assert forall|a: int, b: int|
                    0 <= a < b < r.entries@.len() implies #[trigger] r.entries@[a].0
                    != #[trigger] r.entries@[b].0 by {
                    assert(r.entries@[a].0 == self.entries@[a].0);
                    assert(r.entries@[b].0 == self.entries@[b].0);
                }
                assert forall|a: int|
                    0 <= a < r.entries@.len() implies (#[trigger] r.entries@[a].1@).no_duplicates()
                    && r.entries@[a].1@.len() > 0 by {
                    assert(r.entries@[a].1@ == self.entries@[a].1@);
                }
                assert(r.inv());
            }
            if r.inv() {
                assert forall|a: int, b: int|
                    0 <= a < b < self.entries@.len() implies #[trigger] self.entries@[a].0
                    != #[trigger] self.entries@[b].0 by {
                    assert(r.entries@[a].0 == self.entries@[a].0);
                    assert(r.entries@[b].0 == self.entries@[b].0);
                }
                assert forall|a: int|
                    0 <= a < self.entries@.len() implies (#[trigger] self.entries@[
                a].1@).no_duplicates() && self.entries@[a].1@.len() > 0 by {
                    assert(r.entries@[a].1@ == self.entries@[a].1@);
                }
                assert(self.inv());
            }
            assert(r.inv() == self.inv());
        }
        r
    }

    /// Adds every mapping of another map into this one.
    pub fn merge_from(&mut self, other: &MultiMap<char, u16>)
        requires
            old(self).inv(),
            other.inv(),
        ensures
            final(self).inv(),
            forall|k: char| #[trigger] final(self).val_set(k) == old(self).val_set(k)
                + other.val_set(k),
    {
        let nj = other.num_entries();
        let mut j: usize = 0;
        proof {
            assert forall|k: char| #[trigger] self.val_set(k) == old(self).val_set(k)
                + prefix_val_set(other, 0, k) by {
                assert(old(self).val_set(k) + Set::<u16>::empty() =~= old(self).val_set(k));
            }
        }
        while j < nj
            invariant
                j <= nj,
                nj == other.key_count(),
                other.inv(),
                self.inv(),
                forall|k: char| #[trigger] self.val_set(k) == old(self).val_set(k)
                    + prefix_val_set(other, j as int, k),
            decreases nj - j,
        {
            let key = other.key_of_entry(j);
            let vals = other.vals_of_entry(j);
            let ghost uprev = *&*self;
            self.add_all_multi(key, vals);
            proof {
                assert forall|k: char| #[trigger] self.val_set(k) == old(self).val_set(k)
                    + prefix_val_set(other, j as int + 1, k) by {
                    assert(self.mm_val_set(k) == (if k == key {
                        uprev.mm_val_set(key) + vals@.to_set()
                    } else {
                        uprev.mm_val_set(k)
                    }));
                    if k == key {
                        assert(self.val_set(k) == uprev.val_set(k) + vals@.to_set());
                    } else {
                        assert(self.val_set(k) == uprev.val_set(k));
                        assert(prefix_val_set(other, j as int + 1, k) =~= prefix_val_set(
                            other,
                            j as int,
                            k,
                        ));
                    }
                    assert(self.val_set(k) =~= old(self).val_set(k) + prefix_val_set(
                        other,
                        j as int + 1,
                        k,
                    ));
                }
            }
            j += 1;
        }
        proof {
            assert forall|k: char| #[trigger] self.val_set(k) == old(self).val_set(k)
                + other.val_set(k) by {
                lemma_prefix_val_set(other, nj as int, k);
                lemma_mm_iteration(other);
                if exists|t: int| 0 <= t < nj && other.key_at(t) == k {
                    assert(prefix_val_set(other, nj as int, k) == other.val_set(k));
                } else {
                    assert(other.val_set(k) == Set::<u16>::empty());
                    assert(prefix_val_set(other, nj as int, k) == Set::<u16>::empty());
                }
            }
        }
    }
}

} // verus!
