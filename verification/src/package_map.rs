//! A map from package names to package records, kept in byte order of the
//! names: the order in which lockfiles and manifests list their packages.
use vstd::prelude::*;

use crate::text::bytes;

verus! {

/// Byte-wise lexicographic order (the order of `str` and `String`).
pub open spec fn bytes_lt(a: Seq<u8>, b: Seq<u8>) -> bool
    decreases a.len(),
{
    if b.len() == 0 {
        false
    } else if a.len() == 0 {
        true
    } else if a[0] != b[0] {
        a[0] < b[0]
    } else {
        bytes_lt(a.drop_first(), b.drop_first())
    }
}

pub proof fn lemma_lt_irreflexive(a: Seq<u8>)
    ensures
        !bytes_lt(a, a),
    decreases a.len(),
{
    if a.len() > 0 {
        lemma_lt_irreflexive(a.drop_first());
    }
}

pub proof fn lemma_lt_transitive(a: Seq<u8>, b: Seq<u8>, c: Seq<u8>)
    requires
        bytes_lt(a, b),
        bytes_lt(b, c),
    ensures
        bytes_lt(a, c),
    decreases a.len(),
{
    if a.len() > 0 && b.len() > 0 && c.len() > 0 && a[0] == b[0] && b[0] == c[0] {
        lemma_lt_transitive(a.drop_first(), b.drop_first(), c.drop_first());
    }
}

pub proof fn lemma_lt_total(a: Seq<u8>, b: Seq<u8>)
    ensures
        a == b || bytes_lt(a, b) || bytes_lt(b, a),
    decreases a.len(),
{
    if a.len() > 0 && b.len() > 0 && a[0] == b[0] {
        lemma_lt_total(a.drop_first(), b.drop_first());
        if a.drop_first() == b.drop_first() {
            assert(a =~= seq![a[0]] + a.drop_first());
            assert(b =~= seq![b[0]] + b.drop_first());
        }
    } else if a.len() == 0 && b.len() == 0 {
        assert(a =~= b);
    }
}

pub proof fn lemma_lt_asymmetric(a: Seq<u8>, b: Seq<u8>)
    requires
        bytes_lt(a, b),
    ensures
        !bytes_lt(b, a),
    decreases a.len(),
{
    if a.len() > 0 && b.len() > 0 && a[0] == b[0] {
        lemma_lt_asymmetric(a.drop_first(), b.drop_first());
    }
}

/// A proper prefix orders before each of its extensions, and no extension
/// orders before it.
pub proof fn lemma_lt_prefix(a: Seq<u8>, c: Seq<u8>)
    requires
        c.len() > 0,
    ensures
        bytes_lt(a, a + c),
        !bytes_lt(a + c, a),
    decreases a.len(),
{
    if a.len() == 0 {
        assert(a + c =~= c);
    } else {
        assert((a + c)[0] == a[0]);
        assert((a + c).drop_first() =~= a.drop_first() + c);
        lemma_lt_prefix(a.drop_first(), c);
    }
}

/// Between byte strings that agree before position `i` and differ at `i`,
/// the byte at `i` decides the order.
pub proof fn lemma_lt_first_difference(a: Seq<u8>, b: Seq<u8>, i: int)
    requires
        0 <= i < a.len(),
        i < b.len(),
        a.take(i) == b.take(i),
        a[i] != b[i],
    ensures
        bytes_lt(a, b) == (a[i] < b[i]),
    decreases i,
{
    if i > 0 {
        assert(a[0] == a.take(i)[0]);
        assert(b[0] == b.take(i)[0]);
        assert(a.drop_first().take(i - 1) =~= b.drop_first().take(i - 1)) by {
            assert forall|j: int| 0 <= j < i - 1 implies a.drop_first()[j] == b.drop_first()[j] by {
                assert(a.take(i)[j + 1] == b.take(i)[j + 1]);
                assert(a.take(i)[j + 1] == a[j + 1]);
                assert(b.take(i)[j + 1] == b[j + 1]);
            }
        }
        lemma_lt_first_difference(a.drop_first(), b.drop_first(), i - 1);
    }
}

/// Whether `a` orders before `b`.
pub fn bytes_less(a: &[u8], b: &[u8]) -> (res: bool)
    ensures
        res == bytes_lt(a@, b@),
{
    let mut i: usize = 0;
    assert(a@.skip(0) =~= a@);
    assert(b@.skip(0) =~= b@);
    while i < a.len() && i < b.len()
        invariant
            i <= a@.len(),
            i <= b@.len(),
            bytes_lt(a@, b@) == bytes_lt(a@.skip(i as int), b@.skip(i as int)),
        decreases a@.len() - i,
    {
        if a[i] != b[i] {
            return a[i] < b[i];
        }
        assert(a@.skip(i as int).drop_first() =~= a@.skip(i + 1));
        assert(b@.skip(i as int).drop_first() =~= b@.skip(i + 1));
        i = i + 1;
    }
    i < b.len()
}

/// Whether the keys strictly increase.
pub open spec fn strictly_sorted(keys: Seq<Seq<u8>>) -> bool {
    forall|i: int, j: int| 0 <= i < j < keys.len() ==> bytes_lt(#[trigger] keys[i], #[trigger] keys[j])
}

/// The finite map that a sequence of distinct-keyed entries denotes.
pub open spec fn entries_map<V>(entries: Seq<(Seq<u8>, V)>) -> Map<Seq<u8>, V>
    decreases entries.len(),
{
    if entries.len() == 0 {
        Map::empty()
    } else {
        entries_map(entries.drop_last()).insert(entries.last().0, entries.last().1)
    }
}

/// Whether two byte strings are equal.
pub fn bytes_equal(a: &[u8], b: &[u8]) -> (res: bool)
    ensures
        res == (a@ == b@),
{
    if a.len() != b.len() {
        return false;
    }
    let mut i: usize = 0;
    while i < a.len()
        invariant
            i <= a@.len(),
            a@.len() == b@.len(),
            forall|j: int| 0 <= j < i ==> a@[j] == b@[j],
        decreases a@.len() - i,
    {
        if a[i] != b[i] {
            return false;
        }
        i = i + 1;
    }
    assert(a@ =~= b@);
    true
}

/// Strictly increasing keys are distinct.
pub proof fn lemma_sorted_distinct<V>(e: Seq<(Seq<u8>, V)>)
    requires
        strictly_sorted(e.map_values(|x: (Seq<u8>, V)| x.0)),
    ensures
        forall|i: int, j: int| 0 <= i < e.len() && 0 <= j < e.len() && i != j ==> e[i].0 != e[j].0,
{
    let keys = e.map_values(|x: (Seq<u8>, V)| x.0);
    assert forall|i: int, j: int| 0 <= i < e.len() && 0 <= j < e.len() && i != j implies e[i].0
        != e[j].0 by {
        if i < j {
            assert(bytes_lt(keys[i], keys[j]));
            lemma_lt_irreflexive(keys[i]);
        } else {
            assert(bytes_lt(keys[j], keys[i]));
            lemma_lt_irreflexive(keys[j]);
        }
    }
}

/// The map of distinct-keyed entries holds exactly their keys and values.
pub proof fn lemma_entries_map<V>(e: Seq<(Seq<u8>, V)>)
    requires
        forall|i: int, j: int| 0 <= i < e.len() && 0 <= j < e.len() && i != j ==> e[i].0 != e[j].0,
    ensures
        forall|i: int|
            0 <= i < e.len() ==> #[trigger] entries_map(e).contains_key(e[i].0) && entries_map(e)[e[i].0]
                == e[i].1,
        forall|k: Seq<u8>|
            #[trigger] entries_map(e).contains_key(k) ==> exists|i: int| 0 <= i < e.len() && e[i].0 == k,
    decreases e.len(),
{
    if e.len() > 0 {
        let d = e.drop_last();
        let last = e.last();
        assert forall|i: int, j: int| 0 <= i < d.len() && 0 <= j < d.len() && i != j implies d[i].0
            != d[j].0 by {
            assert(d[i] == e[i]);
            assert(d[j] == e[j]);
        }
        lemma_entries_map(d);
        assert(entries_map(e) == entries_map(d).insert(last.0, last.1));
        assert forall|i: int| 0 <= i < e.len() implies #[trigger] entries_map(e).contains_key(e[i].0)
            && entries_map(e)[e[i].0] == e[i].1 by {
            if i < e.len() - 1 {
                assert(d[i] == e[i]);
                assert(e[i].0 != e[e.len() - 1].0);
                assert(entries_map(d).contains_key(d[i].0));
            }
        }
        assert forall|k: Seq<u8>| #[trigger] entries_map(e).contains_key(k) implies exists|i: int|
            0 <= i < e.len() && e[i].0 == k by {
            if k != last.0 {
                assert(entries_map(d).contains_key(k));
                let i = choose|i: int| 0 <= i < d.len() && d[i].0 == k;
                assert(e[i] == d[i]);
            } else {
                assert(e[e.len() - 1].0 == k);
            }
        }
    }
}

/// Strictly increasing entries denote a map that holds exactly their keys and
/// values.
pub proof fn lemma_sorted_entries<V>(e: Seq<(Seq<u8>, V)>)
    requires
        strictly_sorted(e.map_values(|x: (Seq<u8>, V)| x.0)),
    ensures
        forall|i: int, j: int| 0 <= i < e.len() && 0 <= j < e.len() && i != j ==> e[i].0 != e[j].0,
        forall|i: int|
            0 <= i < e.len() ==> #[trigger] entries_map(e).contains_key(e[i].0) && entries_map(e)[e[i].0]
                == e[i].1,
        forall|k: Seq<u8>|
            #[trigger] entries_map(e).contains_key(k) ==> exists|i: int| 0 <= i < e.len() && e[i].0 == k,
{
    lemma_sorted_distinct(e);
    lemma_entries_map(e);
}

/// Inserting `(k, v)` at position `p`, replacing the entry there when
/// `replace`, updates the denoted map.
proof fn lemma_insert_map<V>(
    old_e: Seq<(Seq<u8>, V)>,
    new_e: Seq<(Seq<u8>, V)>,
    p: int,
    replace: bool,
    k: Seq<u8>,
    v: V,
)
    requires
        forall|i: int, j: int|
            0 <= i < old_e.len() && 0 <= j < old_e.len() && i != j ==> old_e[i].0 != old_e[j].0,
        forall|i: int, j: int|
            0 <= i < new_e.len() && 0 <= j < new_e.len() && i != j ==> new_e[i].0 != new_e[j].0,
        0 <= p < new_e.len(),
        new_e.len() == old_e.len() + 1 - (if replace { 1int } else { 0 }),
        new_e[p] == (k, v),
        replace ==> p < old_e.len() && old_e[p].0 == k,
        forall|i: int|
            0 <= i < new_e.len() && i != p ==> #[trigger] new_e[i] == old_e[if i < p { i } else {
                i - 1 + (if replace { 1int } else { 0 })
            }],
    ensures
        entries_map(new_e) == entries_map(old_e).insert(k, v),
{
    lemma_entries_map(old_e);
    lemma_entries_map(new_e);
    let off: int = if replace { 1 } else { 0 };
    let m_new = entries_map(new_e);
    let m_want = entries_map(old_e).insert(k, v);
    assert(m_new.contains_key(new_e[p].0));
    assert forall|key2: Seq<u8>| #[trigger] m_new.contains_key(key2) implies m_want.contains_key(
        key2,
    ) && m_new[key2] == m_want[key2] by {
        if key2 != k {
            let i = choose|i: int| 0 <= i < new_e.len() && new_e[i].0 == key2;
            let oi = if i < p { i } else { i - 1 + off };
            assert(new_e[i] == old_e[oi]);
            assert(entries_map(old_e).contains_key(old_e[oi].0));
        }
    }
    assert forall|key2: Seq<u8>| #[trigger] m_want.contains_key(key2) implies m_new.contains_key(
        key2,
    ) by {
        if key2 != k {
            let i = choose|i: int| 0 <= i < old_e.len() && old_e[i].0 == key2;
            if i < p {
                assert(new_e[i] == old_e[i]);
                assert(m_new.contains_key(new_e[i].0));
            } else if replace && i == p {
                assert(false);
            } else {
                assert(new_e[i + 1 - off] == old_e[i]);
                assert(m_new.contains_key(new_e[i + 1 - off].0));
            }
        }
    }
    assert(m_new =~= m_want);
}

/// A map from package names to values, kept in byte order of the names.
#[derive(Debug)]
pub struct PackageMap<V: View> {
    entries: Vec<(String, V)>,
}

impl<V: View> PackageMap<V> {
    /// The entries, as name bytes and value views, in order.
    pub closed spec fn entries(&self) -> Seq<(Seq<u8>, V::V)> {
        self.entries@.map_values(|e: (String, V)| (bytes(e.0@), e.1@))
    }

    /// The names, in order.
    pub open spec fn keys(&self) -> Seq<Seq<u8>> {
        self.entries().map_values(|e: (Seq<u8>, V::V)| e.0)
    }

    /// The map from names to value views.
    pub open spec fn map(&self) -> Map<Seq<u8>, V::V> {
        entries_map(self.entries())
    }

    /// Whether the names strictly increase, as they always do.
    pub open spec fn wf(&self) -> bool {
        strictly_sorted(self.keys())
    }

    #[verifier::type_invariant]
    closed spec fn sorted(self) -> bool {
        self.wf()
    }

    /// An empty map.
    pub fn new() -> (res: Self)
        ensures
            res.entries().len() == 0,
            res.map() == Map::<Seq<u8>, V::V>::empty(),
    {
        let res = PackageMap { entries: Vec::new() };
        assert(res.entries() =~= Seq::<(Seq<u8>, V::V)>::empty());
        res
    }

    /// The number of packages.
    pub fn len(&self) -> (res: usize)
        ensures
            res == self.entries().len(),
            self.wf(),
            self.map() == entries_map(self.entries()),
    {
        proof {
            use_type_invariant(self);
        }
        self.entries.len()
    }

    /// The name of the `i`-th package in order.
    pub fn key_at(&self, i: usize) -> (res: &String)
        requires
            i < self.entries().len(),
        ensures
            bytes(res@) == self.entries()[i as int].0,
    {
        &self.entries[i].0
    }

    /// The `i`-th package in order.
    pub fn value_at(&self, i: usize) -> (res: &V)
        requires
            i < self.entries().len(),
        ensures
            res@ == self.entries()[i as int].1,
    {
        &self.entries[i].1
    }

    /// The names, in order.
    pub fn names(&self) -> (res: Vec<String>)
        ensures
            res@.map_values(|s: String| bytes(s@)) == self.keys(),
            self.wf(),
    {
        proof {
            use_type_invariant(self);
        }
        let mut out: Vec<String> = Vec::new();
        let mut i: usize = 0;
        while i < self.entries.len()
            invariant
                i <= self.entries@.len(),
                out@.len() == i,
                forall|j: int| 0 <= j < i ==> bytes(#[trigger] out@[j]@) == self.keys()[j],
            decreases self.entries@.len() - i,
        {
            out.push(self.entries[i].0.clone());
            i = i + 1;
        }
        assert(out@.map_values(|s: String| bytes(s@)) =~= self.keys());
        out
    }

    /// Replaces the value of the `i`-th package, keeping its name.
    pub fn replace_at(&mut self, i: usize, value: V)
        requires
            i < old(self).entries().len(),
        ensures
            final(self).entries() == old(self).entries().update(
                i as int,
                (old(self).entries()[i as int].0, value@),
            ),
    {
        proof {
            use_type_invariant(&*self);
        }
        let mut entries: Vec<(String, V)> = Vec::new();
        std::mem::swap(&mut entries, &mut self.entries);
        let ghost old_v = entries@;
        let (name, _) = entries.remove(i);
        entries.insert(i, (name, value));
        let ghost new_e = entries@.map_values(|e: (String, V)| (bytes(e.0@), e.1@));
        let ghost old_e = old_v.map_values(|e: (String, V)| (bytes(e.0@), e.1@));
        assert(new_e =~= old_e.update(i as int, (old_e[i as int].0, value@)));
        proof {
            let keys_old = old_e.map_values(|e: (Seq<u8>, V::V)| e.0);
            let keys_new = new_e.map_values(|e: (Seq<u8>, V::V)| e.0);
            assert(keys_old =~= keys_new);
        }
        self.entries = entries;
    }

    /// Whether the map names `name`, and at which position.
    fn position(&self, name: &[u8]) -> (res: Option<usize>)
        ensures
            match res {
                Some(i) => i < self.entries().len() && self.entries()[i as int].0 == name@,
                None => forall|i: int| 0 <= i < self.entries().len() ==> self.entries()[i].0 != name@,
            },
    {
        let mut i: usize = 0;
        while i < self.entries.len()
            invariant
                i <= self.entries@.len(),
                forall|j: int| 0 <= j < i ==> self.entries()[j].0 != name@,
            decreases self.entries@.len() - i,
        {
            let key = self.entries[i].0.as_str().as_bytes();
            if bytes_equal(key, name) {
                return Some(i);
            }
            i = i + 1;
        }
        None
    }

    /// The package named `name`.
    pub fn get(&self, name: &str) -> (res: Option<&V>)
        ensures
            match res {
                Some(v) => self.map().contains_key(bytes(name@)) && v@ == self.map()[bytes(name@)],
                None => !self.map().contains_key(bytes(name@)),
            },
    {
        proof {
            use_type_invariant(self);
            lemma_sorted_distinct(self.entries());
            lemma_entries_map(self.entries());
        }
        match self.position(name.as_bytes()) {
            Some(i) => Some(&self.entries[i].1),
            None => None,
        }
    }

    /// Whether the map names `name`.
    pub fn contains_key(&self, name: &str) -> (res: bool)
        ensures
            res == self.map().contains_key(bytes(name@)),
    {
        self.get(name).is_some()
    }

    /// Records `value` under `name`, replacing any earlier value.
    pub fn insert(&mut self, name: String, value: V)
        ensures
            final(self).map() == old(self).map().insert(bytes(name@), value@),
    {
        proof {
            use_type_invariant(&*self);
        }
        let mut entries: Vec<(String, V)> = Vec::new();
        std::mem::swap(&mut entries, &mut self.entries);
        let ghost old_e = entries@.map_values(|e: (String, V)| (bytes(e.0@), e.1@));
        let ghost k = bytes(name@);
        let ghost v = value@;
        assert(old_e == old(self).entries());
        let key = name.as_str().as_bytes();
        let mut p: usize = 0;
        while p < entries.len()
            invariant
                p <= entries@.len(),
                old_e == entries@.map_values(|e: (String, V)| (bytes(e.0@), e.1@)),
                key@ == k,
                forall|j: int| 0 <= j < p ==> bytes_lt(#[trigger] old_e[j].0, k),
            ensures
                p <= entries@.len(),
                old_e == entries@.map_values(|e: (String, V)| (bytes(e.0@), e.1@)),
                forall|j: int| 0 <= j < p ==> bytes_lt(#[trigger] old_e[j].0, k),
                p < entries@.len() ==> !bytes_lt(old_e[p as int].0, k),
            decreases entries@.len() - p,
        {
            let other = entries[p].0.as_str().as_bytes();
            if !bytes_less(other, key) {
                break;
            }
            p = p + 1;
        }
        let replace = p < entries.len() && bytes_equal(entries[p].0.as_str().as_bytes(), key);
        let ghost old_v = entries@;
        if replace {
            entries.remove(p);
        }
        let ghost mid_v = entries@;
        entries.insert(p, (name, value));
        proof {
            let off: int = if replace { 1 } else { 0 };
            assert(replace ==> old_e[p as int].0 == k);
            assert(mid_v.len() == old_v.len() - off);
            assert forall|i: int| 0 <= i < entries@.len() && i != p implies #[trigger] entries@[i]
                == old_v[if i < p { i } else { i - 1 + off }] by {
                if i < p {
                    assert(entries@[i] == mid_v[i]);
                } else {
                    assert(entries@[i] == mid_v[i - 1]);
                }
            }
        }
        let ghost new_e = entries@.map_values(|e: (String, V)| (bytes(e.0@), e.1@));
        proof {
            let keys_old = old_e.map_values(|e: (Seq<u8>, V::V)| e.0);
            let keys_new = new_e.map_values(|e: (Seq<u8>, V::V)| e.0);
            if p < old_e.len() {
                lemma_lt_total(old_e[p as int].0, k);
            }
            assert(strictly_sorted(keys_new)) by {
                assert forall|i: int, j: int| 0 <= i < j < keys_new.len() implies bytes_lt(
                    #[trigger] keys_new[i],
                    #[trigger] keys_new[j],
                ) by {
                    let off: int = if replace { 1 } else { 0 };
                    let oi = if i < p { i } else { i - 1 + off };
                    let oj = if j < p { j } else { j - 1 + off };
                    if i < p && j < p {
                        assert(bytes_lt(keys_old[i], keys_old[j]));
                    } else if i < p && j == p {
                        assert(bytes_lt(old_e[i].0, k));
                    } else if i < p {
                        assert(bytes_lt(old_e[i].0, k));
                        assert(p < old_e.len());
                        if replace {
                            assert(bytes_lt(keys_old[p as int], keys_old[oj]));
                        } else {
                            assert(bytes_lt(keys_old[p as int], keys_old[oj]) || p == oj);
                            if p != oj {
                                lemma_lt_transitive(k, keys_old[p as int], keys_old[oj]);
                            }
                        }
                        lemma_lt_transitive(keys_old[i], k, keys_old[oj]);
                    } else if i == p {
                        if replace {
                            assert(bytes_lt(keys_old[p as int], keys_old[oj]));
                        } else if p != oj {
                            assert(bytes_lt(keys_old[p as int], keys_old[oj]));
                            lemma_lt_transitive(k, keys_old[p as int], keys_old[oj]);
                        }
                    } else {
                        assert(bytes_lt(keys_old[oi], keys_old[oj]));
                    }
                }
            }
            lemma_sorted_distinct(old_e);
            lemma_sorted_distinct(new_e);
            let off: int = if replace { 1 } else { 0 };
            assert forall|i: int| 0 <= i < new_e.len() && i != p implies #[trigger] new_e[i]
                == old_e[if i < p { i } else { i - 1 + off }] by {}
            lemma_insert_map(old_e, new_e, p as int, replace, k, v);
        }
        self.entries = entries;
        assert(final(self).entries() == new_e);
    }

    /// Removes the package named `name`, giving back its value.
    pub fn remove(&mut self, name: &str) -> (res: Option<V>)
        ensures
            final(self).map() == old(self).map().remove(bytes(name@)),
            res is Some == old(self).map().contains_key(bytes(name@)),
            res matches Some(v) ==> v@ == old(self).map()[bytes(name@)],
    {
        proof {
            use_type_invariant(&*self);
            lemma_sorted_distinct(self.entries());
            lemma_entries_map(self.entries());
        }
        match self.position(name.as_bytes()) {
            None => {
                assert(old(self).map() =~= old(self).map().remove(bytes(name@)));
                None
            },
            Some(p) => {
                let mut entries: Vec<(String, V)> = Vec::new();
                std::mem::swap(&mut entries, &mut self.entries);
                let ghost old_e = entries@.map_values(|e: (String, V)| (bytes(e.0@), e.1@));
                assert(old_e == old(self).entries());
                let ghost old_v = entries@;
                let removed = entries.remove(p);
                assert(old_e[p as int].1 == removed.1@);
                assert(old_e[p as int].0 == bytes(name@));
                assert(entries_map(old_e).contains_key(old_e[p as int].0));
                assert(removed.1@ == old(self).map()[bytes(name@)]);
                assert forall|i: int| 0 <= i < entries@.len() implies #[trigger] entries@[i]
                    == old_v[if i < p { i } else { i + 1 }] by {}
                let ghost new_e = entries@.map_values(|e: (String, V)| (bytes(e.0@), e.1@));
                proof {
                    let k = bytes(name@);
                    let keys_old = old_e.map_values(|e: (Seq<u8>, V::V)| e.0);
                    let keys_new = new_e.map_values(|e: (Seq<u8>, V::V)| e.0);
                    assert forall|i: int, j: int| 0 <= i < j < keys_new.len() implies bytes_lt(
                        #[trigger] keys_new[i],
                        #[trigger] keys_new[j],
                    ) by {
                        let oi = if i < p { i } else { i + 1 };
                        let oj = if j < p { j } else { j + 1 };
                        assert(bytes_lt(keys_old[oi], keys_old[oj]));
                    }
                    lemma_sorted_distinct(new_e);
                    lemma_entries_map(new_e);
                    let m_new = entries_map(new_e);
                    let m_want = entries_map(old_e).remove(k);
                    assert forall|key2: Seq<u8>| #[trigger] m_new.contains_key(key2)
                        == m_want.contains_key(key2) && (m_new.contains_key(key2) ==> m_new[key2]
                        == m_want[key2]) by {
                        if m_new.contains_key(key2) {
                            let i = choose|i: int| 0 <= i < new_e.len() && new_e[i].0 == key2;
                            let oi = if i < p { i } else { i + 1 };
                            assert(old_e[oi] == new_e[i]);
                        } else if m_want.contains_key(key2) {
                            let i = choose|i: int| 0 <= i < old_e.len() && old_e[i].0 == key2;
                            if i < p {
                                assert(new_e[i] == old_e[i]);
                            } else if i > p {
                                assert(new_e[i - 1] == old_e[i]);
                            }
                        }
                    }
                    assert(m_new =~= m_want);
                }
                self.entries = entries;
                assert(final(self).entries() == new_e);
                Some(removed.1)
            },
        }
    }
}

} // verus!
