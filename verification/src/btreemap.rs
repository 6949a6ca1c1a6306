//! An ordered map from byte-string keys to byte-string values with bounded
//! key and value sizes; iteration yields entries in ascending key order.

use vstd::prelude::*;

verus! {

/// Strict lexicographic order on byte strings: a proper prefix comes first,
/// and otherwise the first differing byte decides.
pub open spec fn lex_lt(a: Seq<u8>, b: Seq<u8>) -> bool
    decreases a.len(),
{
    if b.len() == 0 {
        false
    } else if a.len() == 0 {
        true
    } else if a[0] < b[0] {
        true
    } else if a[0] > b[0] {
        false
    } else {
        lex_lt(a.drop_first(), b.drop_first())
    }
}

/// Lexicographic order is total: two byte strings are ordered one way, the
/// other way, or equal.
pub proof fn lemma_lex_trichotomy(a: Seq<u8>, b: Seq<u8>)
    ensures
        lex_lt(a, b) || lex_lt(b, a) || a == b,
    decreases a.len(),
{
    if a.len() == 0 || b.len() == 0 {
        if a.len() == 0 && b.len() == 0 {
            assert(a =~= b);
        }
    } else {
        if a[0] == b[0] {
            lemma_lex_trichotomy(a.drop_first(), b.drop_first());
            if !lex_lt(a, b) && !lex_lt(b, a) {
                assert(a.drop_first() == b.drop_first());
                assert(a.len() == b.len());
                assert forall|i: int| 0 <= i < a.len() implies a[i] == b[i] by {
                    if i > 0 {
                        assert(a.drop_first()[i - 1] == a[i]);
                        assert(b.drop_first()[i - 1] == b[i]);
                    }
                }
                assert(a =~= b);
            }
        }
    }
}

/// One entry of the map.
#[derive(Clone, Debug)]
pub struct MapEntry {
    /// The key.
    pub key: Vec<u8>,
    /// The value stored under the key.
    pub value: Vec<u8>,
}

/// The failures of [`StableBTreeMap::insert`].
#[derive(Clone, Copy, Debug, PartialEq, Eq, Structural)]
pub enum InsertError {
    /// The key exceeds the maximum key size.
    KeyTooLarge,
    /// The value exceeds the maximum value size.
    ValueTooLarge,
}

/// An ordered map from byte-string keys to byte-string values, keeping its
/// entries sorted by key; key and value sizes are bounded at construction.
pub struct StableBTreeMap {
    max_key_size: u32,
    max_value_size: u32,
    entries: Vec<MapEntry>,
}

impl View for StableBTreeMap {
    type V = Seq<(Seq<u8>, Seq<u8>)>;

    closed spec fn view(&self) -> Seq<(Seq<u8>, Seq<u8>)> {
        self.entries@.map_values(|e: MapEntry| (e.key@, e.value@))
    }
}

impl StableBTreeMap {
    /// The key-size bound the map was created with.
    pub closed spec fn spec_max_key_size(self) -> u32 {
        self.max_key_size
    }

    /// The value-size bound the map was created with.
    pub closed spec fn spec_max_value_size(self) -> u32 {
        self.max_value_size
    }

    /// Well-formedness: entries stand in strictly ascending key order.
    pub open spec fn wf(self) -> bool {
        forall|a: int, b: int|
            0 <= a < b < self@.len() ==> lex_lt((#[trigger] self@[a]).0, (#[trigger] self@[b]).0)
    }

    /// Create an empty map with the given key- and value-size bounds.
    pub fn new(max_key_size: u32, max_value_size: u32) -> (r: Self)
        ensures
            r.wf(),
            r@ == Seq::<(Seq<u8>, Seq<u8>)>::empty(),
            r.spec_max_key_size() == max_key_size,
            r.spec_max_value_size() == max_value_size,
    {
        let r = StableBTreeMap { max_key_size, max_value_size, entries: Vec::new() };
        proof {
            assert(r@ =~= Seq::<(Seq<u8>, Seq<u8>)>::empty());
        }
        r
    }

    /// Number of entries.
    pub fn len(&self) -> (r: usize)
        ensures
            r == self@.len(),
    {
        self.entries.len()
    }

    /// Insert a key-value pair: a pair whose key or value exceeds the
    /// respective bound is rejected; an existing key has its value replaced
    /// and the old value returned; a new key is placed at its ordered
    /// position.
    pub fn insert(&mut self, key: Vec<u8>, value: Vec<u8>) -> (r: Result<
        Option<Vec<u8>>,
        InsertError,
    >)
        requires
            old(self).wf(),
        ensures
            final(self).wf(),
            final(self).spec_max_key_size() == old(self).spec_max_key_size(),
            final(self).spec_max_value_size() == old(self).spec_max_value_size(),
            key@.len() > old(self).spec_max_key_size() ==> r == Err::<
                Option<Vec<u8>>,
                InsertError,
            >(InsertError::KeyTooLarge) && final(self)@ == old(self)@,
            key@.len() <= old(self).spec_max_key_size() && value@.len() > old(self).spec_max_value_size() ==> r == Err::<Option<Vec<u8>>, InsertError>(
                InsertError::ValueTooLarge,
            ) && final(self)@ == old(self)@,
            key@.len() <= old(self).spec_max_key_size() && value@.len() <= old(self).spec_max_value_size() ==> ({
                ||| (exists|j: int|
                    0 <= j < old(self)@.len() && (#[trigger] old(self)@[j]).0 == key@ && final(self)@ == old(self)@.update(j, (key@, value@)) && (r matches Ok(Some(prev))
                        && prev@ == old(self)@[j].1))
                ||| (exists|i: int|
                    0 <= i <= old(self)@.len() && final(self)@ == old(self)@.insert(
                        i,
                        (key@, value@),
                    ) && (forall|j: int| 0 <= j < i ==> lex_lt((#[trigger] old(self)@[j]).0, key@))
                        && (forall|j: int|
                        i <= j < old(self)@.len() ==> lex_lt(key@, (#[trigger] old(self)@[j]).0))
                        && r == Ok::<Option<Vec<u8>>, InsertError>(None))
            }),
    {
        if key.len() > self.max_key_size as usize {
            return Err(InsertError::KeyTooLarge);
        }
        if value.len() > self.max_value_size as usize {
            return Err(InsertError::ValueTooLarge);
        }
        let n = self.entries.len();
        let mut i: usize = 0;
        while i < n
            invariant
                old(self).wf(),
                self == old(self),
                n == self@.len(),
                0 <= i <= n,
                key@.len() <= old(self).spec_max_key_size(),
                value@.len() <= old(self).spec_max_value_size(),
                forall|j: int| 0 <= j < i ==> lex_lt((#[trigger] self@[j]).0, key@),
            decreases n - i,
        {
            let e_key_matches = keys_eq(&self.entries[i].key, &key);
            if e_key_matches {
                let old_entry = self.entries.remove(i);
                self.entries.insert(i, MapEntry { key, value });
                proof {
                    assert(old(self)@[i as int].0 == key@);
                    assert(old_entry.value@ == old(self)@[i as int].1);
                    assert(self@ =~= old(self)@.update(i as int, (key@, value@)));
                    assert forall|a: int, b: int| 0 <= a < b < self@.len() implies lex_lt(
                        (#[trigger] self@[a]).0,
                        (#[trigger] self@[b]).0,
                    ) by {
                        assert(self@[a].0 == old(self)@[a].0);
                        assert(self@[b].0 == old(self)@[b].0);
                    }
                }
                return Ok(Some(old_entry.value));
            }
            let below = key_lt(&key, &self.entries[i].key);
            if below {
                self.entries.insert(i, MapEntry { key, value });
                proof {
                    assert(self@ =~= old(self)@.insert(i as int, (key@, value@)));
                    assert forall|j: int|
                        i <= j < old(self)@.len() implies lex_lt(
                        key@,
                        (#[trigger] old(self)@[j]).0,
                    ) by {
                        if j > i {
                            lemma_lex_transitive(key@, old(self)@[i as int].0, old(self)@[j].0);
                        }
                    }
                    assert forall|a: int, b: int| 0 <= a < b < self@.len() implies lex_lt(
                        (#[trigger] self@[a]).0,
                        (#[trigger] self@[b]).0,
                    ) by {
                        let a0: int = if a < i {
                            a
                        } else {
                            a - 1
                        };
                        let b0: int = if b < i {
                            b
                        } else {
                            b - 1
                        };
                        if a == i as int {
                            assert(self@[b].0 == old(self)@[b0].0);
                        } else if b == i as int {
                            assert(self@[a].0 == old(self)@[a0].0);
                        } else {
                            assert(self@[a].0 == old(self)@[a0].0);
                            assert(self@[b].0 == old(self)@[b0].0);
                        }
                    }
                }
                return Ok(None);
            }
            proof {
                lemma_lex_trichotomy(key@, self@[i as int].0);
            }
            i = i + 1;
        }
        self.entries.push(MapEntry { key, value });
        proof {
            assert(self@ =~= old(self)@.insert(old(self)@.len() as int, (key@, value@)));
            assert forall|a: int, b: int| 0 <= a < b < self@.len() implies lex_lt(
                (#[trigger] self@[a]).0,
                (#[trigger] self@[b]).0,
            ) by {
                if b < self@.len() - 1 {
                    assert(self@[a].0 == old(self)@[a].0);
                    assert(self@[b].0 == old(self)@[b].0);
                } else {
                    assert(self@[a].0 == old(self)@[a].0);
                }
            }
        }
        Ok(None)
    }

    /// Look up the value stored under a key.
    pub fn get(&self, key: &Vec<u8>) -> (r: Option<&Vec<u8>>)
        requires
            self.wf(),
        ensures
            match r {
                Some(v) => exists|j: int|
                    0 <= j < self@.len() && (#[trigger] self@[j]).0 == key@ && v@ == self@[j].1,
                None => forall|j: int| 0 <= j < self@.len() ==> (#[trigger] self@[j]).0 != key@,
            },
    {
        let n = self.entries.len();
        let mut i: usize = 0;
        while i < n
            invariant
                self.wf(),
                n == self@.len(),
                0 <= i <= n,
                forall|j: int| 0 <= j < i ==> (#[trigger] self@[j]).0 != key@,
            decreases n - i,
        {
            if keys_eq(&self.entries[i].key, key) {
                proof {
                    assert(self@[i as int].0 == key@);
                }
                return Some(&self.entries[i].value);
            }
            i = i + 1;
        }
        None
    }

    /// An iterator over the entries, in ascending key order.
    pub fn iter(&self) -> (r: Iter<'_>)
        ensures
            r.map_view() == self@,
            r.spec_pos() == 0,
    {
        Iter { map: self, pos: 0 }
    }
}

/// An iterator over the entries of a [`StableBTreeMap`], front to back, so
/// in ascending key order.
pub struct Iter<'a> {
    map: &'a StableBTreeMap,
    pos: usize,
}

impl<'a> Iter<'a> {
    /// The entries being iterated.
    pub closed spec fn map_view(self) -> Seq<(Seq<u8>, Seq<u8>)> {
        self.map@
    }

    /// How many entries were already handed out.
    pub closed spec fn spec_pos(self) -> int {
        self.pos as int
    }

    /// The next entry, as a copied key-value pair, or nothing when the
    /// entries are exhausted.
    pub fn next(&mut self) -> (r: Option<(Vec<u8>, Vec<u8>)>)
        requires
            0 <= old(self).spec_pos() <= old(self).map_view().len(),
        ensures
            final(self).map_view() == old(self).map_view(),
            old(self).spec_pos() < old(self).map_view().len() ==> ({
                &&& final(self).spec_pos() == old(self).spec_pos() + 1
                &&& (r matches Some(p) && p.0@ == old(self).map_view()[old(self).spec_pos()].0
                    && p.1@ == old(self).map_view()[old(self).spec_pos()].1)
            }),
            old(self).spec_pos() == old(self).map_view().len() ==> r is None && final(self).spec_pos() == old(self).spec_pos(),
    {
        if self.pos < self.map.entries.len() {
            let e = &self.map.entries[self.pos];
            let k = copy_bytes(&e.key);
            let v = copy_bytes(&e.value);
            self.pos = self.pos + 1;
            Some((k, v))
        } else {
            None
        }
    }
}

/// Strict lexicographic order carries over a greater third byte string.
pub proof fn lemma_lex_transitive(a: Seq<u8>, b: Seq<u8>, c: Seq<u8>)
    requires
        lex_lt(a, b),
        lex_lt(b, c),
    ensures
        lex_lt(a, c),
    decreases a.len(),
{
    if a.len() > 0 && b.len() > 0 && c.len() > 0 {
        if a[0] == b[0] && b[0] == c[0] {
            lemma_lex_transitive(a.drop_first(), b.drop_first(), c.drop_first());
        }
    }
}

/// Byte-wise equality of two byte strings.
fn keys_eq(a: &Vec<u8>, b: &Vec<u8>) -> (r: bool)
    ensures
        r == (a@ == b@),
{
    if a.len() != b.len() {
        proof {
            assert(a@ != b@) by {
                if a@ == b@ {
                    assert(a@.len() == b@.len());
                }
            }
        }
        return false;
    }
    let n = a.len();
    let mut i: usize = 0;
    while i < n
        invariant
            n == a@.len(),
            n == b@.len(),
            0 <= i <= n,
            forall|j: int| 0 <= j < i ==> a@[j] == b@[j],
        decreases n - i,
    {
        if a[i] != b[i] {
            return false;
        }
        i = i + 1;
    }
    proof {
        assert(a@ =~= b@);
    }
    true
}

/// Byte-wise lexicographic comparison of two byte strings.
fn key_lt(a: &Vec<u8>, b: &Vec<u8>) -> (r: bool)
    ensures
        r == lex_lt(a@, b@),
{
    let na = a.len();
    let nb = b.len();
    let n = if na <= nb {
        na
    } else {
        nb
    };
    let mut i: usize = 0;
    proof {
        assert(a@.skip(0) =~= a@);
        assert(b@.skip(0) =~= b@);
    }
    while i < n
        invariant
            na == a@.len(),
            nb == b@.len(),
            n == if na <= nb {
                na as int
            } else {
                nb as int
            },
            0 <= i <= n,
            forall|j: int| 0 <= j < i ==> a@[j] == b@[j],
            lex_lt(a@, b@) == lex_lt(a@.skip(i as int), b@.skip(i as int)),
        decreases n - i,
    {
        proof {
            assert(a@.skip(i as int)[0] == a@[i as int]);
            assert(b@.skip(i as int)[0] == b@[i as int]);
            assert(a@.skip(i as int).drop_first() =~= a@.skip(i as int + 1));
            assert(b@.skip(i as int).drop_first() =~= b@.skip(i as int + 1));
        }
        if a[i] < b[i] {
            return true;
        }
        if a[i] > b[i] {
            return false;
        }
        i = i + 1;
    }
    proof {
        if na < nb {
            assert(a@.skip(i as int).len() == 0);
            assert(b@.skip(i as int).len() > 0);
        } else {
            assert(b@.skip(i as int).len() == 0);
        }
    }
    na < nb
}

/// Copy a byte string.
fn copy_bytes(v: &Vec<u8>) -> (r: Vec<u8>)
    ensures
        r@ == v@,
{
    let mut r: Vec<u8> = Vec::new();
    let mut i: usize = 0;
    while i < v.len()
        invariant
            0 <= i <= v@.len(),
            r@ == v@.take(i as int),
        decreases v@.len() - i,
    {
        proof {
            assert(v@.take(i as int + 1) =~= v@.take(i as int).push(v@[i as int]));
        }
        r.push(v[i]);
        i = i + 1;
    }
    proof {
        assert(v@.take(v@.len() as int) =~= v@);
    }
    r
}

} // verus!
