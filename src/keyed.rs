//! A map from strings to values that remembers the order in which keys were
//! first inserted, so that every walk over it is deterministic.

use vstd::hash_map::StringHashMap;
use vstd::prelude::*;

use crate::text::string_views;

verus! {

/// String-keyed map; inserting an existing key overwrites its value in place.
pub struct KeyedMap<V> {
    keys: Vec<String>,
    vals: Vec<V>,
    index: StringHashMap<usize>,
}

impl<V> KeyedMap<V> {
    /// Keys and values are aligned and the index points each key at its entry.
    pub closed spec fn wf(&self) -> bool {
        &&& self.keys@.len() == self.vals@.len()
        &&& forall|i: int|
            0 <= i < self.keys@.len() ==> #[trigger] self.index@.contains_key(self.keys@[i]@)
                && self.index@[self.keys@[i]@] == i
        &&& forall|k: Seq<char>|
            #[trigger] self.index@.contains_key(k) ==> self.index@[k] < self.keys@.len()
                && self.keys@[self.index@[k] as int]@ == k
    }

    /// The keys, in order of first insertion.
    pub closed spec fn key_seq(&self) -> Seq<Seq<char>> {
        string_views(self.keys@)
    }

    /// The values, aligned with `key_seq`.
    pub closed spec fn val_seq(&self) -> Seq<V> {
        self.vals@
    }

    pub closed spec fn view(&self) -> Map<Seq<char>, V> {
        Map::new(
            |k: Seq<char>| self.index@.contains_key(k),
            |k: Seq<char>| self.vals@[self.index@[k] as int],
        )
    }

    /// What every map satisfies: keys are distinct, key and value sequences
    /// are aligned, and the map holds exactly the listed entries.
    pub proof fn lemma_entries(&self)
        requires
            self.wf(),
        ensures
            self.key_seq().len() == self.val_seq().len(),
            self.key_seq().no_duplicates(),
            forall|i: int|
                0 <= i < self.key_seq().len() ==> #[trigger] self@.contains_key(self.key_seq()[i])
                    && self@[self.key_seq()[i]] == self.val_seq()[i],
            forall|k: Seq<char>| #[trigger]
                self@.contains_key(k) ==> exists|i: int|
                    0 <= i < self.key_seq().len() && self.key_seq()[i] == k,
            self@.dom().finite(),
            self@.dom().len() == self.key_seq().len(),
    {
        let ks = self.key_seq();
        assert forall|i: int, j: int| 0 <= i < ks.len() && 0 <= j < ks.len() && i != j implies ks[i]
            != ks[j] by {
            assert(self.index@.contains_key(self.keys@[i]@));
            assert(self.index@.contains_key(self.keys@[j]@));
        }
        assert forall|k: Seq<char>| #[trigger] self@.dom().contains(k) implies ks.to_set().contains(k) by {
            let i = self.index@[k] as int;
            assert(ks[i] == k);
        }
        assert forall|k: Seq<char>| #[trigger] ks.to_set().contains(k) implies self@.dom().contains(k) by {
            let i = choose|i: int| 0 <= i < ks.len() && ks[i] == k;
            assert(self.index@.contains_key(self.keys@[i]@));
        }
        assert(self@.dom() =~= ks.to_set());
        ks.unique_seq_to_set();
        assert forall|k: Seq<char>| #[trigger] self@.contains_key(k) implies exists|i: int|
            0 <= i < self.key_seq().len() && self.key_seq()[i] == k by {
            let i = self.index@[k] as int;
            assert(self.key_seq()[i] == k);
        }
    }

    pub fn new() -> (r: Self)
        ensures
            r.wf(),
            r@ == Map::<Seq<char>, V>::empty(),
            r.key_seq() == Seq::<Seq<char>>::empty(),
            r.val_seq() == Seq::<V>::empty(),
    {
        let r = KeyedMap { keys: Vec::new(), vals: Vec::new(), index: StringHashMap::new() };
        assert(r@ =~= Map::<Seq<char>, V>::empty());
        assert(r.key_seq() =~= Seq::<Seq<char>>::empty());
        r
    }

    pub fn len(&self) -> (r: usize)
        requires
            self.wf(),
        ensures
            r == self.key_seq().len(),
            r == self@.len(),
    {
        proof {
            self.lemma_entries();
        }
        self.keys.len()
    }

    /// The key of the `i`-th entry.
    pub fn key_at(&self, i: usize) -> (r: &String)
        requires
            self.wf(),
            i < self.key_seq().len(),
        ensures
            r@ == self.key_seq()[i as int],
    {
        &self.keys[i]
    }

    /// The value of the `i`-th entry.
    pub fn value_at(&self, i: usize) -> (r: &V)
        requires
            self.wf(),
            i < self.key_seq().len(),
        ensures
            *r == self.val_seq()[i as int],
    {
        &self.vals[i]
    }

    pub fn contains_key(&self, k: &str) -> (r: bool)
        requires
            self.wf(),
        ensures
            r == self@.contains_key(k@),
    {
        self.index.contains_key(k)
    }

    pub fn get(&self, k: &str) -> (r: Option<&V>)
        requires
            self.wf(),
        ensures
            match r {
                Some(v) => self@.contains_key(k@) && *v == self@[k@],
                None => !self@.contains_key(k@),
            },
    {
        match self.index.get(k) {
            Some(i) => Some(&self.vals[*i]),
            None => None,
        }
    }

    /// Sets the value of `k`; a new key goes after all others, an existing one keeps its place.
    pub fn insert(&mut self, k: String, v: V)
        requires
            old(self).wf(),
        ensures
            final(self).wf(),
            final(self)@ == old(self)@.insert(k@, v),
            old(self)@.contains_key(k@) ==> final(self).key_seq() == old(self).key_seq(),
            !old(self)@.contains_key(k@) ==> final(self).key_seq() == old(self).key_seq().push(k@),
            !old(self)@.contains_key(k@) ==> final(self).val_seq() == old(self).val_seq().push(v),
    {
        match self.index.get(k.as_str()) {
            Some(i) => {
                let i = *i;
                self.vals.set(i, v);
            },
            None => {
                let n = self.keys.len();
                self.index.insert(k.clone(), n);
                self.keys.push(k);
                self.vals.push(v);
                proof {
                    assert(self.key_seq() =~= old(self).key_seq().push(k@));
                }
            },
        }
    }
}

/// Two maps with the same keys in the same order, whose aligned values are
/// related by `rel`, hold the same keys with related values.
pub proof fn lemma_aligned<V, W>(a: &KeyedMap<V>, b: &KeyedMap<W>, rel: spec_fn(V, W) -> bool)
    requires
        a.wf(),
        b.wf(),
        a.key_seq() == b.key_seq(),
        forall|j: int| 0 <= j < a.val_seq().len() ==> #[trigger] rel(a.val_seq()[j], b.val_seq()[j]),
    ensures
        a@.dom() == b@.dom(),
        forall|k: Seq<char>| #[trigger] a@.contains_key(k) ==> rel(a@[k], b@[k]),
{
    a.lemma_entries();
    b.lemma_entries();
    let ks = a.key_seq();
    assert forall|k: Seq<char>| a@.contains_key(k) <==> b@.contains_key(k) by {
        if a@.contains_key(k) {
            let j = choose|j: int| 0 <= j < ks.len() && ks[j] == k;
            assert(b@.contains_key(ks[j]));
        }
        if b@.contains_key(k) {
            let j = choose|j: int| 0 <= j < ks.len() && ks[j] == k;
            assert(a@.contains_key(ks[j]));
        }
    }
    assert(a@.dom() =~= b@.dom());
    assert forall|k: Seq<char>| #[trigger] a@.contains_key(k) implies rel(a@[k], b@[k]) by {
        let j = choose|j: int| 0 <= j < ks.len() && ks[j] == k;
        assert(a@[ks[j]] == a.val_seq()[j]);
        assert(b@[ks[j]] == b.val_seq()[j]);
        assert(rel(a.val_seq()[j], b.val_seq()[j]));
    }
}

/// While copying the entries of `src` in order, the next key is not yet in the copy.
pub proof fn lemma_fresh<V, W>(src: &KeyedMap<V>, out: &KeyedMap<W>, i: int)
    requires
        src.wf(),
        out.wf(),
        0 <= i < src.key_seq().len(),
        out.key_seq() == src.key_seq().take(i),
    ensures
        !out@.contains_key(src.key_seq()[i]),
{
    src.lemma_entries();
    out.lemma_entries();
    if out@.contains_key(src.key_seq()[i]) {
        let j = choose|j: int| 0 <= j < out.key_seq().len() && out.key_seq()[j] == src.key_seq()[i];
        assert(src.key_seq()[j] == src.key_seq()[i]);
    }
}

/// The contents of a map of strings, as character sequences.
pub open spec fn text_view(m: Map<Seq<char>, String>) -> Map<Seq<char>, Seq<char>> {
    m.map_values(|s: String| s@)
}

} // verus!
