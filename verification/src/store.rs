//! The object-store capability the orchestrators run against.
//!
//! A store is a named bucket of objects: byte payloads under byte-string
//! keys.  Its model is a map from key to payload.  Every operation may fail
//! (the transport is remote), so the contracts promise nothing of the error
//! case beyond the store being unchanged; what an operation returns on
//! success is pinned to the model.
//!
//! [`MemoryStore`] is a verified in-memory implementation, usable both as
//! the test double the orchestrator properties are exercised with and as a
//! reference for what an implementation over a real transport must honour.
use vstd::prelude::*;

verus! {

/// Why a store operation failed, as a human-readable cause.
#[derive(Debug)]
pub struct StoreError {
    pub message: String,
}

/// A bucket of objects under byte-string keys.
///
/// `contents` is the store's model; `inv` is whatever well-formedness the
/// implementation needs carried between calls.
pub trait ObjectStore {
    /// The implementation's own well-formedness.  The default leaves an
    /// implementation unconstrained.
    open spec fn inv(&self) -> bool {
        true
    }

    /// The objects currently in the bucket, keyed by object key.  An
    /// implementation that keeps the default empty model promises nothing
    /// of what its operations return.
    open spec fn contents(&self) -> Map<Seq<u8>, Seq<u8>> {
        Map::empty()
    }

    /// Every key in the bucket, each exactly once, in the store's listing
    /// order.
    fn list(&self) -> (r: Result<Vec<Vec<u8>>, StoreError>)
        requires
            self.inv(),
        ensures
            match r {
                Ok(keys) => {
                    let ks = keys@.map_values(|k: Vec<u8>| k@);
                    &&& ks.no_duplicates()
                    &&& forall|k: Seq<u8>| ks.contains(k) <==> self.contents().dom().contains(k)
                },
                Err(_) => true,
            },
    ;

    /// The payload stored under `key`; success means `key` is in the
    /// bucket and the returned bytes are its payload.
    fn get(&self, key: &Vec<u8>) -> (r: Result<Vec<u8>, StoreError>)
        requires
            self.inv(),
        ensures
            match r {
                Ok(data) => self.contents().contains_key(key@) && data@ == self.contents()[key@],
                Err(_) => true,
            },
    ;

    /// Stores `data` under `key`, replacing any previous payload; on
    /// failure the bucket is unchanged.
    fn put(&mut self, key: &Vec<u8>, data: &Vec<u8>) -> (r: Result<(), StoreError>)
        requires
            old(self).inv(),
        ensures
            final(self).inv(),
            match r {
                Ok(_) => final(self).contents() == old(self).contents().insert(key@, data@),
                Err(_) => final(self).contents() == old(self).contents(),
            },
    ;
}

/// The byte-sequence models of a run of byte vectors.
pub open spec fn byte_views(vs: Seq<Vec<u8>>) -> Seq<Seq<u8>> {
    vs.map_values(|v: Vec<u8>| v@)
}

/// The map formed by parallel key and payload runs, later pairs winning.
pub open spec fn pairs_map(ks: Seq<Seq<u8>>, vs: Seq<Seq<u8>>) -> Map<Seq<u8>, Seq<u8>>
    decreases ks.len(),
{
    if ks.len() == 0 || vs.len() == 0 {
        Map::empty()
    } else {
        pairs_map(ks.drop_last(), vs.drop_last()).insert(ks.last(), vs.last())
    }
}

proof fn lemma_pairs_map_contains(ks: Seq<Seq<u8>>, vs: Seq<Seq<u8>>)
    requires
        ks.len() == vs.len(),
    ensures
        forall|k: Seq<u8>| #[trigger] pairs_map(ks, vs).dom().contains(k) <==> ks.contains(k),
    decreases ks.len(),
{
    if ks.len() > 0 {
        lemma_pairs_map_contains(ks.drop_last(), vs.drop_last());
        assert forall|k: Seq<u8>| #[trigger]
            pairs_map(ks, vs).dom().contains(k) <==> ks.contains(k) by {
            if pairs_map(ks, vs).dom().contains(k) {
                if k == ks.last() {
                    assert(ks[ks.len() - 1] == k);
                } else {
                    assert(pairs_map(ks.drop_last(), vs.drop_last()).dom().contains(k));
                    assert(ks.drop_last().contains(k));
                    let i = choose|i: int| 0 <= i < ks.drop_last().len() && ks.drop_last()[i] == k;
                    assert(ks[i] == k);
                }
            }
            if ks.contains(k) {
                let i = choose|i: int| 0 <= i < ks.len() && ks[i] == k;
                if i < ks.len() - 1 {
                    assert(ks.drop_last()[i] == k);
                    assert(ks.drop_last().contains(k));
                    assert(pairs_map(ks.drop_last(), vs.drop_last()).dom().contains(k));
                } else {
                    assert(k == ks.last());
                }
            }
        }
    }
}

proof fn lemma_pairs_map_lookup(ks: Seq<Seq<u8>>, vs: Seq<Seq<u8>>, i: int)
    requires
        ks.len() == vs.len(),
        ks.no_duplicates(),
        0 <= i < ks.len(),
    ensures
        pairs_map(ks, vs).contains_key(ks[i]),
        pairs_map(ks, vs)[ks[i]] == vs[i],
    decreases ks.len(),
{
    if i == ks.len() - 1 {
    } else {
        assert(ks.drop_last().no_duplicates());
        lemma_pairs_map_lookup(ks.drop_last(), vs.drop_last(), i);
        assert(ks[i] != ks.last());
    }
}

proof fn lemma_pairs_map_update(ks: Seq<Seq<u8>>, vs: Seq<Seq<u8>>, i: int, d: Seq<u8>)
    requires
        ks.len() == vs.len(),
        ks.no_duplicates(),
        0 <= i < ks.len(),
    ensures
        pairs_map(ks, vs.update(i, d)) == pairs_map(ks, vs).insert(ks[i], d),
    decreases ks.len(),
{
    let upd = vs.update(i, d);
    if i == ks.len() - 1 {
        assert(upd.drop_last() =~= vs.drop_last());
        assert(upd.last() == d);
        assert(pairs_map(ks, upd) == pairs_map(ks.drop_last(), vs.drop_last()).insert(
            ks.last(),
            d,
        ));
        assert(pairs_map(ks.drop_last(), vs.drop_last()).insert(ks.last(), d)
            =~= pairs_map(ks, vs).insert(ks[i], d));
    } else {
        assert(ks.drop_last().no_duplicates());
        assert(upd.drop_last() =~= vs.drop_last().update(i, d));
        assert(upd.last() == vs.last());
        lemma_pairs_map_update(ks.drop_last(), vs.drop_last(), i, d);
        assert(ks.drop_last()[i] == ks[i]);
        assert(ks[i] != ks.last());
        assert(pairs_map(ks.drop_last(), vs.drop_last()).insert(ks[i], d).insert(
            ks.last(),
            vs.last(),
        ) =~= pairs_map(ks, vs).insert(ks[i], d));
    }
}

/// True exactly when the two byte runs hold the same bytes.
fn bytes_eq(a: &Vec<u8>, b: &Vec<u8>) -> (r: bool)
    ensures
        r <==> a@ == b@,
{
    if a.len() != b.len() {
        return false;
    }
    let mut i: usize = 0;
    while i < a.len()
        invariant
            i <= a@.len(),
            a@.len() == b@.len(),
            forall|j: int| 0 <= j < i ==> a@[j] == b@[j],
        decreases a@.len() - i,
    {
        if a[i] != b[i] {
            return false;
        }
        i += 1;
    }
    proof {
        assert(a@ =~= b@);
    }
    true
}

/// A fresh byte run holding the same bytes.
pub fn copy_bytes(src: &Vec<u8>) -> (r: Vec<u8>)
    ensures
        r@ == src@,
{
    let mut out: Vec<u8> = Vec::new();
    let mut i: usize = 0;
    while i < src.len()
        invariant
            i <= src@.len(),
            out@ == src@.take(i as int),
        decreases src@.len() - i,
    {
        out.push(src[i]);
        proof {
            assert(out@ =~= src@.take(i + 1));
        }
        i += 1;
    }
    proof {
        assert(out@ =~= src@);
    }
    out
}

/// True exactly when `elems` holds a run equal to `key`.
fn holds_key(elems: &Vec<Vec<u8>>, key: &Vec<u8>) -> (r: bool)
    ensures
        r <==> byte_views(elems@).contains(key@),
{
    let mut i: usize = 0;
    while i < elems.len()
        invariant
            i <= elems@.len(),
            forall|j: int| 0 <= j < i ==> byte_views(elems@)[j] != key@,
        decreases elems@.len() - i,
    {
        if bytes_eq(&elems[i], key) {
            proof {
                assert(byte_views(elems@)[i as int] == key@);
            }
            return true;
        }
        i += 1;
    }
    false
}

/// The position of `key` among `keys`, if it is there.
fn find_key(keys: &Vec<Vec<u8>>, key: &Vec<u8>) -> (r: Option<usize>)
    ensures
        match r {
            Option::Some(i) => i < keys@.len() && keys@[i as int]@ == key@,
            Option::None => !byte_views(keys@).contains(key@),
        },
{
    let mut i: usize = 0;
    while i < keys.len()
        invariant
            i <= keys@.len(),
            forall|j: int| 0 <= j < i ==> byte_views(keys@)[j] != key@,
        decreases keys@.len() - i,
    {
        if bytes_eq(&keys[i], key) {
            return Some(i);
        }
        i += 1;
    }
    None
}

/// An in-memory object store: objects in insertion order, plus switches
/// that make chosen operations fail, so that failure handling can be
/// exercised.
pub struct MemoryStore {
    keys: Vec<Vec<u8>>,
    vals: Vec<Vec<u8>>,
    get_failures: Vec<Vec<u8>>,
    put_failures: Vec<Vec<u8>>,
    list_failure: bool,
}

impl MemoryStore {
    /// The listed keys, in listing (insertion) order.
    pub closed spec fn key_order(&self) -> Seq<Seq<u8>> {
        byte_views(self.keys@)
    }

    /// The keys whose `get` is arranged to fail.
    pub closed spec fn get_failing(&self) -> Seq<Seq<u8>> {
        byte_views(self.get_failures@)
    }

    /// The keys whose `put` is arranged to fail.
    pub closed spec fn put_failing(&self) -> Seq<Seq<u8>> {
        byte_views(self.put_failures@)
    }

    /// Whether `list` is arranged to fail.
    pub closed spec fn list_failing(&self) -> bool {
        self.list_failure
    }

    /// An empty bucket with no arranged failures.
    pub fn new() -> (s: Self)
        ensures
            s.inv(),
            s.contents() == Map::<Seq<u8>, Seq<u8>>::empty(),
            s.key_order() == Seq::<Seq<u8>>::empty(),
            s.get_failing() == Seq::<Seq<u8>>::empty(),
            s.put_failing() == Seq::<Seq<u8>>::empty(),
            !s.list_failing(),
    {
        let s = MemoryStore {
            keys: Vec::new(),
            vals: Vec::new(),
            get_failures: Vec::new(),
            put_failures: Vec::new(),
            list_failure: false,
        };
        proof {
            assert(s.key_order() =~= Seq::<Seq<u8>>::empty());
            assert(s.get_failing() =~= Seq::<Seq<u8>>::empty());
            assert(s.put_failing() =~= Seq::<Seq<u8>>::empty());
        }
        s
    }

    /// Arranges for `get` of `key` to fail.
    pub fn fail_gets_of(&mut self, key: Vec<u8>)
        requires
            old(self).inv(),
        ensures
            final(self).inv(),
            final(self).contents() == old(self).contents(),
            final(self).key_order() == old(self).key_order(),
            final(self).get_failing() == old(self).get_failing().push(key@),
            final(self).put_failing() == old(self).put_failing(),
            final(self).list_failing() == old(self).list_failing(),
    {
        let ghost gkey = key@;
        self.get_failures.push(key);
        proof {
            assert(self.get_failing() =~= old(self).get_failing().push(gkey));
        }
    }

    /// Arranges for `put` of `key` to fail.
    pub fn fail_puts_of(&mut self, key: Vec<u8>)
        requires
            old(self).inv(),
        ensures
            final(self).inv(),
            final(self).contents() == old(self).contents(),
            final(self).key_order() == old(self).key_order(),
            final(self).get_failing() == old(self).get_failing(),
            final(self).put_failing() == old(self).put_failing().push(key@),
            final(self).list_failing() == old(self).list_failing(),
    {
        let ghost gkey = key@;
        self.put_failures.push(key);
        proof {
            assert(self.put_failing() =~= old(self).put_failing().push(gkey));
        }
    }

    /// Arranges for `list` to fail.
    pub fn fail_listing(&mut self)
        requires
            old(self).inv(),
        ensures
            final(self).inv(),
            final(self).contents() == old(self).contents(),
            final(self).key_order() == old(self).key_order(),
            final(self).get_failing() == old(self).get_failing(),
            final(self).put_failing() == old(self).put_failing(),
            final(self).list_failing(),
    {
        self.list_failure = true;
    }

    /// How many objects the bucket holds.
    pub fn object_count(&self) -> (n: usize)
        requires
            self.inv(),
        ensures
            n == self.contents().dom().len(),
    {
        proof {
            lemma_pairs_map_len(byte_views(self.keys@), byte_views(self.vals@));
        }
        self.keys.len()
    }

    /// Every key, in insertion order; fails exactly when a listing
    /// failure is arranged.
    pub fn list_objects(&self) -> (r: Result<Vec<Vec<u8>>, StoreError>)
        requires
            self.inv(),
        ensures
            match r {
                Ok(keys) => !self.list_failing() && keys@.map_values(|k: Vec<u8>| k@)
                    == self.key_order(),
                Err(_) => self.list_failing(),
            },
    {
        if self.list_failure {
            return Err(StoreError { message: "listing failed".to_owned() });
        }
        let mut out: Vec<Vec<u8>> = Vec::new();
        let mut i: usize = 0;
        while i < self.keys.len()
            invariant
                i <= self.keys@.len(),
                out@.len() == i,
                forall|j: int| 0 <= j < i ==> #[trigger] out@[j]@ == self.keys@[j]@,
            decreases self.keys@.len() - i,
        {
            out.push(copy_bytes(&self.keys[i]));
            i += 1;
        }
        proof {
            assert(out@.map_values(|k: Vec<u8>| k@) =~= self.key_order());
        }
        Ok(out)
    }

    /// The payload under `key`; fails exactly when a fetch failure is
    /// arranged for `key` or the bucket does not hold it.
    pub fn get_object(&self, key: &Vec<u8>) -> (r: Result<Vec<u8>, StoreError>)
        requires
            self.inv(),
        ensures
            match r {
                Ok(data) => !self.get_failing().contains(key@) && self.contents().contains_key(
                    key@,
                ) && data@ == self.contents()[key@],
                Err(_) => self.get_failing().contains(key@) || !self.contents().contains_key(key@),
            },
    {
        if holds_key(&self.get_failures, key) {
            return Err(StoreError { message: "fetch failed".to_owned() });
        }
        match find_key(&self.keys, key) {
            Option::Some(i) => {
                proof {
                    assert(byte_views(self.keys@)[i as int] == key@);
                    lemma_pairs_map_lookup(
                        byte_views(self.keys@),
                        byte_views(self.vals@),
                        i as int,
                    );
                }
                Ok(copy_bytes(&self.vals[i]))
            },
            Option::None => {
                proof {
                    lemma_pairs_map_contains(byte_views(self.keys@), byte_views(self.vals@));
                }
                Err(StoreError { message: "no such key".to_owned() })
            },
        }
    }

    /// Stores `data` under `key`; fails exactly when an upload failure is
    /// arranged for `key`.  A fresh key is listed after the existing
    /// ones; an existing key keeps its place.
    pub fn put_object(&mut self, key: &Vec<u8>, data: &Vec<u8>) -> (r: Result<(), StoreError>)
        requires
            old(self).inv(),
        ensures
            final(self).inv(),
            final(self).get_failing() == old(self).get_failing(),
            final(self).put_failing() == old(self).put_failing(),
            final(self).list_failing() == old(self).list_failing(),
            match r {
                Ok(_) => {
                    &&& !old(self).put_failing().contains(key@)
                    &&& final(self).contents() == old(self).contents().insert(key@, data@)
                    &&& final(self).key_order() == if old(self).contents().contains_key(key@) {
                        old(self).key_order()
                    } else {
                        old(self).key_order().push(key@)
                    }
                },
                Err(_) => {
                    &&& old(self).put_failing().contains(key@)
                    &&& final(self).contents() == old(self).contents()
                    &&& final(self).key_order() == old(self).key_order()
                },
            },
    {
        if holds_key(&self.put_failures, key) {
            return Err(StoreError { message: "upload failed".to_owned() });
        }
        let ghost ks = byte_views(self.keys@);
        let ghost vs = byte_views(self.vals@);
        match find_key(&self.keys, key) {
            Option::Some(i) => {
                proof {
                    assert(ks[i as int] == key@);
                    lemma_pairs_map_lookup(ks, vs, i as int);
                    lemma_pairs_map_contains(ks, vs);
                    lemma_pairs_map_update(ks, vs, i as int, data@);
                }
                let fresh = copy_bytes(data);
                self.vals.set(i, fresh);
                proof {
                    assert(byte_views(self.vals@) =~= vs.update(i as int, data@));
                }
                Ok(())
            },
            Option::None => {
                proof {
                    lemma_pairs_map_contains(ks, vs);
                }
                self.keys.push(copy_bytes(key));
                self.vals.push(copy_bytes(data));
                proof {
                    assert(byte_views(self.keys@) =~= ks.push(key@));
                    assert(byte_views(self.vals@) =~= vs.push(data@));
                    assert(byte_views(self.keys@).drop_last() =~= ks);
                    assert(byte_views(self.vals@).drop_last() =~= vs);
                    assert(byte_views(self.keys@).no_duplicates()) by {
                        assert(forall|j: int| 0 <= j < ks.len() ==> ks[j] != key@);
                    }
                    assert(pairs_map(byte_views(self.keys@), byte_views(self.vals@))
                        == pairs_map(ks, vs).insert(key@, data@));
                }
                Ok(())
            },
        }
    }
}

proof fn lemma_pairs_map_len(ks: Seq<Seq<u8>>, vs: Seq<Seq<u8>>)
    requires
        ks.len() == vs.len(),
        ks.no_duplicates(),
    ensures
        pairs_map(ks, vs).dom().finite(),
        pairs_map(ks, vs).dom().len() == ks.len(),
    decreases ks.len(),
{
    if ks.len() > 0 {
        assert(ks.drop_last().no_duplicates());
        lemma_pairs_map_len(ks.drop_last(), vs.drop_last());
        lemma_pairs_map_contains(ks.drop_last(), vs.drop_last());
        assert(!ks.drop_last().contains(ks.last()));
        assert(!pairs_map(ks.drop_last(), vs.drop_last()).dom().contains(ks.last()));
    }
}

impl ObjectStore for MemoryStore {
    /// Keys and payloads run in parallel and no key repeats.
    closed spec fn inv(&self) -> bool {
        &&& self.keys@.len() == self.vals@.len()
        &&& byte_views(self.keys@).no_duplicates()
    }

    closed spec fn contents(&self) -> Map<Seq<u8>, Seq<u8>> {
        pairs_map(byte_views(self.keys@), byte_views(self.vals@))
    }

    fn list(&self) -> (r: Result<Vec<Vec<u8>>, StoreError>) {
        let r = self.list_objects();
        proof {
            lemma_pairs_map_contains(byte_views(self.keys@), byte_views(self.vals@));
        }
        r
    }

    fn get(&self, key: &Vec<u8>) -> (r: Result<Vec<u8>, StoreError>) {
        self.get_object(key)
    }

    fn put(&mut self, key: &Vec<u8>, data: &Vec<u8>) -> (r: Result<(), StoreError>) {
        self.put_object(key, data)
    }
}

} // verus!
