//! Bundle descriptors, and the map from bundle id to stored bundle that the
//! database keeps as a vector with unique ids.
use vstd::prelude::*;
use crate::keyring::{Encryption, EncryptionMethod};

verus! {

/// Data bundles hold file contents; meta bundles hold metadata and are
/// mirrored into the local directory.
#[derive(Clone, Copy, Debug, PartialEq, Eq, Structural, Hash)]
pub enum BundleMode {
    Data,
    Meta,
}

/// The hash that identifies the chunks of a bundle.
#[derive(Clone, Copy, Debug, PartialEq, Eq, Structural, Hash)]
pub enum HashMethod {
    Blake2,
    Murmur3,
}

/// The descriptor of a sealed bundle.
#[derive(Debug)]
pub struct BundleInfo {
    pub id: u128,
    pub mode: BundleMode,
    pub hash_method: HashMethod,
    pub encryption: Option<Encryption>,
    pub chunk_count: u64,
    pub encoded_size: u64,
    pub raw_size: u64,
}

/// A bundle descriptor as plain values.
pub struct InfoView {
    pub id: u128,
    pub mode: BundleMode,
    pub hash_method: HashMethod,
    pub encryption: Option<(EncryptionMethod, Seq<u8>)>,
    pub chunk_count: u64,
    pub encoded_size: u64,
    pub raw_size: u64,
}

impl View for BundleInfo {
    type V = InfoView;

    open spec fn view(&self) -> InfoView {
        InfoView {
            id: self.id,
            mode: self.mode,
            hash_method: self.hash_method,
            encryption: match self.encryption {
                Some(e) => Some((e.0, e.1@)),
                None => None,
            },
            chunk_count: self.chunk_count,
            encoded_size: self.encoded_size,
            raw_size: self.raw_size,
        }
    }
}

/// A copy of a byte vector.
pub fn copy_bytes(v: &Vec<u8>) -> (r: Vec<u8>)
    ensures
        r@ == v@,
{
    let mut r: Vec<u8> = Vec::with_capacity(v.len());
    let mut i: usize = 0;
    while i < v.len()
        invariant
            0 <= i <= v@.len(),
            r@ == v@.subrange(0, i as int),
        decreases v@.len() - i,
    {
        r.push(v[i]);
        i = i + 1;
        assert(r@ =~= v@.subrange(0, i as int));
    }
    assert(r@ =~= v@);
    r
}

impl BundleInfo {
    /// A copy of the descriptor.
    pub fn copy(&self) -> (r: BundleInfo)
        ensures
            r@ == self@,
    {
        let encryption = match &self.encryption {
            Some(e) => Some((e.0, copy_bytes(&e.1))),
            None => None,
        };
        BundleInfo {
            id: self.id,
            mode: self.mode,
            hash_method: self.hash_method,
            encryption,
            chunk_count: self.chunk_count,
            encoded_size: self.encoded_size,
            raw_size: self.raw_size,
        }
    }
}

/// A bundle descriptor with the bundle file's path, relative to the repository.
#[derive(Debug)]
pub struct StoredBundle {
    pub info: BundleInfo,
    pub path: Vec<u8>,
}

/// A stored bundle as plain values.
pub struct StoredView {
    pub info: InfoView,
    pub path: Seq<u8>,
}

impl View for StoredBundle {
    type V = StoredView;

    open spec fn view(&self) -> StoredView {
        StoredView { info: self.info@, path: self.path@ }
    }
}

impl StoredBundle {
    /// The bundle's id.
    pub fn id(&self) -> (r: u128)
        ensures
            r == self.info.id,
    {
        self.info.id
    }

    /// A copy of the record.
    pub fn copy(&self) -> (r: StoredBundle)
        ensures
            r@ == self@,
            r.info.id == self.info.id,
            r.info.mode == self.info.mode,
    {
        StoredBundle { info: self.info.copy(), path: copy_bytes(&self.path) }
    }
}

/// Whether some record of `s` has id `id`.
pub open spec fn has_id(s: Seq<StoredBundle>, id: u128) -> bool {
    exists|i: int| 0 <= i < s.len() && s[i].info.id == id
}

/// The ids of the records of `s`.
pub open spec fn id_set(s: Seq<StoredBundle>) -> Set<u128> {
    Set::new(|id: u128| has_id(s, id))
}

/// No two records of `s` share an id.
pub open spec fn unique_ids(s: Seq<StoredBundle>) -> bool {
    forall|i: int, j: int|
        0 <= i < s.len() && 0 <= j < s.len() && #[trigger] s[i].info.id == #[trigger] s[j].info.id
            ==> i == j
}

/// The map from id to record that `s` stands for.
pub open spec fn bundle_map(s: Seq<StoredBundle>) -> Map<u128, StoredView> {
    Map::new(
        |id: u128| has_id(s, id),
        |id: u128| s[choose|i: int| 0 <= i < s.len() && s[i].info.id == id]@,
    )
}

/// With unique ids, record `i` is what the map holds for its id.
pub(crate) proof fn lemma_map_at(s: Seq<StoredBundle>, i: int)
    requires
        unique_ids(s),
        0 <= i < s.len(),
    ensures
        bundle_map(s).dom().contains(s[i].info.id),
        bundle_map(s)[s[i].info.id] == s[i]@,
{
    let id = s[i].info.id;
    assert(has_id(s, id));
    let k = choose|k: int| 0 <= k < s.len() && s[k].info.id == id;
    assert(s[k].info.id == s[i].info.id);
}

/// Appending a record with a fresh id inserts it into the map.
pub(crate) proof fn lemma_map_push(s: Seq<StoredBundle>, b: StoredBundle)
    requires
        unique_ids(s),
        !has_id(s, b.info.id),
    ensures
        unique_ids(s.push(b)),
        bundle_map(s.push(b)) == bundle_map(s).insert(b.info.id, b@),
        forall|x: u128| has_id(s.push(b), x) <==> (has_id(s, x) || x == b.info.id),
{
    let t = s.push(b);
    assert forall|i: int, j: int|
        0 <= i < t.len() && 0 <= j < t.len() && #[trigger] t[i].info.id == #[trigger] t[j].info.id
            implies i == j by {
        if i < s.len() && j < s.len() {
            assert(s[i].info.id == s[j].info.id);
        }
    }
    assert forall|x: u128| has_id(t, x) <==> (has_id(s, x) || x == b.info.id) by {
        if has_id(s, x) {
            let k = choose|k: int| 0 <= k < s.len() && s[k].info.id == x;
            assert(t[k] == s[k]);
        }
        if has_id(t, x) && x != b.info.id {
            let k = choose|k: int| 0 <= k < t.len() && t[k].info.id == x;
            assert(s[k] == t[k]);
        }
        if x == b.info.id {
            assert(t[s.len() as int] == b);
        }
    }
    assert forall|x: u128| #[trigger] bundle_map(t).dom().contains(x) implies bundle_map(t)[x]
        == bundle_map(s).insert(b.info.id, b@)[x] by {
        let k = choose|k: int| 0 <= k < t.len() && t[k].info.id == x;
        lemma_map_at(t, k);
        if k < s.len() {
            assert(s[k] == t[k]);
            lemma_map_at(s, k);
        }
    }
    assert(bundle_map(t) =~= bundle_map(s).insert(b.info.id, b@));
}

/// Removing record `i` removes its id from the map.
pub(crate) proof fn lemma_map_remove(s: Seq<StoredBundle>, i: int)
    requires
        unique_ids(s),
        0 <= i < s.len(),
    ensures
        unique_ids(s.remove(i)),
        bundle_map(s.remove(i)) == bundle_map(s).remove(s[i].info.id),
        forall|x: u128| has_id(s.remove(i), x) <==> (has_id(s, x) && x != s[i].info.id),
{
    let t = s.remove(i);
    let id = s[i].info.id;
    assert forall|a: int, b: int|
        0 <= a < t.len() && 0 <= b < t.len() && #[trigger] t[a].info.id == #[trigger] t[b].info.id
            implies a == b by {
        let a2 = if a < i { a } else { a + 1 };
        let b2 = if b < i { b } else { b + 1 };
        assert(t[a] == s[a2]);
        assert(t[b] == s[b2]);
    }
    assert forall|x: u128| has_id(t, x) <==> (has_id(s, x) && x != id) by {
        if has_id(t, x) {
            let k = choose|k: int| 0 <= k < t.len() && t[k].info.id == x;
            let k2 = if k < i { k } else { k + 1 };
            assert(t[k] == s[k2]);
        }
        if has_id(s, x) && x != id {
            let k = choose|k: int| 0 <= k < s.len() && s[k].info.id == x;
            assert(k != i);
            let k2 = if k < i { k } else { k - 1 };
            assert(t[k2] == s[k]);
        }
    }
    assert forall|x: u128| #[trigger] bundle_map(t).dom().contains(x) implies bundle_map(t)[x]
        == bundle_map(s).remove(id)[x] by {
        let k = choose|k: int| 0 <= k < t.len() && t[k].info.id == x;
        lemma_map_at(t, k);
        let k2 = if k < i { k } else { k + 1 };
        assert(t[k] == s[k2]);
        lemma_map_at(s, k2);
    }
    assert(bundle_map(t) =~= bundle_map(s).remove(id));
}

/// The index of the record with id `id`, if there is one.
pub fn find_bundle(s: &Vec<StoredBundle>, id: u128) -> (r: Option<usize>)
    ensures
        r is None <==> !has_id(s@, id),
        r is Some ==> r->Some_0 < s@.len() && s@[r->Some_0 as int].info.id == id,
{
    let mut i: usize = 0;
    while i < s.len()
        invariant
            0 <= i <= s@.len(),
            forall|j: int| 0 <= j < i ==> s@[j].info.id != id,
        decreases s@.len() - i,
    {
        if s[i].info.id == id {
            return Some(i);
        }
        i = i + 1;
    }
    None
}

/// Takes the record with id `id` out of the map.
pub fn remove_bundle(s: &mut Vec<StoredBundle>, id: u128) -> (r: Option<StoredBundle>)
    requires
        unique_ids(old(s)@),
    ensures
        unique_ids(final(s)@),
        bundle_map(final(s)@) == bundle_map(old(s)@).remove(id),
        r is Some <==> bundle_map(old(s)@).dom().contains(id),
        r is Some ==> r->Some_0@ == bundle_map(old(s)@)[id] && r->Some_0.info.id == id,
{
    match find_bundle(s, id) {
        None => {
            assert(bundle_map(s@) =~= bundle_map(s@).remove(id));
            None
        },
        Some(i) => {
            proof {
                lemma_map_remove(s@, i as int);
                lemma_map_at(s@, i as int);
            }
            Some(s.remove(i))
        },
    }
}

/// Puts `b` in the map, replacing the record with the same id.
pub fn insert_bundle(s: &mut Vec<StoredBundle>, b: StoredBundle)
    requires
        unique_ids(old(s)@),
    ensures
        unique_ids(final(s)@),
        bundle_map(final(s)@) == bundle_map(old(s)@).insert(b.info.id, b@),
{
    let id = b.info.id;
    remove_bundle(s, id);
    proof {
        assert(!bundle_map(s@).dom().contains(id));
        assert(!has_id(s@, id));
        lemma_map_push(s@, b);
        assert(bundle_map(old(s)@).remove(id).insert(id, b@) =~= bundle_map(old(s)@).insert(id, b@));
    }
    s.push(b);
}

/// Copies of the records of `s`, in order.
pub fn copy_all(s: &Vec<StoredBundle>) -> (r: Vec<StoredBundle>)
    ensures
        r@.len() == s@.len(),
        forall|i: int| 0 <= i < s@.len() ==> (#[trigger] r@[i])@ == s@[i]@ && r@[i].info.id == s@[i].info.id,
{
    let mut r: Vec<StoredBundle> = Vec::new();
    let mut i: usize = 0;
    while i < s.len()
        invariant
            0 <= i <= s@.len(),
            r@.len() == i,
            forall|k: int| 0 <= k < i ==> (#[trigger] r@[k])@ == s@[k]@ && r@[k].info.id == s@[k].info.id,
        decreases s@.len() - i,
    {
        r.push(s[i].copy());
        i = i + 1;
    }
    r
}

/// Record-by-record copies stand for the same map.
pub(crate) proof fn lemma_copies_map(s: Seq<StoredBundle>, r: Seq<StoredBundle>)
    requires
        unique_ids(s),
        r.len() == s.len(),
        forall|i: int| 0 <= i < s.len() ==> (#[trigger] r[i])@ == s[i]@ && r[i].info.id == s[i].info.id,
    ensures
        unique_ids(r),
        bundle_map(r) == bundle_map(s),
{
    assert forall|i: int, j: int|
        0 <= i < r.len() && 0 <= j < r.len() && #[trigger] r[i].info.id == #[trigger] r[j].info.id
            implies i == j by {
        assert(s[i].info.id == s[j].info.id);
    }
    assert forall|x: u128| has_id(r, x) <==> has_id(s, x) by {
        if has_id(r, x) {
            let k = choose|k: int| 0 <= k < r.len() && r[k].info.id == x;
            assert(s[k].info.id == x);
        }
        if has_id(s, x) {
            let k = choose|k: int| 0 <= k < s.len() && s[k].info.id == x;
            assert(r[k].info.id == x);
        }
    }
    assert forall|x: u128| #[trigger] bundle_map(r).dom().contains(x) implies bundle_map(r)[x]
        == bundle_map(s)[x] by {
        let k = choose|k: int| 0 <= k < r.len() && r[k].info.id == x;
        lemma_map_at(r, k);
        lemma_map_at(s, k);
    }
    assert(bundle_map(r) =~= bundle_map(s));
}

} // verus!
