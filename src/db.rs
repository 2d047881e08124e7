//! The bundle database: the remote and local maps of stored bundles, their
//! reconciliation with the directories on disk, and reads through the cache.
use vstd::prelude::*;
use crate::bundle_map::{
    BundleInfo, BundleMode, StoredBundle, StoredView, bundle_map, copy_all, find_bundle, has_id,
    id_set, insert_bundle, lemma_copies_map, lemma_map_at, lemma_map_push, lemma_map_remove,
    remove_bundle, unique_ids,
};
use crate::chunk_cache::{CachedBundle, ChunkCache, chunk_of, entry_of, extract_chunk, holds_id};

verus! {

/// How many decoded bundles the read cache keeps.
pub const CACHE_CAPACITY: usize = 5;

/// Failures of the bundle database.
#[derive(Debug, PartialEq, Eq, Structural)]
pub enum BundleDbError {
    /// A bundle directory could not be listed.
    ListBundles,
    /// A bundle could not be read or decoded, or lacks the chunk asked for.
    Reader,
    /// A bundle could not be written.
    Writer,
    /// A listing cache could not be written.
    Cache,
    /// Another input or output operation failed.
    Io,
    /// No bundle has this id.
    NoSuchBundle(u128),
    /// The file of this bundle could not be removed.
    Remove(u128),
}

/// Whether `p` is one of the listed paths.
pub open spec fn path_listed(found: Seq<Vec<u8>>, p: Seq<u8>) -> bool {
    exists|i: int| 0 <= i < found.len() && found[i]@ == p
}

/// Whether some record of `s` lives at path `p`.
pub open spec fn path_known(s: Seq<StoredBundle>, p: Seq<u8>) -> bool {
    exists|i: int| 0 <= i < s.len() && s[i].path@ == p
}

/// The ids of the map whose files are no longer listed and that no newly
/// loaded record brings back.
pub open spec fn gone_ids(m: Map<u128, StoredView>, found: Seq<Vec<u8>>, d: Seq<StoredBundle>) -> Set<u128> {
    Set::new(|id: u128| m.dom().contains(id) && !path_listed(found, m[id].path) && !has_id(d, id))
}

/// The map with the records of `d` put in, in order.
pub open spec fn insert_all(m: Map<u128, StoredView>, d: Seq<StoredBundle>) -> Map<u128, StoredView>
    decreases d.len(),
{
    if d.len() == 0 {
        m
    } else {
        insert_all(m, d.drop_last()).insert(d.last().info.id, d.last()@)
    }
}

/// The map after reconciliation: gone records dropped, newly loaded ones put in.
pub open spec fn reconciled(m: Map<u128, StoredView>, found: Seq<Vec<u8>>, d: Seq<StoredBundle>) -> Map<u128, StoredView> {
    insert_all(m.remove_keys(gone_ids(m, found, d)), d)
}

/// Whether two byte vectors are equal.
pub fn bytes_eq(a: &Vec<u8>, b: &Vec<u8>) -> (r: bool)
    ensures
        r == (a@ == b@),
{
    if a.len() != b.len() {
        return false;
    }
    let mut i: usize = 0;
    while i < a.len()
        invariant
            a@.len() == b@.len(),
            0 <= i <= a@.len(),
            forall|j: int| 0 <= j < i ==> a@[j] == b@[j],
        decreases a@.len() - i,
    {
        if a[i] != b[i] {
            return false;
        }
        i = i + 1;
    }
    assert(a@ =~= b@);
    true
}

fn is_listed(found: &Vec<Vec<u8>>, p: &Vec<u8>) -> (r: bool)
    ensures
        r == path_listed(found@, p@),
{
    let mut i: usize = 0;
    while i < found.len()
        invariant
            0 <= i <= found@.len(),
            forall|j: int| 0 <= j < i ==> found@[j]@ != p@,
        decreases found@.len() - i,
    {
        if bytes_eq(&found[i], p) {
            return true;
        }
        i = i + 1;
    }
    false
}

fn is_known(s: &Vec<StoredBundle>, p: &Vec<u8>) -> (r: bool)
    ensures
        r == path_known(s@, p@),
{
    let mut i: usize = 0;
    while i < s.len()
        invariant
            0 <= i <= s@.len(),
            forall|j: int| 0 <= j < i ==> s@[j].path@ != p@,
        decreases s@.len() - i,
    {
        if bytes_eq(&s[i].path, p) {
            return true;
        }
        i = i + 1;
    }
    false
}

/// The listed paths that no record of `bundles` lives at: the files whose
/// bundles still have to be loaded before `load_bundles`.
pub fn unknown_paths(found: &Vec<Vec<u8>>, bundles: &Vec<StoredBundle>) -> (r: Vec<Vec<u8>>)
    ensures
        forall|i: int| 0 <= i < r@.len() ==> path_listed(found@, (#[trigger] r@[i])@) && !path_known(bundles@, r@[i]@),
        forall|i: int| 0 <= i < found@.len() && !path_known(bundles@, (#[trigger] found@[i])@)
            ==> exists|j: int| 0 <= j < r@.len() && r@[j]@ == found@[i]@,
{
    let mut r: Vec<Vec<u8>> = Vec::new();
    let mut i: usize = 0;
    while i < found.len()
        invariant
            0 <= i <= found@.len(),
            forall|k: int| 0 <= k < r@.len() ==> path_listed(found@, (#[trigger] r@[k])@) && !path_known(bundles@, r@[k]@),
            forall|k: int| 0 <= k < i && !path_known(bundles@, (#[trigger] found@[k])@)
                ==> exists|j: int| 0 <= j < r@.len() && r@[j]@ == found@[k]@,
        decreases found@.len() - i,
    {
        if !is_known(bundles, &found[i]) {
            let p = crate::bundle_map::copy_bytes(&found[i]);
            let ghost before = r@;
            r.push(p);
            proof {
                assert(r@[r@.len() - 1]@ == found@[i as int]@);
                assert forall|k: int| 0 <= k < i && !path_known(bundles@, (#[trigger] found@[k])@)
                    implies exists|j: int| 0 <= j < r@.len() && r@[j]@ == found@[k]@ by {
                    let j = choose|j: int| 0 <= j < before.len() && before[j]@ == found@[k]@;
                    assert(r@[j] == before[j]);
                }
            }
        }
        i = i + 1;
    }
    r
}

proof fn lemma_insert_all_step(m: Map<u128, StoredView>, d: Seq<StoredBundle>, i: int)
    requires
        0 <= i < d.len(),
    ensures
        insert_all(m, d.subrange(0, i + 1)) == insert_all(m, d.subrange(0, i)).insert(d[i].info.id, d[i]@),
        id_set(d.subrange(0, i + 1)) == id_set(d.subrange(0, i)).insert(d[i].info.id),
{
    let t = d.subrange(0, i + 1);
    assert(t.drop_last() =~= d.subrange(0, i));
    assert forall|x: u128| has_id(t, x) <==> (has_id(d.subrange(0, i), x) || x == d[i].info.id) by {
        if has_id(t, x) {
            let k = choose|k: int| 0 <= k < t.len() && t[k].info.id == x;
            if k < i {
                assert(d.subrange(0, i)[k] == t[k]);
            }
        }
        if has_id(d.subrange(0, i), x) {
            let k = choose|k: int| 0 <= k < i && d.subrange(0, i)[k].info.id == x;
            assert(t[k] == d.subrange(0, i)[k]);
        }
        if x == d[i].info.id {
            assert(t[i] == d[i]);
        }
    }
    assert(id_set(t) =~= id_set(d.subrange(0, i)).insert(d[i].info.id));
}

/// Reconciles the map `bundles` with the files listed under its directory.
/// `found` holds the repository-relative paths of those files; `discovered`
/// holds the records loaded from the files that `unknown_paths` named. A
/// record whose file is no longer listed is gone, unless a loaded record with
/// its id replaces it. Returns the records new to the map, and the gone ones.
pub fn load_bundles(found: &Vec<Vec<u8>>, bundles: &mut Vec<StoredBundle>, discovered: Vec<StoredBundle>) -> (r: (
    Vec<StoredBundle>,
    Vec<StoredBundle>,
))
    requires
        unique_ids(old(bundles)@),
    ensures
        unique_ids(final(bundles)@),
        bundle_map(final(bundles)@) == reconciled(bundle_map(old(bundles)@), found@, discovered@),
        unique_ids(r.0@),
        id_set(r.0@) == id_set(discovered@).difference(bundle_map(old(bundles)@).dom()),
        forall|k: int| 0 <= k < r.0@.len() ==> exists|t: int| 0 <= t < discovered@.len() && discovered@[t]@ == (#[trigger] r.0@[k])@,
        unique_ids(r.1@),
        bundle_map(r.1@) == bundle_map(old(bundles)@).restrict(gone_ids(bundle_map(old(bundles)@), found@, discovered@)),
{
    let ghost m = bundle_map(bundles@);
    let ghost g = gone_ids(m, found@, discovered@);
    let mut kept: Vec<StoredBundle> = Vec::new();
    let mut gone: Vec<StoredBundle> = Vec::new();
    while bundles.len() > 0
        invariant
            unique_ids(bundles@),
            unique_ids(kept@),
            unique_ids(gone@),
            g == gone_ids(m, found@, discovered@),
            forall|x: u128| #[trigger] m.dom().contains(x) <==> (has_id(bundles@, x) || has_id(kept@, x) || has_id(gone@, x)),
            forall|x: u128| #[trigger] has_id(bundles@, x) ==> bundle_map(bundles@)[x] == m[x] && !has_id(kept@, x) && !has_id(gone@, x),
            forall|x: u128| #[trigger] has_id(kept@, x) ==> bundle_map(kept@)[x] == m[x] && !g.contains(x) && !has_id(gone@, x),
            forall|x: u128| #[trigger] has_id(gone@, x) ==> bundle_map(gone@)[x] == m[x] && g.contains(x),
        decreases bundles@.len(),
    {
        let ghost before = bundles@;
        let e = bundles.pop().unwrap();
        let ghost x = e.info.id;
        proof {
            let n = before.len() - 1;
            assert(before[n].info.id == x);
            assert(has_id(before, x));
            assert(before.remove(n) =~= bundles@);
            lemma_map_remove(before, n);
            lemma_map_at(before, n);
            assert forall|y: u128| has_id(bundles@, y) implies bundle_map(bundles@)[y] == bundle_map(before)[y] by {
            }
        }
        let listed = is_listed(found, &e.path);
        let in_discovered = find_bundle(&discovered, e.info.id).is_some();
        if !listed && !in_discovered {
            proof {
                lemma_map_push(gone@, e);
            }
            gone.push(e);
        } else {
            proof {
                lemma_map_push(kept@, e);
            }
            kept.push(e);
        }
        proof {
            assert forall|y: u128| #[trigger] has_id(bundles@, y) implies bundle_map(bundles@)[y] == m[y]
                && !has_id(kept@, y) && !has_id(gone@, y) by {
                assert(has_id(before, y));
                assert(y != x);
                assert(bundle_map(bundles@)[y] == bundle_map(before)[y]);
            }
        }
    }
    let ghost m1 = m.remove_keys(g);
    proof {
        assert(bundle_map(kept@) =~= m1);
        assert(bundle_map(gone@) =~= m.restrict(g));
    }
    *bundles = kept;
    let mut new: Vec<StoredBundle> = Vec::new();
    let mut i: usize = 0;
    proof {
        assert(discovered@.subrange(0, 0) =~= Seq::<StoredBundle>::empty());
        assert(id_set(discovered@.subrange(0, 0)) =~= Set::<u128>::empty());
        assert(id_set(new@) =~= Set::<u128>::empty());
    }
    while i < discovered.len()
        invariant
            0 <= i <= discovered@.len(),
            g == gone_ids(m, found@, discovered@),
            m1 == m.remove_keys(g),
            unique_ids(bundles@),
            bundle_map(bundles@) == insert_all(m1, discovered@.subrange(0, i as int)),
            bundle_map(bundles@).dom() == m1.dom().union(id_set(discovered@.subrange(0, i as int))),
            unique_ids(new@),
            id_set(new@) == id_set(discovered@.subrange(0, i as int)).difference(m.dom()),
            forall|k: int| 0 <= k < new@.len() ==> exists|t: int| 0 <= t < discovered@.len() && discovered@[t]@ == (#[trigger] new@[k])@,
        decreases discovered@.len() - i,
    {
        let d = &discovered[i];
        let ghost x = d.info.id;
        proof {
            lemma_insert_all_step(m1, discovered@, i as int);
            assert(has_id(discovered@, x));
        }
        if find_bundle(bundles, d.info.id).is_none() {
            let c = d.copy();
            proof {
                assert(!bundle_map(bundles@).dom().contains(x));
                assert(!id_set(discovered@.subrange(0, i as int)).contains(x));
                assert(!has_id(discovered@.subrange(0, i as int), x));
                assert(!m1.dom().contains(x));
                assert(!g.contains(x));
                assert(!m.dom().contains(x));
                assert(!id_set(new@).contains(x));
                assert(!has_id(new@, x));
                lemma_map_push(new@, c);
            }
            let ghost before = new@;
            new.push(c);
            proof {
                assert forall|y: u128| id_set(new@).contains(y) <==> id_set(discovered@.subrange(0, i + 1)).difference(m.dom()).contains(y) by {
                    assert(id_set(new@).contains(y) == has_id(new@, y));
                    assert(has_id(new@, y) == (has_id(before, y) || y == x));
                    assert(id_set(before).contains(y) == has_id(before, y));
                }
                assert(id_set(new@) =~= id_set(discovered@.subrange(0, i + 1)).difference(m.dom()));
                assert forall|k: int| 0 <= k < new@.len() implies exists|t: int| 0 <= t < discovered@.len() && discovered@[t]@ == (#[trigger] new@[k])@ by {
                    if k < before.len() {
                        assert(new@[k] == before[k]);
                    } else {
                        assert(discovered@[i as int]@ == new@[k]@);
                    }
                }
            }
        } else {
            proof {
                assert(bundle_map(bundles@).dom().contains(x));
                assert(m1.dom().contains(x) || id_set(discovered@.subrange(0, i as int)).contains(x));
                assert(id_set(new@) =~= id_set(discovered@.subrange(0, i + 1)).difference(m.dom()));
            }
        }
        let c = d.copy();
        insert_bundle(bundles, c);
        i = i + 1;
        proof {
            assert(bundle_map(bundles@).dom() =~= m1.dom().union(id_set(discovered@.subrange(0, i as int))));
        }
    }
    proof {
        assert(discovered@.subrange(0, i as int) =~= discovered@);
    }
    (new, gone)
}

/// Whether some record of `s` has the view `v`.
pub open spec fn view_among(s: Seq<StoredBundle>, v: StoredView) -> bool {
    exists|j: int| 0 <= j < s.len() && s[j]@ == v
}

/// Copies of the meta bundles among `new`, in order.
fn meta_copies(new: &Vec<StoredBundle>) -> (r: Vec<StoredBundle>)
    ensures
        forall|k: int| 0 <= k < r@.len() ==> (#[trigger] r@[k]).info.mode == BundleMode::Meta,
        forall|k: int| 0 <= k < new@.len() && (#[trigger] new@[k]).info.mode == BundleMode::Meta
            ==> exists|j: int| 0 <= j < r@.len() && r@[j]@ == new@[k]@,
        forall|k: int| 0 <= k < r@.len() ==> view_among(new@, (#[trigger] r@[k])@),
{
    let mut to_copy: Vec<StoredBundle> = Vec::new();
    let mut i: usize = 0;
    while i < new.len()
        invariant
            0 <= i <= new@.len(),
            forall|k: int| 0 <= k < to_copy@.len() ==> (#[trigger] to_copy@[k]).info.mode == BundleMode::Meta,
            forall|k: int| 0 <= k < i && (#[trigger] new@[k]).info.mode == BundleMode::Meta
                ==> exists|j: int| 0 <= j < to_copy@.len() && to_copy@[j]@ == new@[k]@,
            forall|k: int| 0 <= k < to_copy@.len() ==> view_among(new@, (#[trigger] to_copy@[k])@),
        decreases new@.len() - i,
    {
        if new[i].info.mode == BundleMode::Meta {
            let ghost before = to_copy@;
            to_copy.push(new[i].copy());
            proof {
                assert(to_copy@[to_copy@.len() - 1]@ == new@[i as int]@);
                assert forall|k: int| 0 <= k < i && (#[trigger] new@[k]).info.mode == BundleMode::Meta
                    implies exists|j: int| 0 <= j < to_copy@.len() && to_copy@[j]@ == new@[k]@ by {
                    let j = choose|j: int| 0 <= j < before.len() && before[j]@ == new@[k]@;
                    assert(to_copy@[j] == before[j]);
                }
                assert forall|k: int| 0 <= k < to_copy@.len() implies exists|j: int| 0 <= j < new@.len() && (#[trigger] to_copy@[k])@ == new@[j]@ by {
                    if k < before.len() {
                            assert(to_copy@[k] == before[k]);
                        }
                    }
                }
            }
            i = i + 1;
        }
    to_copy
}

proof fn lemma_insert_all(m: Map<u128, StoredView>, d: Seq<StoredBundle>, id: u128)
    ensures
        insert_all(m, d).dom().contains(id) <==> (m.dom().contains(id) || has_id(d, id)),
        has_id(d, id) ==> exists|k: int| 0 <= k < d.len() && d[k].info.id == id && d[k]@ == insert_all(m, d)[id],
        !has_id(d, id) ==> insert_all(m, d)[id] == m[id],
    decreases d.len(),
{
    if d.len() > 0 {
        let t = d.drop_last();
        lemma_insert_all(m, t, id);
        if has_id(t, id) {
            let k = choose|k: int| 0 <= k < t.len() && t[k].info.id == id;
            assert(d[k] == t[k]);
        }
        if has_id(d, id) && !has_id(t, id) {
            let k = choose|k: int| 0 <= k < d.len() && d[k].info.id == id;
            if k < t.len() {
                assert(t[k] == d[k]);
            }
            assert(d[d.len() - 1].info.id == id);
        }
        if !has_id(d, id) {
            assert(!has_id(t, id)) by {
                if has_id(t, id) {
                    let k = choose|k: int| 0 <= k < t.len() && t[k].info.id == id;
                    assert(d[k] == t[k]);
                }
            }
        }
        if has_id(t, id) && d.last().info.id != id {
            let k = choose|k: int| 0 <= k < t.len() && t[k].info.id == id && t[k]@ == insert_all(m, t)[id];
            assert(d[k] == t[k]);
        }
        if has_id(t, id) && d.last().info.id == id {
            assert(d[d.len() - 1].info.id == id);
        }
    }
}

/// Whether some record of the map lives at path `p`.
pub open spec fn map_path_known(m: Map<u128, StoredView>, p: Seq<u8>) -> bool {
    exists|id: u128| #[trigger] m.dom().contains(id) && m[id].path == p
}

/// Whether every record of `d` was read from a listed file whose contents
/// `load` gives.
pub open spec fn read_from_listed(d: Seq<StoredBundle>, found: Seq<Vec<u8>>, load: Map<Seq<u8>, StoredView>) -> bool {
    forall|k: int| 0 <= k < d.len() ==> path_listed(found, (#[trigger] d[k])@.path)
        && load.dom().contains(d[k]@.path) && load[d[k]@.path] == d[k]@
}

/// Reconciling twice with no change on disk finds nothing the second time:
/// no record is gone and none is new. `load` gives what each listed file
/// holds; each run loads the listed files that its map does not know, the
/// first run all of them. Excluded: a stale listing-cache record (its file
/// is listed but holds another bundle) that a loaded record relocates, since
/// the path it frees then holds a bundle the map has never seen.
pub proof fn lemma_reconcile_idempotent(
    m: Map<u128, StoredView>,
    found: Seq<Vec<u8>>,
    load: Map<Seq<u8>, StoredView>,
    d1: Seq<StoredBundle>,
    d2: Seq<StoredBundle>,
)
    requires
        forall|id: u128| #[trigger] m.dom().contains(id) && path_listed(found, m[id].path) && has_id(d1, id)
            ==> load.dom().contains(m[id].path) && load[m[id].path].info.id == id,
        read_from_listed(d1, found, load),
        read_from_listed(d2, found, load),
        forall|k: int| 0 <= k < d2.len() ==> !map_path_known(reconciled(m, found, d1), (#[trigger] d2[k])@.path),
        forall|i: int| 0 <= i < found.len() && !map_path_known(m, (#[trigger] found[i])@)
            ==> exists|k: int| 0 <= k < d1.len() && d1[k]@.path == found[i]@,
    ensures
        gone_ids(reconciled(m, found, d1), found, d2) == Set::<u128>::empty(),
        id_set(d2).difference(reconciled(m, found, d1).dom()) == Set::<u128>::empty(),
{
    let g1 = gone_ids(m, found, d1);
    let m0 = m.remove_keys(g1);
    let m1 = reconciled(m, found, d1);
    assert forall|id: u128| !gone_ids(m1, found, d2).contains(id) by {
        lemma_insert_all(m0, d1, id);
        if m1.dom().contains(id) {
            if has_id(d1, id) {
                let k = choose|k: int| 0 <= k < d1.len() && d1[k].info.id == id && d1[k]@ == insert_all(m0, d1)[id];
                assert(path_listed(found, d1[k]@.path));
            } else {
                assert(m0.dom().contains(id));
                assert(!g1.contains(id));
            }
        }
    }
    assert(gone_ids(m1, found, d2) =~= Set::<u128>::empty());
    assert forall|x: u128| !id_set(d2).difference(m1.dom()).contains(x) by {
        lemma_insert_all(m0, d1, x);
        if has_id(d2, x) {
            let k = choose|k: int| 0 <= k < d2.len() && d2[k].info.id == x;
            let p = d2[k]@.path;
            assert(path_listed(found, p));
            let i = choose|i: int| 0 <= i < found.len() && found[i]@ == p;
            if map_path_known(m, p) {
                let z = choose|z: u128| #[trigger] m.dom().contains(z) && m[z].path == p;
                assert(!g1.contains(z));
                lemma_insert_all(m0, d1, z);
                if !has_id(d1, z) {
                    assert(m1.dom().contains(z) && m1[z].path == p);
                    assert(map_path_known(m1, p));
                }
                assert(load[p].info.id == z);
                assert(x == z);
                assert(!g1.contains(z));
                assert(m0.dom().contains(z));
            } else {
                assert(!map_path_known(m, found[i]@));
                let j = choose|j: int| 0 <= j < d1.len() && d1[j]@.path == found[i]@;
                assert(d1[j]@ == load[p]);
                assert(d1[j].info.id == x);
                assert(has_id(d1, x));
            }
        }
    }
    assert(id_set(d2).difference(m1.dom()) =~= Set::<u128>::empty());
}

/// The two bundle directories.
#[derive(Clone, Copy, Debug, PartialEq, Eq, Structural)]
pub enum BundleSide {
    Local,
    Remote,
}

/// The bundle database: the authoritative remote bundles, the local mirror of
/// the meta bundles, and a read cache of decoded bundle contents.
pub struct BundleDb {
    local_bundles: Vec<StoredBundle>,
    remote_bundles: Vec<StoredBundle>,
    bundle_cache: ChunkCache,
}

impl BundleDb {
    /// The local mirror: meta bundles copied into the local directory.
    pub closed spec fn local_map(&self) -> Map<u128, StoredView> {
        bundle_map(self.local_bundles@)
    }

    /// The authoritative remote bundles.
    pub closed spec fn remote_map(&self) -> Map<u128, StoredView> {
        bundle_map(self.remote_bundles@)
    }

    /// The map of one side.
    pub open spec fn side_map(&self, side: BundleSide) -> Map<u128, StoredView> {
        match side {
            BundleSide::Local => self.local_map(),
            BundleSide::Remote => self.remote_map(),
        }
    }

    /// The read cache's entries, from the least to the most recently used.
    pub closed spec fn cache_entries(&self) -> Seq<(u128, Seq<usize>, Seq<u8>)> {
        self.bundle_cache@
    }

    /// Whether the read cache holds the contents of bundle `id`.
    pub open spec fn cached(&self, id: u128) -> bool {
        holds_id(self.cache_entries(), id)
    }

    /// The chunk sizes and the contents that the read cache holds for bundle `id`.
    pub open spec fn cached_contents(&self, id: u128) -> (Seq<usize>, Seq<u8>) {
        (entry_of(self.cache_entries(), id).1, entry_of(self.cache_entries(), id).2)
    }

    /// The database's own invariant.
    pub closed spec fn wf(&self) -> bool {
        &&& unique_ids(self.local_bundles@)
        &&& unique_ids(self.remote_bundles@)
        &&& self.bundle_cache.wf()
    }

    /// Every local record is a meta bundle that the remote map also holds.
    pub open spec fn mirror_consistent(&self) -> bool {
        forall|id: u128| #[trigger] self.local_map().dom().contains(id) ==> {
            &&& self.local_map()[id].info.mode == BundleMode::Meta
            &&& self.remote_map().dom().contains(id)
        }
    }

    /// Whether a chunk read of bundle `id` can find the bundle.
    pub open spec fn knows(&self, id: u128) -> bool {
        self.cached(id) || self.local_map().dom().contains(id) || self.remote_map().dom().contains(id)
    }

    /// An empty database.
    pub fn new() -> (r: BundleDb)
        ensures
            r.wf(),
            r.local_map() == Map::<u128, StoredView>::empty(),
            r.remote_map() == Map::<u128, StoredView>::empty(),
            forall|id: u128| !r.cached(id),
            r.mirror_consistent(),
    {
        let r = BundleDb { local_bundles: Vec::new(), remote_bundles: Vec::new(), bundle_cache: ChunkCache::new(CACHE_CAPACITY) };
        assert(r.local_map() =~= Map::<u128, StoredView>::empty());
        assert(r.remote_map() =~= Map::<u128, StoredView>::empty());
        r
    }

    /// Replaces the map of one side with the records of a listing cache;
    /// a later record replaces an earlier one with the same id.
    pub fn load_listing(&mut self, side: BundleSide, list: Vec<StoredBundle>)
        requires
            old(self).wf(),
        ensures
            final(self).wf(),
            side == BundleSide::Local ==> final(self).remote_map() == old(self).remote_map(),
            side == BundleSide::Remote ==> final(self).local_map() == old(self).local_map(),
            final(self).side_map(side) == insert_all(Map::<u128, StoredView>::empty(), list@),
            forall|id: u128| final(self).cached(id) == old(self).cached(id),
    {
        let mut v: Vec<StoredBundle> = Vec::new();
        proof {
            assert(bundle_map(v@) =~= Map::<u128, StoredView>::empty());
            assert(list@.subrange(0, 0) =~= Seq::<StoredBundle>::empty());
        }
        let mut i: usize = 0;
        while i < list.len()
            invariant
                unique_ids(v@),
                0 <= i <= list@.len(),
                bundle_map(v@) == insert_all(Map::<u128, StoredView>::empty(), list@.subrange(0, i as int)),
            decreases list@.len() - i,
        {
            proof {
                lemma_insert_all_step(Map::<u128, StoredView>::empty(), list@, i as int);
            }
            let b = list[i].copy();
            insert_bundle(&mut v, b);
            i = i + 1;
        }
        proof {
            assert(list@.subrange(0, i as int) =~= list@);
        }
        match side {
            BundleSide::Local => {
                self.local_bundles = v;
            },
            BundleSide::Remote => {
                self.remote_bundles = v;
            },
        }
    }

    /// Copies of the records of one side, for its listing cache.
    pub fn listing(&self, side: BundleSide) -> (r: Vec<StoredBundle>)
        requires
            self.wf(),
        ensures
            unique_ids(r@),
            bundle_map(r@) == self.side_map(side),
    {
        let v = match side {
            BundleSide::Local => &self.local_bundles,
            BundleSide::Remote => &self.remote_bundles,
        };
        let r = copy_all(v);
        proof {
            lemma_copies_map(v@, r@);
        }
        r
    }

    /// The listed paths whose bundles one side does not know yet.
    pub fn unknown_paths(&self, side: BundleSide, found: &Vec<Vec<u8>>) -> (r: Vec<Vec<u8>>)
        requires
            self.wf(),
        ensures
            forall|i: int| 0 <= i < r@.len() ==> path_listed(found@, (#[trigger] r@[i])@),
            forall|i: int, id: u128| 0 <= i < r@.len() && #[trigger] self.side_map(side).dom().contains(id)
                ==> self.side_map(side)[id].path != (#[trigger] r@[i])@,
            forall|i: int| 0 <= i < found@.len() && !map_path_known(self.side_map(side), (#[trigger] found@[i])@)
                ==> exists|j: int| 0 <= j < r@.len() && r@[j]@ == found@[i]@,
    {
        let v = match side {
            BundleSide::Local => &self.local_bundles,
            BundleSide::Remote => &self.remote_bundles,
        };
        let r = unknown_paths(found, v);
        proof {
            assert forall|i: int, id: u128| 0 <= i < r@.len() && #[trigger] bundle_map(v@).dom().contains(id)
                implies bundle_map(v@)[id].path != (#[trigger] r@[i])@ by {
                let k = choose|k: int| 0 <= k < v@.len() && v@[k].info.id == id;
                assert(v@[k].path@ != r@[i]@);
            }
            assert forall|i: int| 0 <= i < found@.len() && !map_path_known(bundle_map(v@), (#[trigger] found@[i])@)
                implies !path_known(v@, found@[i]@) by {
                if path_known(v@, found@[i]@) {
                    let k = choose|k: int| 0 <= k < v@.len() && v@[k].path@ == found@[i]@;
                    lemma_map_at(v@, k);
                    assert(bundle_map(v@).dom().contains(v@[k].info.id));
                }
            }
        }
        r
    }

    /// Reconciles one side with the files listed under its directory (see
    /// `load_bundles`). Returns the new and the gone records.
    pub fn reconcile(&mut self, side: BundleSide, found: &Vec<Vec<u8>>, discovered: Vec<StoredBundle>) -> (r: (
        Vec<StoredBundle>,
        Vec<StoredBundle>,
    ))
        requires
            old(self).wf(),
        ensures
            final(self).wf(),
            final(self).side_map(side) == reconciled(old(self).side_map(side), found@, discovered@),
            side == BundleSide::Local ==> final(self).remote_map() == old(self).remote_map(),
            side == BundleSide::Remote ==> final(self).local_map() == old(self).local_map(),
            id_set(r.0@) == id_set(discovered@).difference(old(self).side_map(side).dom()),
            unique_ids(r.1@),
            bundle_map(r.1@) == old(self).side_map(side).restrict(gone_ids(old(self).side_map(side), found@, discovered@)),
            forall|id: u128| final(self).cached(id) == old(self).cached(id),
    {
        match side {
            BundleSide::Local => load_bundles(found, &mut self.local_bundles, discovered),
            BundleSide::Remote => load_bundles(found, &mut self.remote_bundles, discovered),
        }
    }

    /// Applies a reconciliation of the remote side to the local mirror: returns
    /// copies of the new meta bundles, which the caller copies into the local
    /// directory and hands to `add_local_copy`, and takes out of the local map
    /// the mirrors of the gone bundles, returning them so that their files go too.
    pub fn update_cache(&mut self, new: &Vec<StoredBundle>, gone: &Vec<StoredBundle>) -> (r: (
        Vec<StoredBundle>,
        Vec<StoredBundle>,
    ))
        requires
            old(self).wf(),
        ensures
            final(self).wf(),
            final(self).remote_map() == old(self).remote_map(),
            final(self).local_map() == old(self).local_map().remove_keys(id_set(gone@)),
            forall|k: int| 0 <= k < r.0@.len() ==> (#[trigger] r.0@[k]).info.mode == BundleMode::Meta,
            forall|k: int| 0 <= k < new@.len() && (#[trigger] new@[k]).info.mode == BundleMode::Meta
                ==> exists|j: int| 0 <= j < r.0@.len() && r.0@[j]@ == new@[k]@,
            forall|k: int| 0 <= k < r.0@.len() ==> view_among(new@, (#[trigger] r.0@[k])@),
            forall|k: int| 0 <= k < r.1@.len() ==> old(self).local_map().dom().contains((#[trigger] r.1@[k]).info.id)
                && old(self).local_map()[r.1@[k].info.id] == r.1@[k]@ && has_id(gone@, r.1@[k].info.id),
            forall|k: int| 0 <= k < gone@.len() && old(self).local_map().dom().contains((#[trigger] gone@[k]).info.id)
                ==> has_id(r.1@, gone@[k].info.id),
            forall|id: u128| final(self).cached(id) == old(self).cached(id),
            old(self).mirror_consistent() ==> final(self).mirror_consistent(),
    {
        let to_copy = meta_copies(new);
        let mut removed: Vec<StoredBundle> = Vec::new();
        let mut j: usize = 0;
        proof {
            assert(id_set(gone@.subrange(0, 0)) =~= Set::<u128>::empty());
            assert(self.local_map().remove_keys(Set::<u128>::empty()) =~= self.local_map());
        }
        while j < gone.len()
            invariant
                self.wf(),
                0 <= j <= gone@.len(),
                self.remote_bundles == old(self).remote_bundles,
                self.bundle_cache == old(self).bundle_cache,
                self.local_map() == old(self).local_map().remove_keys(id_set(gone@.subrange(0, j as int))),
                forall|k: int| 0 <= k < removed@.len() ==> old(self).local_map().dom().contains((#[trigger] removed@[k]).info.id)
                    && old(self).local_map()[removed@[k].info.id] == removed@[k]@ && has_id(gone@, removed@[k].info.id),
                forall|k: int| 0 <= k < j && old(self).local_map().dom().contains((#[trigger] gone@[k]).info.id)
                    ==> has_id(removed@, gone@[k].info.id),
            decreases gone@.len() - j,
        {
            let id = gone[j].info.id;
            let ghost before = removed@;
            let ghost lm = self.local_map();
            match remove_bundle(&mut self.local_bundles, id) {
                Some(b) => {
                    proof {
                        assert(has_id(gone@, id));
                    }
                    removed.push(b);
                    proof {
                        assert forall|k: int| 0 <= k < removed@.len() implies old(self).local_map().dom().contains((#[trigger] removed@[k]).info.id)
                            && old(self).local_map()[removed@[k].info.id] == removed@[k]@ && has_id(gone@, removed@[k].info.id) by {
                            if k < before.len() {
                                assert(removed@[k] == before[k]);
                            }
                        }
                    }
                },
                None => {},
            }
            proof {
                let t = gone@.subrange(0, j + 1);
                assert forall|x: u128| has_id(t, x) <==> (has_id(gone@.subrange(0, j as int), x) || x == id) by {
                    if has_id(t, x) {
                        let k = choose|k: int| 0 <= k < t.len() && t[k].info.id == x;
                        if k < j {
                            assert(gone@.subrange(0, j as int)[k] == t[k]);
                        }
                    }
                    if has_id(gone@.subrange(0, j as int), x) {
                        let k = choose|k: int| 0 <= k < j && gone@.subrange(0, j as int)[k].info.id == x;
                        assert(t[k] == gone@.subrange(0, j as int)[k]);
                    }
                    if x == id {
                        assert(t[j as int] == gone@[j as int]);
                    }
                }
                assert(id_set(t) =~= id_set(gone@.subrange(0, j as int)).insert(id));
                assert(self.local_map() =~= old(self).local_map().remove_keys(id_set(t)));
                assert forall|k: int| 0 <= k < j + 1 && old(self).local_map().dom().contains((#[trigger] gone@[k]).info.id)
                    implies has_id(removed@, gone@[k].info.id) by {
                    let x = gone@[k].info.id;
                    if k < j {
                        let w = choose|w: int| 0 <= w < before.len() && before[w].info.id == x;
                        assert(removed@[w] == before[w]);
                    } else if lm.dom().contains(id) {
                        assert(removed@[removed@.len() - 1].info.id == id);
                    } else {
                        assert(id_set(gone@.subrange(0, j as int)).contains(id));
                        let k2 = choose|k2: int| 0 <= k2 < j && gone@.subrange(0, j as int)[k2].info.id == id;
                        assert(gone@[k2] == gone@.subrange(0, j as int)[k2]);
                        assert(has_id(before, id));
                        let w = choose|w: int| 0 <= w < before.len() && before[w].info.id == id;
                        assert(removed@[w] == before[w]);
                    }
                }
            }
            j = j + 1;
        }
        proof {
            assert(gone@.subrange(0, j as int) =~= gone@);
        }
        (to_copy, removed)
    }

    /// Records the local copy of a meta bundle that the remote map holds; any
    /// other record is refused. Returns whether it was recorded.
    pub fn add_local_copy(&mut self, copy: StoredBundle) -> (r: bool)
        requires
            old(self).wf(),
        ensures
            final(self).wf(),
            r == (copy.info.mode == BundleMode::Meta && old(self).remote_map().dom().contains(copy.info.id)),
            r ==> final(self).local_map() == old(self).local_map().insert(copy.info.id, copy@),
            !r ==> final(self).local_map() == old(self).local_map(),
            final(self).remote_map() == old(self).remote_map(),
            forall|id: u128| final(self).cached(id) == old(self).cached(id),
            old(self).mirror_consistent() ==> final(self).mirror_consistent(),
    {
        if copy.info.mode == BundleMode::Meta && find_bundle(&self.remote_bundles, copy.info.id).is_some() {
            insert_bundle(&mut self.local_bundles, copy);
            true
        } else {
            false
        }
    }

    /// Records a sealed bundle that has been moved into the remote directory,
    /// and, for a meta bundle, its copy in the local directory, which a meta
    /// bundle must come with and a data bundle must not. Returns the descriptor.
    pub fn add_bundle(&mut self, bundle: StoredBundle, local_copy: Option<StoredBundle>) -> (r: BundleInfo)
        requires
            old(self).wf(),
            local_copy is Some <==> bundle.info.mode == BundleMode::Meta,
            local_copy is Some ==> local_copy->Some_0.info@ == bundle.info@ && local_copy->Some_0.info.id == bundle.info.id,
        ensures
            final(self).wf(),
            r@ == bundle.info@,
            final(self).remote_map() == old(self).remote_map().insert(bundle.info.id, bundle@),
            bundle.info.mode == BundleMode::Meta ==> final(self).local_map() == old(self).local_map().insert(
                bundle.info.id,
                local_copy->Some_0@,
            ),
            bundle.info.mode == BundleMode::Data ==> final(self).local_map() == old(self).local_map(),
            forall|id: u128| final(self).cached(id) == old(self).cached(id),
            old(self).mirror_consistent() ==> final(self).mirror_consistent(),
    {
        let info = bundle.info.copy();
        let id = bundle.info.id;
        insert_bundle(&mut self.remote_bundles, bundle);
        if info.mode == BundleMode::Meta {
            match local_copy {
                Some(c) => insert_bundle(&mut self.local_bundles, c),
                None => {},
            }
        }
        info
    }

    /// The record of bundle `id`: the local mirror when there is one, else the
    /// remote record.
    pub fn get_stored_bundle(&self, id: u128) -> (r: Result<&StoredBundle, BundleDbError>)
        requires
            self.wf(),
        ensures
            r is Ok <==> (self.local_map().dom().contains(id) || self.remote_map().dom().contains(id)),
            r is Ok && self.local_map().dom().contains(id) ==> r->Ok_0@ == self.local_map()[id],
            r is Ok && !self.local_map().dom().contains(id) ==> r->Ok_0@ == self.remote_map()[id],
            r is Ok ==> r->Ok_0.info.id == id,
            r is Err ==> r == Err::<&StoredBundle, BundleDbError>(BundleDbError::NoSuchBundle(id)),
    {
        match find_bundle(&self.local_bundles, id) {
            Some(i) => {
                proof {
                    lemma_map_at(self.local_bundles@, i as int);
                }
                Ok(&self.local_bundles[i])
            },
            None => match find_bundle(&self.remote_bundles, id) {
                Some(i) => {
                    proof {
                        lemma_map_at(self.remote_bundles@, i as int);
                    }
                    Ok(&self.remote_bundles[i])
                },
                None => Err(BundleDbError::NoSuchBundle(id)),
            },
        }
    }

    /// The record of bundle `id`, if the database knows it.
    pub fn get_bundle_info(&self, id: u128) -> (r: Option<&StoredBundle>)
        requires
            self.wf(),
        ensures
            r is Some <==> (self.local_map().dom().contains(id) || self.remote_map().dom().contains(id)),
            r is Some && self.local_map().dom().contains(id) ==> r->Some_0@ == self.local_map()[id],
            r is Some && !self.local_map().dom().contains(id) ==> r->Some_0@ == self.remote_map()[id],
    {
        match self.get_stored_bundle(id) {
            Ok(b) => Some(b),
            Err(_) => None,
        }
    }

    /// Copies of the descriptors of all remote bundles.
    pub fn list_bundles(&self) -> (r: Vec<BundleInfo>)
        requires
            self.wf(),
        ensures
            forall|k: int| 0 <= k < r@.len() ==> self.remote_map().dom().contains((#[trigger] r@[k]).id)
                && self.remote_map()[r@[k].id].info == r@[k]@,
            forall|id: u128| #[trigger] self.remote_map().dom().contains(id)
                ==> exists|k: int| 0 <= k < r@.len() && r@[k].id == id,
            r@.len() == self.remote_map().dom().len(),
    {
        let mut r: Vec<BundleInfo> = Vec::new();
        let mut i: usize = 0;
        let v = &self.remote_bundles;
        while i < v.len()
            invariant
                unique_ids(v@),
                0 <= i <= v@.len(),
                r@.len() == i,
                forall|k: int| 0 <= k < i ==> (#[trigger] r@[k])@ == v@[k].info@ && r@[k].id == v@[k].info.id,
            decreases v@.len() - i,
        {
            r.push(v[i].info.copy());
            i = i + 1;
        }
        proof {
            assert forall|k: int| 0 <= k < r@.len() implies self.remote_map().dom().contains((#[trigger] r@[k]).id)
                && self.remote_map()[r@[k].id].info == r@[k]@ by {
                lemma_map_at(v@, k);
            }
            assert forall|id: u128| #[trigger] self.remote_map().dom().contains(id)
                implies exists|k: int| 0 <= k < r@.len() && r@[k].id == id by {
                let k = choose|k: int| 0 <= k < v@.len() && v@[k].info.id == id;
                assert(r@[k].id == id);
            }
            lemma_dom_len(v@);
        }
        r
    }

    /// Takes the local mirror of bundle `id` out of the map; the caller
    /// removes the returned record's file. Nothing happens for an unknown id.
    pub fn delete_local_bundle(&mut self, id: u128) -> (r: Option<StoredBundle>)
        requires
            old(self).wf(),
        ensures
            final(self).wf(),
            final(self).local_map() == old(self).local_map().remove(id),
            final(self).remote_map() == old(self).remote_map(),
            r is Some <==> old(self).local_map().dom().contains(id),
            r is Some ==> r->Some_0@ == old(self).local_map()[id],
            forall|x: u128| final(self).cached(x) == old(self).cached(x),
            old(self).mirror_consistent() ==> final(self).mirror_consistent(),
    {
        remove_bundle(&mut self.local_bundles, id)
    }

    /// Deletes bundle `id`: its local mirror, then its remote record, and its
    /// cached contents. Fails with `NoSuchBundle` when the remote map lacks
    /// the id (the local mirror and the cache entry are dropped all the same).
    /// Returns the records whose files the caller removes.
    pub fn delete_bundle(&mut self, id: u128) -> (r: Result<(Option<StoredBundle>, StoredBundle), BundleDbError>)
        requires
            old(self).wf(),
        ensures
            final(self).wf(),
            deleted(*old(self), *final(self), id),
            r is Err <==> !old(self).remote_map().dom().contains(id),
            r is Err ==> r == Err::<(Option<StoredBundle>, StoredBundle), BundleDbError>(BundleDbError::NoSuchBundle(id)),
            r is Ok ==> r->Ok_0.1@ == old(self).remote_map()[id],
            r is Ok ==> (r->Ok_0.0 is Some <==> old(self).local_map().dom().contains(id)),
            r is Ok && r->Ok_0.0 is Some ==> r->Ok_0.0->Some_0@ == old(self).local_map()[id],
            old(self).mirror_consistent() ==> final(self).mirror_consistent(),
    {
        let local = remove_bundle(&mut self.local_bundles, id);
        let remote = remove_bundle(&mut self.remote_bundles, id);
        self.bundle_cache.evict(id);
        match remote {
            Some(b) => Ok((local, b)),
            None => Err(BundleDbError::NoSuchBundle(id)),
        }
    }

    /// Reads chunk `index` of bundle `id` from the read cache. `Ok(None)`: the
    /// bundle is known but not cached; the caller loads its record (see
    /// `get_stored_bundle`) and hands the contents to `load_chunk`.
    pub fn get_chunk(&mut self, id: u128, index: usize) -> (r: Result<Option<Vec<u8>>, BundleDbError>)
        requires
            old(self).wf(),
        ensures
            final(self).wf(),
            final(self).local_map() == old(self).local_map(),
            final(self).remote_map() == old(self).remote_map(),
            forall|x: u128| final(self).cached(x) == old(self).cached(x),
            !old(self).knows(id) <==> r == Err::<Option<Vec<u8>>, BundleDbError>(BundleDbError::NoSuchBundle(id)),
            r == Ok::<Option<Vec<u8>>, BundleDbError>(None) <==> (old(self).knows(id) && !old(self).cached(id)),
            old(self).cached(id) ==> (r is Ok && r->Ok_0 is Some) || r == Err::<Option<Vec<u8>>, BundleDbError>(BundleDbError::Reader),
            old(self).cached(id) ==> match chunk_of(old(self).cached_contents(id).0, old(self).cached_contents(id).1, index as int) {
                Some(c) => r is Ok && r->Ok_0 is Some && r->Ok_0->Some_0@ == c,
                None => r == Err::<Option<Vec<u8>>, BundleDbError>(BundleDbError::Reader),
            },
    {
        let ghost old_cache = self.bundle_cache@;
        match self.bundle_cache.get_chunk(id, index) {
            Some(Some(c)) => {
                proof {
                    lemma_same_ids(old_cache, self.bundle_cache@);
                }
                Ok(Some(c))
            },
            Some(None) => {
                proof {
                    lemma_same_ids(old_cache, self.bundle_cache@);
                }
                Err(BundleDbError::Reader)
            },
            None => {
                if find_bundle(&self.local_bundles, id).is_some() || find_bundle(&self.remote_bundles, id).is_some() {
                    Ok(None)
                } else {
                    Err(BundleDbError::NoSuchBundle(id))
                }
            },
        }
    }

    /// Cuts chunk `index` out of the decoded contents of bundle `id`, whose
    /// chunks have the sizes `chunk_sizes`, and keeps the contents in the read
    /// cache. Fails with `Reader` when there is no such chunk.
    pub fn load_chunk(&mut self, id: u128, chunk_sizes: Vec<usize>, data: Vec<u8>, index: usize) -> (r: Result<Vec<u8>, BundleDbError>)
        requires
            old(self).wf(),
        ensures
            final(self).wf(),
            final(self).local_map() == old(self).local_map(),
            final(self).remote_map() == old(self).remote_map(),
            match chunk_of(chunk_sizes@, data@, index as int) {
                Some(c) => r is Ok && r->Ok_0@ == c && final(self).cached(id)
                    && final(self).cached_contents(id) == (chunk_sizes@, data@),
                None => r == Err::<Vec<u8>, BundleDbError>(BundleDbError::Reader) && *final(self) == *old(self),
            },
    {
        match extract_chunk(&chunk_sizes, &data, index) {
            Some(c) => {
                self.bundle_cache.put(CachedBundle { id, chunk_sizes, data });
                Ok(c)
            },
            None => Err(BundleDbError::Reader),
        }
    }

    /// The number of local records, for the placement of a new local file.
    pub fn local_count(&self) -> (r: usize)
        requires
            self.wf(),
        ensures
            r == self.local_map().dom().len(),
    {
        proof {
            lemma_dom_len(self.local_bundles@);
        }
        self.local_bundles.len()
    }

    /// The number of remote records, for the placement of a new remote file.
    pub fn remote_count(&self) -> (r: usize)
        requires
            self.wf(),
        ensures
            r == self.remote_map().dom().len(),
    {
        proof {
            lemma_dom_len(self.remote_bundles@);
        }
        self.remote_bundles.len()
    }
}

/// What `delete_bundle` leaves behind: neither map nor the cache knows `id`,
/// and every other record stays as it was.
pub open spec fn deleted(before: BundleDb, after: BundleDb, id: u128) -> bool {
    &&& after.local_map() == before.local_map().remove(id)
    &&& after.remote_map() == before.remote_map().remove(id)
    &&& !after.cached(id)
    &&& forall|x: u128| x != id ==> (after.cached(x) ==> before.cached(x))
}

proof fn lemma_same_ids(a: Seq<(u128, Seq<usize>, Seq<u8>)>, b: Seq<(u128, Seq<usize>, Seq<u8>)>)
    requires
        exists|i: int| 0 <= i < a.len() && b == a.remove(i).push(a[i]),
    ensures
        forall|x: u128| holds_id(a, x) == holds_id(b, x),
{
    let i = choose|i: int| 0 <= i < a.len() && b == a.remove(i).push(a[i]);
    assert forall|x: u128| holds_id(a, x) == holds_id(b, x) by {
        if holds_id(a, x) {
            let k = choose|k: int| 0 <= k < a.len() && a[k].0 == x;
            if k < i {
                assert(b[k] == a[k]);
            } else if k == i {
                assert(b[a.len() - 1] == a[i]);
            } else {
                assert(b[k - 1] == a[k]);
            }
        }
        if holds_id(b, x) {
            let k = choose|k: int| 0 <= k < b.len() && b[k].0 == x;
            if k < i {
                assert(b[k] == a[k]);
            } else if k == a.len() - 1 {
                assert(b[k] == a[i]);
            } else {
                assert(b[k] == a[k + 1]);
            }
        }
    }
}

proof fn lemma_dom_len(s: Seq<StoredBundle>)
    requires
        unique_ids(s),
    ensures
        bundle_map(s).dom().len() == s.len(),
        bundle_map(s).dom().finite(),
    decreases s.len(),
{
    if s.len() == 0 {
        assert(bundle_map(s).dom() =~= Set::<u128>::empty());
    } else {
        let t = s.drop_last();
        assert(t.push(s.last()) =~= s);
        assert(unique_ids(t)) by {
            assert forall|i: int, j: int|
                0 <= i < t.len() && 0 <= j < t.len() && #[trigger] t[i].info.id == #[trigger] t[j].info.id
                    implies i == j by {
                assert(s[i].info.id == s[j].info.id);
            }
        }
        assert(!has_id(t, s.last().info.id)) by {
            if has_id(t, s.last().info.id) {
                let k = choose|k: int| 0 <= k < t.len() && t[k].info.id == s.last().info.id;
                assert(s[k].info.id == s[s.len() - 1].info.id);
            }
        }
        lemma_dom_len(t);
        lemma_map_push(t, s.last());
    }
}

/// A chunk read after `delete_bundle(id)` cannot find the bundle: it fails
/// with `NoSuchBundle`, and never serves stale cached contents.
pub proof fn lemma_deleted_bundle_unreadable(before: BundleDb, after: BundleDb, id: u128)
    requires
        deleted(before, after, id),
    ensures
        !after.knows(id),
{
}

} // verus!
