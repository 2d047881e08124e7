use zvault::bundle_map::{BundleInfo, BundleMode, HashMethod, StoredBundle};
use zvault::chunk_cache::{extract_chunk, CachedBundle, ChunkCache};
use zvault::db::{load_bundles, unknown_paths, BundleDb, BundleDbError, BundleSide};

fn info(id: u128, mode: BundleMode) -> BundleInfo {
    BundleInfo {
        id,
        mode,
        hash_method: HashMethod::Blake2,
        encryption: None,
        chunk_count: 3,
        encoded_size: 6,
        raw_size: 6,
    }
}

fn stored(id: u128, mode: BundleMode, path: &str) -> StoredBundle {
    StoredBundle { info: info(id, mode), path: path.as_bytes().to_vec() }
}

fn paths(ps: &[&str]) -> Vec<Vec<u8>> {
    ps.iter().map(|p| p.as_bytes().to_vec()).collect()
}

#[test]
fn write_read_delete_scenario() {
    let mut db = BundleDb::new();
    let b = stored(7, BundleMode::Data, "remote/0/7.bundle");
    let added = db.add_bundle(b, None);
    assert_eq!(added.id, 7);
    assert_eq!(db.get_chunk(7, 1), Ok(None));
    let data = b"abbccc".to_vec();
    assert_eq!(db.load_chunk(7, vec![1, 2, 3], data, 1), Ok(b"bb".to_vec()));
    assert_eq!(db.get_chunk(7, 1), Ok(Some(b"bb".to_vec())));
    assert_eq!(db.get_chunk(7, 2), Ok(Some(b"ccc".to_vec())));
    assert_eq!(db.get_chunk(7, 0), Ok(Some(b"a".to_vec())));
    let (local, remote) = db.delete_bundle(7).unwrap();
    assert!(local.is_none());
    assert_eq!(remote.path, b"remote/0/7.bundle".to_vec());
    assert_eq!(db.get_chunk(7, 1), Err(BundleDbError::NoSuchBundle(7)));
}

#[test]
fn chunk_out_of_range_is_a_reader_error() {
    let mut db = BundleDb::new();
    db.add_bundle(stored(1, BundleMode::Data, "remote/1.bundle"), None);
    assert_eq!(db.load_chunk(1, vec![1, 2, 3], b"abbccc".to_vec(), 3), Err(BundleDbError::Reader));
    assert_eq!(db.load_chunk(1, vec![1, 2, 4], b"abbccc".to_vec(), 2), Err(BundleDbError::Reader));
    assert_eq!(db.get_chunk(1, 0), Ok(None));
}

#[test]
fn unknown_bundle_is_no_such_bundle() {
    let mut db = BundleDb::new();
    assert_eq!(db.get_chunk(99, 0), Err(BundleDbError::NoSuchBundle(99)));
    assert!(matches!(db.delete_bundle(99), Err(BundleDbError::NoSuchBundle(99))));
    assert!(db.get_bundle_info(99).is_none());
}

#[test]
fn meta_bundle_is_mirrored_locally() {
    let mut db = BundleDb::new();
    let b = stored(5, BundleMode::Meta, "remote/0/5.bundle");
    let copy = stored(5, BundleMode::Meta, "local/0/5.bundle");
    db.add_bundle(b, Some(copy));
    assert_eq!(db.local_count(), 1);
    assert_eq!(db.remote_count(), 1);
    let local = db.listing(BundleSide::Local);
    assert_eq!(local.len(), 1);
    assert_eq!(local[0].info.id, 5);
    assert!(local[0].path.starts_with(b"local/"));
    // The local mirror is preferred for reads.
    assert_eq!(db.get_bundle_info(5).unwrap().path, b"local/0/5.bundle".to_vec());
}

#[test]
fn data_bundle_copy_is_not_mirrored() {
    let mut db = BundleDb::new();
    db.add_bundle(stored(6, BundleMode::Data, "remote/6.bundle"), None);
    assert_eq!(db.local_count(), 0);
    assert!(!db.add_local_copy(stored(6, BundleMode::Data, "local/6.bundle")));
    assert!(!db.add_local_copy(stored(8, BundleMode::Meta, "local/8.bundle")));
    assert_eq!(db.local_count(), 0);
}

#[test]
fn local_mirror_stays_within_remote() {
    let mut db = BundleDb::new();
    db.add_bundle(stored(1, BundleMode::Meta, "remote/1.bundle"), Some(stored(1, BundleMode::Meta, "local/1.bundle")));
    db.add_bundle(stored(2, BundleMode::Data, "remote/2.bundle"), None);
    db.add_bundle(stored(3, BundleMode::Meta, "remote/3.bundle"), Some(stored(3, BundleMode::Meta, "local/3.bundle")));
    let (local, _) = db.delete_bundle(1).unwrap();
    assert!(local.is_some());
    let remote_ids: Vec<u128> = db.list_bundles().iter().map(|i| i.id).collect();
    for b in db.listing(BundleSide::Local) {
        assert_eq!(b.info.mode, BundleMode::Meta);
        assert!(remote_ids.contains(&b.info.id));
    }
    assert_eq!(db.local_count(), 1);
    assert_eq!(db.remote_count(), 2);
}

#[test]
fn reconciliation_reports_new_and_gone() {
    let mut map = Vec::new();
    let found = paths(&["remote/a", "remote/b"]);
    let unknown = unknown_paths(&found, &map);
    assert_eq!(unknown.len(), 2);
    let discovered = vec![stored(1, BundleMode::Data, "remote/a"), stored(2, BundleMode::Meta, "remote/b")];
    let (new, gone) = load_bundles(&found, &mut map, discovered);
    assert_eq!(new.len(), 2);
    assert!(gone.is_empty());
    assert_eq!(map.len(), 2);

    // One file is removed from the directory.
    let found = paths(&["remote/b"]);
    let unknown = unknown_paths(&found, &map);
    assert!(unknown.is_empty());
    let (new, gone) = load_bundles(&found, &mut map, vec![]);
    assert!(new.is_empty());
    assert_eq!(gone.len(), 1);
    assert_eq!(gone[0].info.id, 1);
    assert_eq!(map.len(), 1);
    assert_eq!(map[0].info.id, 2);
}

#[test]
fn reconciliation_twice_finds_nothing_new() {
    let mut map = vec![stored(9, BundleMode::Data, "remote/old")];
    let found = paths(&["remote/x", "remote/y"]);
    let unknown = unknown_paths(&found, &map);
    assert_eq!(unknown, paths(&["remote/x", "remote/y"]));
    let discovered = vec![stored(1, BundleMode::Data, "remote/x"), stored(2, BundleMode::Data, "remote/y")];
    let (new, gone) = load_bundles(&found, &mut map, discovered);
    assert_eq!(new.len(), 2);
    assert_eq!(gone.len(), 1);
    assert_eq!(gone[0].info.id, 9);
    let unknown = unknown_paths(&found, &map);
    assert!(unknown.is_empty());
    let (new, gone) = load_bundles(&found, &mut map, vec![]);
    assert!(new.is_empty());
    assert!(gone.is_empty());
}

#[test]
fn relocated_bundle_is_not_gone() {
    let mut map = vec![stored(4, BundleMode::Data, "remote/old/4")];
    let found = paths(&["remote/new/4"]);
    let discovered = vec![stored(4, BundleMode::Data, "remote/new/4")];
    let (new, gone) = load_bundles(&found, &mut map, discovered);
    assert!(new.is_empty());
    assert!(gone.is_empty());
    assert_eq!(map.len(), 1);
    assert_eq!(map[0].path, b"remote/new/4".to_vec());
}

#[test]
fn open_flow_mirrors_new_meta_and_drops_gone_local() {
    let mut db = BundleDb::new();
    db.load_listing(BundleSide::Local, vec![stored(3, BundleMode::Meta, "local/3")]);
    db.load_listing(BundleSide::Remote, vec![stored(3, BundleMode::Meta, "remote/3")]);
    let found = paths(&["remote/5"]);
    let unknown = db.unknown_paths(BundleSide::Remote, &found);
    assert_eq!(unknown, paths(&["remote/5"]));
    let (new, gone) = db.reconcile(BundleSide::Remote, &found, vec![stored(5, BundleMode::Meta, "remote/5")]);
    assert_eq!(new.len(), 1);
    assert_eq!(gone.len(), 1);
    let (to_copy, removed) = db.update_cache(&new, &gone);
    assert_eq!(to_copy.len(), 1);
    assert_eq!(to_copy[0].info.id, 5);
    assert_eq!(removed.len(), 1);
    assert_eq!(removed[0].path, b"local/3".to_vec());
    assert!(db.add_local_copy(stored(5, BundleMode::Meta, "local/5")));
    assert_eq!(db.local_count(), 1);
    assert_eq!(db.remote_count(), 1);
}

#[test]
fn listing_later_record_wins() {
    let mut db = BundleDb::new();
    db.load_listing(BundleSide::Remote, vec![stored(1, BundleMode::Data, "a"), stored(1, BundleMode::Data, "b")]);
    assert_eq!(db.remote_count(), 1);
    assert_eq!(db.get_bundle_info(1).unwrap().path, b"b".to_vec());
}

#[test]
fn delete_local_bundle_is_silent_when_absent() {
    let mut db = BundleDb::new();
    assert!(db.delete_local_bundle(3).is_none());
    db.add_bundle(stored(3, BundleMode::Meta, "remote/3"), Some(stored(3, BundleMode::Meta, "local/3")));
    assert_eq!(db.delete_local_bundle(3).unwrap().path, b"local/3".to_vec());
    assert_eq!(db.local_count(), 0);
    assert_eq!(db.get_bundle_info(3).unwrap().path, b"remote/3".to_vec());
}

#[test]
fn extract_chunk_slices_by_sizes() {
    let data = b"abbccc".to_vec();
    assert_eq!(extract_chunk(&vec![1, 2, 3], &data, 0), Some(b"a".to_vec()));
    assert_eq!(extract_chunk(&vec![1, 2, 3], &data, 2), Some(b"ccc".to_vec()));
    assert_eq!(extract_chunk(&vec![1, 2, 3], &data, 3), None);
    assert_eq!(extract_chunk(&vec![0, 6], &data, 0), Some(vec![]));
    assert_eq!(extract_chunk(&vec![7], &data, 0), None);
}

#[test]
fn cache_drops_least_recently_used() {
    let mut cache = ChunkCache::new(2);
    let entry = |id: u128| CachedBundle { id, chunk_sizes: vec![1], data: vec![id as u8] };
    cache.put(entry(1));
    cache.put(entry(2));
    assert_eq!(cache.get_chunk(1, 0), Some(Some(vec![1])));
    cache.put(entry(3));
    assert!(cache.contains(1));
    assert!(!cache.contains(2));
    assert!(cache.contains(3));
    cache.evict(3);
    assert!(!cache.contains(3));
    assert_eq!(cache.get_chunk(3, 0), None);
}

#[test]
fn cache_holds_five_bundles() {
    let mut db = BundleDb::new();
    for id in 0..6u128 {
        db.add_bundle(stored(id, BundleMode::Data, "r"), None);
        assert_eq!(db.load_chunk(id, vec![1], vec![id as u8], 0), Ok(vec![id as u8]));
    }
    assert_eq!(db.get_chunk(0, 0), Ok(None));
    for id in 1..6u128 {
        assert_eq!(db.get_chunk(id, 0), Ok(Some(vec![id as u8])));
    }
}
