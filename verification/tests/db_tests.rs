use ledger_core::db::{absorb_op, find_last_write, KvStore, KvStoreError, RamKvStore, RamMirrorKvStore, WriteOp};

fn put(k: &[u8], v: &[u8]) -> WriteOp {
    WriteOp::Put(k.to_vec(), v.to_vec())
}

fn remove(k: &[u8]) -> WriteOp {
    WriteOp::Remove(k.to_vec())
}

#[test]
fn ram_store_reads_what_was_written() {
    let mut store = RamKvStore::new();
    assert_eq!(store.get(b"a"), Ok(None));
    assert_eq!(store.update(&vec![put(b"a", b"1"), put(b"b", b"2")]), Ok(()));
    assert_eq!(store.get(b"a"), Ok(Some(b"1".to_vec())));
    assert_eq!(store.get(b"b"), Ok(Some(b"2".to_vec())));
    assert_eq!(store.get(b"c"), Ok(None));
}

#[test]
fn ram_store_later_write_wins() {
    let mut store = RamKvStore::new();
    store.update(&vec![put(b"a", b"1"), put(b"a", b"2"), remove(b"b"), put(b"b", b"3")]).unwrap();
    assert_eq!(store.get(b"a"), Ok(Some(b"2".to_vec())));
    assert_eq!(store.get(b"b"), Ok(Some(b"3".to_vec())));
    store.update(&vec![remove(b"a"), put(b"b", b"4"), remove(b"b")]).unwrap();
    assert_eq!(store.get(b"a"), Ok(None));
    assert_eq!(store.get(b"b"), Ok(None));
    store.update(&vec![put(b"a", b"5")]).unwrap();
    assert_eq!(store.get(b"a"), Ok(Some(b"5".to_vec())));
}

#[test]
fn rollback_of_restores_the_store() {
    let mut store = RamKvStore::new();
    store.update(&vec![put(b"a", b"1"), put(b"b", b"2")]).unwrap();
    let batch = vec![put(b"a", b"9"), remove(b"b"), put(b"c", b"3")];
    let inverse = store.rollback_of(&batch).unwrap();
    assert_eq!(inverse, vec![put(b"a", b"1"), put(b"b", b"2"), remove(b"c")]);
    store.update(&batch).unwrap();
    assert_eq!(store.get(b"a"), Ok(Some(b"9".to_vec())));
    assert_eq!(store.get(b"b"), Ok(None));
    assert_eq!(store.get(b"c"), Ok(Some(b"3".to_vec())));
    store.update(&inverse).unwrap();
    assert_eq!(store.get(b"a"), Ok(Some(b"1".to_vec())));
    assert_eq!(store.get(b"b"), Ok(Some(b"2".to_vec())));
    assert_eq!(store.get(b"c"), Ok(None));
}

#[test]
fn mirror_reads_through_and_buffers_writes() {
    let mut store = RamKvStore::new();
    store.update(&vec![put(b"a", b"1"), put(b"b", b"2")]).unwrap();
    let mut mirror = RamMirrorKvStore::new(&store);
    assert_eq!(mirror.get(b"a"), Ok(Some(b"1".to_vec())));
    mirror.update(&vec![put(b"a", b"7"), put(b"c", b"3")]).unwrap();
    assert_eq!(mirror.get(b"a"), Ok(Some(b"7".to_vec())));
    assert_eq!(mirror.get(b"b"), Ok(Some(b"2".to_vec())));
    assert_eq!(mirror.get(b"c"), Ok(Some(b"3".to_vec())));
    let ops = mirror.to_ops();
    assert_eq!(ops, vec![put(b"a", b"7"), put(b"c", b"3")]);
    // the store under the mirror was not touched
    assert_eq!(store.get(b"a"), Ok(Some(b"1".to_vec())));
    assert_eq!(store.get(b"c"), Ok(None));
    // and takes the buffered writes as one batch
    store.update(&ops).unwrap();
    assert_eq!(store.get(b"a"), Ok(Some(b"7".to_vec())));
    assert_eq!(store.get(b"c"), Ok(Some(b"3".to_vec())));
}

#[test]
fn mirror_remove_shadows_the_store() {
    let mut store = RamKvStore::new();
    store.update(&vec![put(b"a", b"1")]).unwrap();
    let mut mirror = RamMirrorKvStore::new(&store);
    mirror.update(&vec![remove(b"a")]).unwrap();
    assert_eq!(mirror.get(b"a"), Ok(None));
    assert_eq!(store.get(b"a"), Ok(Some(b"1".to_vec())));
    mirror.update(&vec![put(b"a", b"2")]).unwrap();
    assert_eq!(mirror.get(b"a"), Ok(Some(b"2".to_vec())));
    mirror.update(&vec![remove(b"a")]).unwrap();
    assert_eq!(mirror.to_ops(), vec![remove(b"a")]);
}

#[test]
fn mirror_keeps_one_write_for_each_key_in_first_touch_order() {
    let store = RamKvStore::new();
    let mut mirror = RamMirrorKvStore::new(&store);
    mirror.update(&vec![put(b"x", b"1"), put(b"y", b"1"), put(b"x", b"2")]).unwrap();
    mirror.update(&vec![put(b"z", b"1"), remove(b"y")]).unwrap();
    assert_eq!(mirror.to_ops(), vec![put(b"x", b"2"), remove(b"y"), put(b"z", b"1")]);
}

#[test]
fn mirror_over_a_mirror() {
    let mut store = RamKvStore::new();
    store.update(&vec![put(b"a", b"1")]).unwrap();
    let mut outer = RamMirrorKvStore::new(&store);
    outer.update(&vec![put(b"b", b"2")]).unwrap();
    {
        let mut inner = RamMirrorKvStore::new(&outer);
        inner.update(&vec![remove(b"a"), put(b"b", b"3")]).unwrap();
        assert_eq!(inner.get(b"a"), Ok(None));
        assert_eq!(inner.get(b"b"), Ok(Some(b"3".to_vec())));
        assert_eq!(inner.rollback_of(&vec![put(b"a", b"0"), put(b"c", b"0")]).unwrap(),
            vec![remove(b"a"), remove(b"c")]);
    }
    assert_eq!(outer.get(b"a"), Ok(Some(b"1".to_vec())));
    assert_eq!(outer.get(b"b"), Ok(Some(b"2".to_vec())));
}

#[test]
fn find_last_write_finds_the_last() {
    let ops = vec![put(b"a", b"1"), put(b"b", b"1"), remove(b"a")];
    assert_eq!(find_last_write(&ops, b"a"), Some(2));
    assert_eq!(find_last_write(&ops, b"b"), Some(1));
    assert_eq!(find_last_write(&ops, b"c"), None);
}

#[test]
fn absorb_replaces_or_appends() {
    let mut ops = vec![put(b"a", b"1"), put(b"b", b"1")];
    absorb_op(&mut ops, remove(b"a"));
    assert_eq!(ops, vec![remove(b"a"), put(b"b", b"1")]);
    absorb_op(&mut ops, put(b"c", b"1"));
    assert_eq!(ops, vec![remove(b"a"), put(b"b", b"1"), put(b"c", b"1")]);
}

#[test]
fn write_op_key_and_clone() {
    let op = put(b"k", b"v");
    assert_eq!(op.key(), &b"k".to_vec());
    assert_eq!(op.clone(), op);
    assert_eq!(remove(b"k").key(), &b"k".to_vec());
    assert_ne!(KvStoreError::Failure, KvStoreError::Corrupted);
}
