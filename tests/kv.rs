use rust_kv::store::{KvStore, KvsError, LogEffect, Result, COMPACTION_THRESHOLD};

fn fresh() -> KvStore {
    KvStore::open(Vec::new()).expect("an empty log opens")
}

fn reopen(store: &KvStore) -> Result<KvStore> {
    KvStore::open(store.segments().clone())
}

#[test]
fn remove_key() -> Result<()> {
    let mut store = fresh();
    store.set("key1".to_owned(), "value1".to_owned())?;
    assert!(store.remove("key1".to_owned()).is_ok());
    assert_eq!(store.get("key1".to_owned())?, None);
    Ok(())
}

#[test]
fn remove_non_existent_key() -> Result<()> {
    let mut store = fresh();
    assert!(store.remove("key1".to_owned()).is_err());
    Ok(())
}

#[test]
fn get_stored_value() -> Result<()> {
    let mut store = fresh();

    store.set("key1".to_owned(), "value1".to_owned())?;
    store.set("key2".to_owned(), "value2".to_owned())?;

    assert_eq!(store.get("key1".to_owned())?, Some("value1".to_owned()));
    assert_eq!(store.get("key2".to_owned())?, Some("value2".to_owned()));

    // Open from the same log again and check persistent data
    let mut store = reopen(&store)?;
    assert_eq!(store.get("key1".to_owned())?, Some("value1".to_owned()));
    assert_eq!(store.get("key2".to_owned())?, Some("value2".to_owned()));

    Ok(())
}

#[test]
fn overwrite_value() -> Result<()> {
    let mut store = fresh();

    store.set("key1".to_owned(), "value1".to_owned())?;
    assert_eq!(store.get("key1".to_owned())?, Some("value1".to_owned()));
    store.set("key1".to_owned(), "value2".to_owned())?;
    assert_eq!(store.get("key1".to_owned())?, Some("value2".to_owned()));

    // Open from the same log again and check persistent data
    let mut store = reopen(&store)?;
    assert_eq!(store.get("key1".to_owned())?, Some("value2".to_owned()));
    store.set("key1".to_owned(), "value3".to_owned())?;
    assert_eq!(store.get("key1".to_owned())?, Some("value3".to_owned()));

    Ok(())
}

#[test]
fn compaction() -> Result<()> {
    let mut store = fresh();

    let mut current_size = store.log_size();
    for iter in 0..10000 {
        for key_id in 0..10 {
            let key = format!("key{}", key_id);
            let value = format!("{}", iter);
            store.set(key, value)?;
        }

        let new_size = store.log_size();
        if new_size > current_size {
            current_size = new_size;
            continue;
        }
        // Compaction triggered

        // reopen and check content
        let mut store = reopen(&store)?;
        for key_id in 0..10 {
            let key = format!("key{}", key_id);
            assert_eq!(store.get(key)?, Some(format!("{}", iter)));
        }
        return Ok(());
    }

    panic!("No compaction detected");
}

#[test]
fn set_then_get_returns_value() -> Result<()> {
    let mut store = fresh();
    store.set("a".to_owned(), "1".to_owned())?;
    assert_eq!(store.get("a".to_owned())?, Some("1".to_owned()));
    Ok(())
}

#[test]
fn set_twice_then_reopen() -> Result<()> {
    let mut store = fresh();
    store.set("a".to_owned(), "1".to_owned())?;
    store.set("a".to_owned(), "2".to_owned())?;
    assert_eq!(store.get("a".to_owned())?, Some("2".to_owned()));
    let mut store = reopen(&store)?;
    assert_eq!(store.get("a".to_owned())?, Some("2".to_owned()));
    Ok(())
}

#[test]
fn remove_missing_names_the_key() {
    let mut store = fresh();
    match store.remove("missing".to_owned()) {
        Err(KvsError::NonExistentKey(k)) => assert_eq!(k, "missing"),
        other => panic!("unexpected result {:?}", other),
    }
}

#[test]
fn remove_then_get_is_none_after_reopen() -> Result<()> {
    let mut store = fresh();
    store.set("k".to_owned(), "v".to_owned())?;
    store.set("other".to_owned(), "w".to_owned())?;
    store.remove("k".to_owned())?;
    assert_eq!(store.get("k".to_owned())?, None);
    let mut store = reopen(&store)?;
    assert_eq!(store.get("k".to_owned())?, None);
    assert_eq!(store.get("other".to_owned())?, Some("w".to_owned()));
    assert!(store.remove("k".to_owned()).is_err());
    Ok(())
}

#[test]
fn same_value_twice_writes_nothing() -> Result<()> {
    let mut store = fresh();
    store.set("k".to_owned(), "v".to_owned())?;
    let size = store.log_size();
    let unc = store.uncompacted();
    store.set("k".to_owned(), "v".to_owned())?;
    assert_eq!(store.log_size(), size);
    assert_eq!(store.uncompacted(), unc);
    assert_eq!(unc, 0);
    Ok(())
}

#[test]
fn byte_accounting_of_overwrite_and_remove() -> Result<()> {
    let mut store = fresh();
    // A record of key "k" and value "v" takes 4 + 8 + 1 + 8 + 1 = 22 bytes.
    store.set("k".to_owned(), "v".to_owned())?;
    assert_eq!(store.log_size(), 22);
    assert_eq!(store.uncompacted(), 0);
    store.set("k".to_owned(), "w".to_owned())?;
    assert_eq!(store.uncompacted(), 22);
    // The tombstone of "k" takes 4 + 8 + 1 + 8 = 21 bytes; it and the live
    // record both become reclaimable.
    store.remove("k".to_owned())?;
    assert_eq!(store.uncompacted(), 22 + 22 + 21);
    assert_eq!(store.log_size(), 65);
    let mut store = reopen(&store)?;
    assert_eq!(store.uncompacted(), 65);
    Ok(())
}

#[test]
fn compaction_keeps_live_pairs_and_shrinks_log() -> Result<()> {
    let mut store = KvStore::open_with_threshold(Vec::new(), 100)?;
    for i in 0..20 {
        store.set(format!("key{}", i % 3), format!("value{}", i))?;
        assert!(store.uncompacted() <= 100);
    }
    store.set("gone".to_owned(), "x".to_owned())?;
    store.remove("gone".to_owned())?;
    let before = store.log_size();
    store.compact();
    assert!(store.log_size() <= before);
    assert_eq!(store.uncompacted(), 0);
    assert_eq!(store.segments().len(), 1);
    assert_eq!(store.get("key0".to_owned())?, Some("value18".to_owned()));
    assert_eq!(store.get("key1".to_owned())?, Some("value19".to_owned()));
    assert_eq!(store.get("key2".to_owned())?, Some("value17".to_owned()));
    assert_eq!(store.get("gone".to_owned())?, None);
    let mut store = reopen(&store)?;
    assert_eq!(store.get("key0".to_owned())?, Some("value18".to_owned()));
    assert_eq!(store.get("key2".to_owned())?, Some("value17".to_owned()));
    Ok(())
}

#[test]
fn default_threshold_is_one_mebibyte() {
    assert_eq!(COMPACTION_THRESHOLD, 1024 * 1024);
}

fn apply(disk: &mut Vec<Vec<u8>>, effects: Vec<LogEffect>) {
    for e in effects {
        match e {
            LogEffect::Append { segment, bytes } => {
                if segment == disk.len() {
                    disk.push(bytes);
                } else {
                    disk[segment].extend_from_slice(&bytes);
                }
            }
            LogEffect::Replace { bytes } => {
                *disk = vec![bytes];
            }
        }
    }
}

#[test]
fn effects_reproduce_the_log() -> Result<()> {
    let mut disk: Vec<Vec<u8>> = Vec::new();
    let mut store = KvStore::open_with_threshold(disk.clone(), 60)?;
    store.set("a".to_owned(), "1".to_owned())?;
    store.set("b".to_owned(), "2".to_owned())?;
    apply(&mut disk, store.take_effects());
    assert_eq!(&disk, store.segments());
    store.set("a".to_owned(), "3".to_owned())?;
    store.set("a".to_owned(), "4".to_owned())?;
    store.remove("b".to_owned())?;
    apply(&mut disk, store.take_effects());
    assert_eq!(&disk, store.segments());
    assert!(store.take_effects().is_empty());

    // A new session starts a new segment.
    let mut store = KvStore::open_with_threshold(disk.clone(), 60)?;
    store.set("c".to_owned(), "5".to_owned())?;
    apply(&mut disk, store.take_effects());
    assert_eq!(&disk, store.segments());
    assert_eq!(store.get("a".to_owned())?, Some("4".to_owned()));
    Ok(())
}

#[test]
fn replay_stops_at_a_torn_record() -> Result<()> {
    let mut store = fresh();
    store.set("a".to_owned(), "1".to_owned())?;
    store.set("b".to_owned(), "2".to_owned())?;
    let mut segments = store.segments().clone();
    let len = segments[0].len();
    segments[0].truncate(len - 1);
    let mut store = KvStore::open(segments)?;
    assert_eq!(store.get("a".to_owned())?, Some("1".to_owned()));
    assert_eq!(store.get("b".to_owned())?, None);
    Ok(())
}

#[test]
fn replay_stops_at_invalid_utf8() -> Result<()> {
    let mut store = fresh();
    store.set("a".to_owned(), "1".to_owned())?;
    store.set("b".to_owned(), "2".to_owned())?;
    let mut segments = store.segments().clone();
    // The second record's key byte sits at 22 + 12.
    segments[0][34] = 0xff;
    let mut store = KvStore::open(segments)?;
    assert_eq!(store.get("a".to_owned())?, Some("1".to_owned()));
    assert_eq!(store.get("b".to_owned())?, None);
    Ok(())
}

#[test]
fn error_messages() {
    assert_eq!(KvsError::NonExistentKey("x".to_owned()).message(), "Non-existent key: x");
    assert_eq!(KvsError::StorageFull.message(), "Storage full");
}

#[test]
fn unicode_keys_and_values() -> Result<()> {
    let mut store = fresh();
    store.set("ключ".to_owned(), "значение ✓".to_owned())?;
    let mut store = reopen(&store)?;
    assert_eq!(store.get("ключ".to_owned())?, Some("значение ✓".to_owned()));
    Ok(())
}

#[test]
fn new_session_starts_new_segment() -> Result<()> {
    let mut store = fresh();
    store.set("a".to_owned(), "1".to_owned())?;
    store.set("b".to_owned(), "2".to_owned())?;
    assert_eq!(store.segments().len(), 1);
    let mut store = reopen(&store)?;
    store.set("c".to_owned(), "3".to_owned())?;
    assert_eq!(store.segments().len(), 2);
    assert_eq!(store.segments()[1].len(), 22);
    assert_eq!(store.log_size(), 66);
    Ok(())
}

#[test]
fn compaction_fires_exactly_past_threshold() -> Result<()> {
    let mut store = KvStore::open_with_threshold(Vec::new(), 43)?;
    store.set("k".to_owned(), "v".to_owned())?;
    store.set("k".to_owned(), "w".to_owned())?;
    // 22 reclaimable bytes: at most the threshold, so no compaction.
    assert_eq!(store.uncompacted(), 22);
    assert_eq!(store.log_size(), 44);
    store.set("k".to_owned(), "x".to_owned())?;
    // 44 reclaimable bytes pass the threshold: one live record is left.
    assert_eq!(store.uncompacted(), 0);
    assert_eq!(store.log_size(), 22);
    assert_eq!(store.segments().len(), 1);
    assert_eq!(store.get("k".to_owned())?, Some("x".to_owned()));
    // The next write goes to a new segment.
    store.set("j".to_owned(), "y".to_owned())?;
    assert_eq!(store.segments().len(), 2);
    Ok(())
}
