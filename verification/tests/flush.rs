use logkv::engine::Db;
use logkv::error::DbError;
use logkv::memtable::Memtable;
use logkv::segment::{ascending, Sst};
use logkv::wal;

fn filled(n: usize) -> Db {
    let mut db = Db::new(b"").unwrap();
    for i in 0..n {
        let key = format!("key{:03}", (i * 37) % n);
        db.put(&key, &format!("value{}", i), Ok(())).unwrap();
    }
    db
}

#[test]
fn entries_come_sorted_and_once() {
    let mut m = Memtable::new();
    for (k, v) in [("pear", "1"), ("apple", "2"), ("fig", "3"), ("pear", "4"), ("", "5"), ("b", "6")] {
        m.put(k.to_string(), v.to_string());
    }
    let got: Vec<(String, String)> = m.entries().into_iter().map(|p| (p.key, p.value)).collect();
    let want: Vec<(String, String)> =
        [("", "5"), ("apple", "2"), ("b", "6"), ("fig", "3"), ("pear", "4")]
            .iter()
            .map(|(k, v)| (k.to_string(), v.to_string()))
            .collect();
    assert_eq!(got, want);
}

#[test]
fn entries_of_an_empty_table_are_none() {
    assert!(Memtable::new().entries().is_empty());
}

#[test]
fn entries_forget_what_was_cleared() {
    let mut m = Memtable::new();
    m.put("a".to_string(), "1".to_string());
    m.clear();
    m.put("b".to_string(), "2".to_string());
    let got = m.entries();
    assert_eq!(got.len(), 1);
    assert_eq!((got[0].key.as_str(), got[0].value.as_str()), ("b", "2"));
}

#[test]
fn frozen_table_is_fit_for_a_segment() {
    let db = filled(50);
    let records = db.frozen();
    assert_eq!(records.len(), 50);
    assert!(ascending(&records));
    for p in &records {
        assert_eq!(db.get(&p.key, &Vec::new()).unwrap(), Some(p.value.clone()));
    }
}

#[test]
fn flush_moves_the_values_to_the_segment() {
    let mut db = filled(50);
    let before: Vec<(String, String)> =
        db.frozen().into_iter().map(|p| (p.key, p.value)).collect();
    let (sst, files) = Sst::construct("seg", &db.frozen()).unwrap();
    assert_eq!(sst.index.len(), 4);
    db.flushed(sst, Ok(())).unwrap();
    assert_eq!(db.segments().len(), 1);
    assert!(db.frozen().is_empty());
    let data = vec![files.data];
    for (k, v) in &before {
        assert_eq!(db.get(k, &data).unwrap(), Some(v.clone()));
    }
    assert_eq!(db.get("missing", &data).unwrap(), None);
}

#[test]
fn writes_after_a_flush_shadow_the_segment() {
    let mut db = filled(20);
    let (sst, files) = Sst::construct("seg", &db.frozen()).unwrap();
    db.flushed(sst, Ok(())).unwrap();
    db.put("key003", "fresh", Ok(())).unwrap();
    let data = vec![files.data];
    assert_eq!(db.get("key003", &data).unwrap(), Some("fresh".to_string()));
}

#[test]
fn failed_flush_registers_nothing() {
    let mut db = filled(5);
    let (sst, _) = Sst::construct("seg", &db.frozen()).unwrap();
    let failure = DbError::Io(std::io::Error::new(std::io::ErrorKind::Other, "disk full"));
    assert!(matches!(db.flushed(sst, Err(failure)), Err(DbError::Io(_))));
    assert_eq!(db.segments().len(), 0);
    assert_eq!(db.frozen().len(), 5);
}

#[test]
fn load_reads_the_index_back() {
    let db = filled(40);
    let (sst, files) = Sst::construct("dir/seg", &db.frozen()).unwrap();
    let loaded = Sst::load("dir/seg", &files.index).unwrap();
    assert_eq!(loaded.data_path, "dir/seg.data");
    assert_eq!(loaded.index_path, "dir/seg.index");
    assert_eq!(loaded.index.len(), 3);
    for (a, b) in loaded.index.iter().zip(sst.index.iter()) {
        assert_eq!((a.key.as_str(), a.position), (b.key.as_str(), b.position));
    }
    assert_eq!(loaded.get(&files.data, "key017").unwrap(), sst.get(&files.data, "key017").unwrap());
}

#[test]
fn load_refuses_what_is_no_index() {
    assert!(matches!(Sst::load("seg", b"[1,2]"), Err(DbError::Serde(_))));
    assert!(matches!(Sst::load("seg", b"{\"a\":\"b\"}"), Err(DbError::Serde(_))));
    assert!(matches!(Sst::load("seg", b"{\"a\":-1}"), Err(DbError::Serde(_))));
    assert!(matches!(Sst::load("seg", b""), Err(DbError::Serde(_))));
}

#[test]
fn from_entries_keeps_the_order_given() {
    let sst = Sst::from_entries("s", &vec![("b".to_string(), 7), ("a".to_string(), 0)]);
    assert_eq!(sst.index.len(), 2);
    assert_eq!((sst.index[0].key.as_str(), sst.index[0].position), ("b", 7));
    assert_eq!((sst.index[1].key.as_str(), sst.index[1].position), ("a", 0));
}

#[test]
fn segment_data_replays_like_a_log() {
    let db = filled(20);
    let (_, files) = Sst::construct("seg", &db.frozen()).unwrap();
    let table = wal::hydrate(&files.data).unwrap();
    for p in db.frozen() {
        assert_eq!(table.get(&p.key), Some(p.value));
    }
}

#[test]
fn flushed_keys_are_still_found_by_get() {
    let mut db = Db::new(b"").unwrap();
    db.put("foo", "bar", Ok(())).unwrap();
    db.put("baz", "qux", Ok(())).unwrap();
    let (sst, files) = Sst::construct("seg", &db.frozen()).unwrap();
    db.flushed(sst, Ok(())).unwrap();
    let data = vec![files.data];
    assert_eq!(db.get("foo", &data).unwrap(), Some("bar".to_string()));
    assert_eq!(db.get("baz", &data).unwrap(), Some("qux".to_string()));
    assert_eq!(db.get("missing", &data).unwrap(), None);
}

#[test]
fn get_fails_on_a_damaged_data_file() {
    let mut db = Db::new(b"").unwrap();
    db.put("foo", "bar", Ok(())).unwrap();
    let (sst, _) = Sst::construct("seg", &db.frozen()).unwrap();
    db.flushed(sst, Ok(())).unwrap();
    let data = vec![b"{broken\n".to_vec()];
    assert!(matches!(db.get("foo", &data), Err(DbError::Serde(_))));
    db.put("foo", "goo", Ok(())).unwrap();
    assert_eq!(db.get("foo", &data).unwrap(), Some("goo".to_string()));
}
