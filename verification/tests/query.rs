use logkv::error::DbError;
use logkv::memtable::Memtable;
use logkv::query::{first_hit, Log, Queryable, Segment};
use logkv::record::Put;
use logkv::segment::Sst;
use logkv::wal;

fn put(k: &str, v: &str) -> Put {
    Put { key: k.to_string(), value: v.to_string() }
}

#[test]
fn the_table_answers_without_failing() {
    let mut m = Memtable::new();
    m.put("foo".to_string(), "bar".to_string());
    assert_eq!(Queryable::get(&m, "foo").unwrap(), Some("bar".to_string()));
    assert_eq!(Queryable::get(&m, "missing").unwrap(), None);
}

#[test]
fn the_log_answers_with_its_last_value() {
    let mut contents = wal::entry("foo", "bar").unwrap();
    contents.extend(wal::entry("foo", "goo").unwrap());
    let log = Log { contents: &contents };
    assert_eq!(log.get("foo").unwrap(), Some("goo".to_string()));
    assert_eq!(log.get("baz").unwrap(), None);
}

#[test]
fn a_damaged_log_fails_to_answer() {
    let log = Log { contents: b"{\"key\":\"foo\"\n" };
    assert!(matches!(log.get("foo"), Err(DbError::Serde(_))));
}

#[test]
fn a_segment_answers_from_its_data_file() {
    let (sst, files) = Sst::construct("seg", &vec![put("a", "1"), put("b", "2")]).unwrap();
    let tier = Segment { sst: &sst, data: &files.data };
    assert_eq!(tier.get("b").unwrap(), Some("2".to_string()));
    assert_eq!(tier.get("c").unwrap(), None);
}

#[test]
fn first_hit_takes_the_first_tier_that_has_the_key() {
    let (new, new_files) = Sst::construct("s1", &vec![put("b", "new")]).unwrap();
    let (old, old_files) = Sst::construct("s0", &vec![put("a", "old"), put("b", "old")]).unwrap();
    let tiers = vec![
        Segment { sst: &new, data: &new_files.data },
        Segment { sst: &old, data: &old_files.data },
    ];
    assert_eq!(first_hit(&tiers, "a").unwrap(), Some("old".to_string()));
    assert_eq!(first_hit(&tiers, "b").unwrap(), Some("new".to_string()));
    assert_eq!(first_hit(&tiers, "c").unwrap(), None);
    let none: Vec<Segment> = Vec::new();
    assert_eq!(first_hit(&none, "a").unwrap(), None);
}

#[test]
fn first_hit_stops_at_a_failing_tier() {
    let (sst, files) = Sst::construct("s0", &vec![put("a", "1")]).unwrap();
    let tiers = vec![Log { contents: b"broken\n" }, Log { contents: &files.data }];
    assert!(first_hit(&tiers, "a").is_err());
    let tiers = vec![Log { contents: &files.data }, Log { contents: b"broken\n" }];
    assert_eq!(first_hit(&tiers, "a").unwrap(), Some("1".to_string()));
    assert_eq!(sst.index.len(), 1);
}
