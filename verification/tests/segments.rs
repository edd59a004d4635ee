use logkv::engine::Db;
use logkv::error::DbError;
use logkv::lookup::{full_scan, scan};
use logkv::order::key_at_most;
use logkv::record::Put;
use logkv::segment::{ascending, layout, IndexEntry, Sst, INDEX_SPLIT};

fn records(n: usize) -> Vec<Put> {
    (0..n).map(|i| Put { key: format!("key{:03}", i), value: format!("value{}", i) }).collect()
}

fn line_of(p: &Put) -> Vec<u8> {
    let mut line = p.encode().unwrap();
    line.push(b'\n');
    line
}

#[test]
fn stride_is_sixteen() {
    assert_eq!(INDEX_SPLIT, 16);
}

#[test]
fn construct_writes_every_record_in_order() {
    let data = records(40);
    let (_, files) = Sst::construct("seg", &data).unwrap();
    let mut expected = Vec::new();
    for p in &data {
        expected.extend(line_of(p));
    }
    assert_eq!(files.data, expected);
}

#[test]
fn construct_names_two_distinct_files() {
    let (sst, _) = Sst::construct("dir/seg7", &records(3)).unwrap();
    assert_eq!(sst.data_path, "dir/seg7.data");
    assert_eq!(sst.index_path, "dir/seg7.index");
}

#[test]
fn index_has_one_entry_for_each_sixteen_records() {
    for (n, entries) in [(0, 0), (1, 1), (15, 1), (16, 1), (17, 2), (32, 2), (33, 3), (40, 3)] {
        let (sst, _) = Sst::construct("seg", &records(n)).unwrap();
        assert_eq!(sst.index.len(), entries, "for {} records", n);
    }
}

#[test]
fn index_offsets_address_their_records() {
    let data = records(40);
    let (sst, files) = Sst::construct("seg", &data).unwrap();
    for (j, entry) in sst.index.iter().enumerate() {
        let record = &data[16 * j];
        assert_eq!(entry.key, record.key);
        let line = line_of(record);
        let at = entry.position as usize;
        assert_eq!(&files.data[at..at + line.len()], &line[..]);
    }
    assert_eq!(sst.index[0].position, 0);
    let first: usize = data[..16].iter().map(|p| line_of(p).len()).sum();
    assert_eq!(sst.index[1].position, first as u64);
}

#[test]
fn index_file_maps_keys_to_offsets() {
    let (_, files) = Sst::construct("seg", &records(17)).unwrap();
    assert_eq!(line_of(&records(1)[0]).len(), 34);
    assert_eq!(String::from_utf8(files.index).unwrap(), "{\"key000\":0,\"key016\":550}");
}

#[test]
fn empty_segment_has_empty_files() {
    let (sst, files) = Sst::construct("seg", &Vec::new()).unwrap();
    assert!(sst.index.is_empty());
    assert!(files.data.is_empty());
    assert_eq!(files.index, b"{}".to_vec());
}

#[test]
fn layout_joins_lines_and_samples_keys() {
    let entries: Vec<(String, Vec<u8>)> =
        (0..18).map(|i| (format!("k{:02}", i), vec![b'a'; i])).collect();
    let (data, index) = layout(&entries);
    let total: usize = (0..18).map(|i| i + 1).sum();
    assert_eq!(data.len(), total);
    assert_eq!(&data[..6], b"\na\naa\n");
    assert_eq!(index.len(), 2);
    assert_eq!((index[0].key.as_str(), index[0].position), ("k00", 0));
    let before: usize = (0..16).map(|i| i + 1).sum();
    assert_eq!((index[1].key.as_str(), index[1].position), ("k16", before as u64));
}

#[test]
fn ascending_wants_strictly_rising_keys() {
    assert!(ascending(&records(0)));
    assert!(ascending(&records(1)));
    assert!(ascending(&records(40)));
    let mut twice = records(3);
    twice[2].key = twice[1].key.clone();
    assert!(!ascending(&twice));
    let mut swapped = records(3);
    swapped.swap(0, 1);
    assert!(!ascending(&swapped));
}

#[test]
fn build_refuses_unsorted_records() {
    let mut swapped = records(3);
    swapped.swap(0, 2);
    assert!(matches!(Sst::build("seg", &swapped), Ok(None)));
    let (sst, _) = Sst::build("seg", &records(20)).unwrap().unwrap();
    assert_eq!(sst.index.len(), 2);
}

#[test]
fn key_order_is_the_order_of_strings() {
    let keys = ["", "a", "ab", "abc", "b", "B", "\u{e9}", "z", "\u{1f600}", "a\u{0}", "aa"];
    for a in keys {
        for b in keys {
            assert_eq!(key_at_most(a, b), a <= b, "{:?} against {:?}", a, b);
        }
    }
}

#[test]
fn locate_picks_the_last_entry_at_or_below_the_key() {
    let (sst, _) = Sst::construct("seg", &records(40)).unwrap();
    assert_eq!(sst.locate("key000"), Some(sst.index[0].position));
    assert_eq!(sst.locate("key015"), Some(sst.index[0].position));
    assert_eq!(sst.locate("key016"), Some(sst.index[1].position));
    assert_eq!(sst.locate("key031zz"), Some(sst.index[1].position));
    assert_eq!(sst.locate("key039"), Some(sst.index[2].position));
    assert_eq!(sst.locate("zzz"), Some(sst.index[2].position));
    assert_eq!(sst.locate("a"), Some(sst.index[0].position));
    let (empty, _) = Sst::construct("seg", &Vec::new()).unwrap();
    assert_eq!(empty.locate("a"), None);
}

#[test]
fn guided_lookup_agrees_with_a_full_scan() {
    let data = records(100);
    let (sst, files) = Sst::construct("seg", &data).unwrap();
    for p in &data {
        let guided = sst.get(&files.data, &p.key).unwrap();
        let brute = full_scan(&files.data, &p.key).unwrap();
        assert_eq!(guided, Some(p.value.clone()));
        assert_eq!(guided, brute);
    }
}

#[test]
fn lookup_of_a_missing_key_is_absent() {
    let (sst, files) = Sst::construct("seg", &records(40)).unwrap();
    assert_eq!(sst.get(&files.data, "key0155").unwrap(), None);
    assert_eq!(sst.get(&files.data, "a").unwrap(), None);
    assert_eq!(sst.get(&files.data, "zzz").unwrap(), None);
    assert_eq!(full_scan(&files.data, "zzz").unwrap(), None);
}

#[test]
fn lookup_in_an_empty_segment_is_absent() {
    let (sst, files) = Sst::construct("seg", &Vec::new()).unwrap();
    assert_eq!(sst.get(&files.data, "a").unwrap(), None);
}

#[test]
fn scan_reads_no_more_than_its_limit() {
    let data = records(40);
    let (_, files) = Sst::construct("seg", &data).unwrap();
    assert_eq!(scan(&files.data, 0, 16, "key015").unwrap(), Some("value15".to_string()));
    assert_eq!(scan(&files.data, 0, 16, "key016").unwrap(), None);
    assert_eq!(scan(&files.data, 0, 0, "key000").unwrap(), None);
    assert_eq!(scan(&files.data, files.data.len(), 16, "key000").unwrap(), None);
    assert_eq!(scan(&files.data, files.data.len() + 5, 16, "key000").unwrap(), None);
}

#[test]
fn scan_returns_the_first_match() {
    let mut data = Vec::new();
    data.extend(line_of(&Put { key: "a".into(), value: "1".into() }));
    data.extend(line_of(&Put { key: "a".into(), value: "2".into() }));
    assert_eq!(scan(&data, 0, 16, "a").unwrap(), Some("1".to_string()));
}

#[test]
fn scan_fails_on_a_malformed_line() {
    let mut data = line_of(&Put { key: "a".into(), value: "1".into() });
    data.extend_from_slice(b"{broken\n");
    data.extend(line_of(&Put { key: "c".into(), value: "3".into() }));
    assert_eq!(scan(&data, 0, 16, "a").unwrap(), Some("1".to_string()));
    assert!(matches!(scan(&data, 0, 16, "c"), Err(DbError::Serde(_))));
}

#[test]
fn a_stale_offset_finds_nothing() {
    let sst = Sst {
        data_path: "seg.data".into(),
        index_path: "seg.index".into(),
        index: vec![IndexEntry { key: "a".into(), position: 1 << 40 }],
    };
    assert_eq!(sst.get(b"", "a").unwrap(), None);
}

#[test]
fn tiers_are_read_newest_first() {
    let old = vec![
        Put { key: "a".into(), value: "old-a".into() },
        Put { key: "b".into(), value: "old-b".into() },
        Put { key: "c".into(), value: "old-c".into() },
    ];
    let new = vec![Put { key: "b".into(), value: "new-b".into() }];
    let (old_sst, old_files) = Sst::construct("s0", &old).unwrap();
    let (new_sst, new_files) = Sst::construct("s1", &new).unwrap();
    let mut db = Db::new(b"").unwrap();
    db.register(old_sst);
    db.register(new_sst);
    assert_eq!(db.segments().len(), 2);
    assert_eq!(db.segments()[0].data_path, "s1.data");
    db.put("c", "mem-c", Ok(())).unwrap();
    let files = vec![new_files.data, old_files.data];
    assert_eq!(db.get("a", &files).unwrap(), Some("old-a".to_string()));
    assert_eq!(db.get("b", &files).unwrap(), Some("new-b".to_string()));
    assert_eq!(db.get("c", &files).unwrap(), Some("mem-c".to_string()));
    assert_eq!(db.get("d", &files).unwrap(), None);
}

#[test]
fn construct_and_encode_always_succeed() {
    for n in [0, 1, 16, 17, 100] {
        assert!(Sst::construct("seg", &records(n)).is_ok());
        assert!(matches!(Sst::build("seg", &records(n)), Ok(Some(_))));
    }
    let odd = Put { key: "\u{0}\u{1f}\"\\\n".into(), value: "\u{10ffff}\u{7f}".into() };
    assert!(odd.encode().is_ok());
    assert!(Sst::construct("seg", &vec![odd]).is_ok());
}
