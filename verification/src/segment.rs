use crate::error::DbError;
use crate::memtable::record_keys;
use crate::order::{key_at_most, lemma_sorted_push, strictly_sorted};
use crate::record::{append_bytes, encoded, one_line, Put, NEWLINE};
use crate::wal::{lemma_lines_from_append, lines};
use vstd::prelude::*;

verus! {

/// The stride of the sparse index: every sixteenth record is indexed, the
/// first one included.
pub const INDEX_SPLIT: usize = 16;

/// One entry of a sparse index: a key, and where its record starts in the
/// data file.
#[derive(Debug)]
pub struct IndexEntry {
    pub key: String,
    pub position: u64,
}

impl View for IndexEntry {
    type V = (Seq<char>, u64);

    open spec fn view(&self) -> (Seq<char>, u64) {
        (self.key@, self.position)
    }
}

/// An immutable table on disk: the names of its two files and its sparse
/// index, in the order of the data file.
#[derive(Debug)]
pub struct Sst {
    pub data_path: String,
    pub index_path: String,
    pub index: Vec<IndexEntry>,
}

/// The contents of the two files of a new segment, for the caller to write
/// and sync.
#[derive(Debug)]
pub struct SstFiles {
    pub data: Vec<u8>,
    pub index: Vec<u8>,
}

/// The entries of an index as plain values.
pub open spec fn index_view(index: Seq<IndexEntry>) -> Seq<(Seq<char>, u64)> {
    Seq::new(index.len(), |i: int| index[i]@)
}

/// The text of an index file, as `serde_json::to_vec` writes the map from the
/// keys of the entries to their positions.
pub uninterp spec fn index_text(entries: Seq<(Seq<char>, u64)>) -> Seq<u8>;

/// What `serde_json::from_slice` reads from the text of an index file as a
/// map from keys to positions: its entries in the order of the keys, or `None`
/// where the text is refused.
pub uninterp spec fn index_entries(text: Seq<u8>) -> Option<Seq<(Seq<char>, u64)>>;

/// Keys with their positions as plain values.
pub open spec fn entries_view(entries: Seq<(String, u64)>) -> Seq<(Seq<char>, u64)> {
    Seq::new(entries.len(), |i: int| (entries[i].0@, entries[i].1))
}

/// The keys of a sequence of keyed lines.
pub open spec fn keys_of(entries: Seq<(String, Vec<u8>)>) -> Seq<Seq<char>> {
    Seq::new(entries.len(), |i: int| entries[i].0@)
}

/// The lines of a sequence of keyed lines.
pub open spec fn lines_of(entries: Seq<(String, Vec<u8>)>) -> Seq<Seq<u8>> {
    Seq::new(entries.len(), |i: int| entries[i].1@)
}

/// The lines of a sequence of records, without terminators.
pub open spec fn record_lines(data: Seq<Put>) -> Seq<Seq<u8>> {
    Seq::new(data.len(), |i: int| encoded(data[i].key@, data[i].value@))
}

/// A data file: the lines in order, each followed by a terminator.
pub open spec fn joined(ls: Seq<Seq<u8>>) -> Seq<u8>
    decreases ls.len(),
{
    if ls.len() == 0 {
        Seq::empty()
    } else {
        joined(ls.drop_last()) + ls.last().push(NEWLINE)
    }
}

/// Where line `i` starts in the data file: the length of the file as it stood
/// before that line was written.
pub open spec fn offset_of(ls: Seq<Seq<u8>>, i: int) -> int {
    joined(ls.take(i)).len() as int
}

/// How many of `n` records are indexed: `n / 16`, rounded up.
pub open spec fn sampled(n: int) -> int {
    (n + 15) / 16
}

/// True where `index` is the sparse index of the lines `ls` with the keys
/// `keys`: one entry for each sixteenth line, with its key and its offset.
pub open spec fn is_sparse_index(
    index: Seq<(Seq<char>, u64)>,
    keys: Seq<Seq<char>>,
    ls: Seq<Seq<u8>>,
) -> bool {
    &&& index.len() == sampled(ls.len() as int)
    &&& forall|j: int|
        0 <= j < index.len() ==> (#[trigger] index[j]).0 == keys[16 * j] && index[j].1 as int
            == offset_of(ls, 16 * j)
}

/// Calls `serde_json::to_vec` on the map from the keys of `entries` to their
/// positions. The call succeeds: the codec writes into a vector, and for
/// string keys and unsigned numbers it has no failure but one of the writer.
/// The bytes are the text of that map, which holds each key once and in the
/// order of the keys.
#[verifier::external_body]
fn index_json(entries: &Vec<IndexEntry>) -> (r: Result<Vec<u8>, serde_json::Error>)
    ensures
        r is Ok,
        r matches Ok(b) ==> b@ == index_text(index_view(entries@)),
{
    let m: std::collections::BTreeMap<&str, u64> = entries.iter().map(
        |e| (e.key.as_str(), e.position),
    ).collect();
    serde_json::to_vec(&m)
}

/// Calls `serde_json::from_slice` for a map from strings to unsigned 64-bit
/// numbers and hands its entries out in the map's order. The call succeeds
/// exactly on the texts that have such a map, and the entries are those of
/// the map.
#[verifier::external_body]
fn index_members(text: &[u8]) -> (r: Result<Vec<(String, u64)>, serde_json::Error>)
    ensures
        match r {
            Ok(entries) => index_entries(text@) == Some(entries_view(entries@)),
            Err(_) => index_entries(text@) is None,
        },
{
    let m: std::collections::BTreeMap<String, u64> = serde_json::from_slice(text)?;
    Ok(m.into_iter().collect())
}

/// Lays out a segment from the lines of its records, each with its key: the
/// data file and the sparse index.
pub fn layout(entries: &Vec<(String, Vec<u8>)>) -> (r: (Vec<u8>, Vec<IndexEntry>))
    ensures
        r.0@ == joined(lines_of(entries@)),
        is_sparse_index(index_view(r.1@), keys_of(entries@), lines_of(entries@)),
{
    let ghost keys = keys_of(entries@);
    let ghost ls = lines_of(entries@);
    let mut data: Vec<u8> = Vec::new();
    let mut index: Vec<IndexEntry> = Vec::new();
    let mut i: usize = 0;
    assert(ls.take(0) =~= Seq::<Seq<u8>>::empty());
    while i < entries.len()
        invariant
            i <= entries@.len(),
            keys == keys_of(entries@),
            ls == lines_of(entries@),
            data@ == joined(ls.take(i as int)),
            index@.len() == sampled(i as int),
            forall|j: int|
                0 <= j < index@.len() ==> (#[trigger] index@[j])@.0 == keys[16 * j] && index@[j]@.1 as int
                    == offset_of(ls, 16 * j),
        decreases entries@.len() - i,
    {
        if i % INDEX_SPLIT == 0 {
            let position = data.len() as u64;
            index.push(IndexEntry { key: entries[i].0.clone(), position });
        }
        append_bytes(&mut data, entries[i].1.as_slice());
        data.push(NEWLINE);
        proof {
            assert(ls.take(i + 1).drop_last() =~= ls.take(i as int));
            assert(ls.take(i + 1).last() == ls[i as int]);
            assert(data@ =~= joined(ls.take(i as int)) + ls[i as int].push(NEWLINE));
        }
        i += 1;
    }
    proof {
        assert(ls.take(i as int) =~= ls);
        assert forall|j: int| 0 <= j < index@.len() implies (#[trigger] index_view(index@)[j]).0
            == keys[16 * j] && index_view(index@)[j].1 as int == offset_of(ls, 16 * j) by {
            assert(index_view(index@)[j] == index@[j]@);
        }
    }
    (data, index)
}

/// Tells whether the keys of the records ascend strictly, as a segment wants
/// them.
pub fn ascending(data: &Vec<Put>) -> (r: bool)
    ensures
        r == strictly_sorted(record_keys(data@)),
{
    let ghost keys = record_keys(data@);
    if data.len() == 0 {
        return true;
    }
    let mut i: usize = 1;
    assert(keys.take(1).len() == 1);
    while i < data.len()
        invariant
            1 <= i <= data@.len(),
            keys == record_keys(data@),
            strictly_sorted(keys.take(i as int)),
        decreases data@.len() - i,
    {
        let below = key_at_most(data[i - 1].key.as_str(), data[i].key.as_str());
        let above = key_at_most(data[i].key.as_str(), data[i - 1].key.as_str());
        if !below || above {
            assert(keys[i - 1] == data@[i - 1].key@ && keys[i as int] == data@[i as int].key@);
            return false;
        }
        proof {
            assert(keys.take(i as int).last() == keys[i - 1]);
            lemma_sorted_push(keys.take(i as int), keys[i as int]);
            assert(keys.take(i as int).push(keys[i as int]) =~= keys.take(i + 1));
        }
        i += 1;
    }
    proof {
        assert(keys.take(keys.len() as int) =~= keys);
    }
    true
}

impl Sst {
    /// Builds a segment from records whose keys ascend strictly: the data file
    /// holds one line for each, in the order given, and the index every
    /// sixteenth key with the offset of its line. The data file is named
    /// `path` with `.data` behind it, the index file `path` with `.index`.
    /// Such records always make a segment: the call succeeds.
    pub fn construct(path: &str, data: &Vec<Put>) -> (r: Result<(Sst, SstFiles), DbError>)
        requires
            strictly_sorted(record_keys(data@)),
        ensures
            r matches Ok((sst, files)) && {
                &&& unbroken(record_lines(data@))
                &&& files.data@ == joined(record_lines(data@))
                &&& is_sparse_index(
                    index_view(sst.index@),
                    record_keys(data@),
                    record_lines(data@),
                )
                &&& files.index@ == index_text(index_view(sst.index@))
                &&& sst.data_path@ == path@ + ".data"@
                &&& sst.index_path@ == path@ + ".index"@
            },
    {
        let mut entries: Vec<(String, Vec<u8>)> = Vec::new();
        let mut i: usize = 0;
        while i < data.len()
            invariant
                i <= data@.len(),
                entries@.len() == i,
                forall|k: int|
                    0 <= k < i ==> (#[trigger] entries@[k]).0@ == data@[k].key@ && entries@[k].1@
                        == encoded(data@[k].key@, data@[k].value@) && one_line(entries@[k].1@),
            decreases data@.len() - i,
        {
            let line = match data[i].encode() {
                Ok(line) => line,
                Err(e) => {
                    return Err(e);
                },
            };
            entries.push((data[i].key.clone(), line));
            i += 1;
        }
        proof {
            assert(keys_of(entries@) =~= record_keys(data@));
            assert(lines_of(entries@) =~= record_lines(data@));
            assert forall|n: int, k: int|
                0 <= n < record_lines(data@).len() && 0 <= k < record_lines(
                    data@,
                )[n].len() implies record_lines(data@)[n][k] != NEWLINE by {
                assert(one_line(entries@[n].1@));
            }
        }
        let (bytes, index) = layout(&entries);
        let text = match index_json(&index) {
            Ok(text) => text,
            Err(e) => {
                return Err(DbError::Serde(e));
            },
        };
        let data_path = path.to_owned().concat(".data");
        let index_path = path.to_owned().concat(".index");
        Ok((Sst { data_path, index_path, index }, SstFiles { data: bytes, index: text }))
    }

    /// The segment named `path` whose index holds `entries`, in their order.
    pub fn from_entries(path: &str, entries: &Vec<(String, u64)>) -> (sst: Sst)
        ensures
            index_view(sst.index@) == entries_view(entries@),
            sst.data_path@ == path@ + ".data"@,
            sst.index_path@ == path@ + ".index"@,
    {
        let mut index: Vec<IndexEntry> = Vec::new();
        let mut i: usize = 0;
        while i < entries.len()
            invariant
                i <= entries@.len(),
                index@.len() == i,
                forall|k: int| 0 <= k < i ==> (#[trigger] index@[k])@ == (entries@[k].0@, entries@[k].1),
            decreases entries@.len() - i,
        {
            index.push(IndexEntry { key: entries[i].0.clone(), position: entries[i].1 });
            i += 1;
        }
        assert(index_view(index@) =~= entries_view(entries@));
        let data_path = path.to_owned().concat(".data");
        let index_path = path.to_owned().concat(".index");
        Sst { data_path, index_path, index }
    }

    /// Opens an existing segment from the text of its index file alone; the
    /// data file is not read. The entries come in the order of their keys,
    /// which in a segment is the order of the data file. Fails exactly where
    /// the text is not a map from keys to positions.
    pub fn load(path: &str, text: &[u8]) -> (r: Result<Sst, DbError>)
        ensures
            match r {
                Ok(sst) => {
                    &&& index_entries(text@) == Some(index_view(sst.index@))
                    &&& sst.data_path@ == path@ + ".data"@
                    &&& sst.index_path@ == path@ + ".index"@
                },
                Err(e) => index_entries(text@) is None && e is Serde,
            },
    {
        match index_members(text) {
            Ok(entries) => Ok(Sst::from_entries(path, &entries)),
            Err(e) => Err(DbError::Serde(e)),
        }
    }

    /// Builds a segment as `construct` does where the keys of the records
    /// ascend strictly, and builds none, `Ok(None)`, where they do not.
    pub fn build(path: &str, data: &Vec<Put>) -> (r: Result<Option<(Sst, SstFiles)>, DbError>)
        ensures
            match r {
                Ok(Some((sst, files))) => {
                    &&& strictly_sorted(record_keys(data@))
                    &&& unbroken(record_lines(data@))
                    &&& files.data@ == joined(record_lines(data@))
                    &&& is_sparse_index(
                        index_view(sst.index@),
                        record_keys(data@),
                        record_lines(data@),
                    )
                    &&& files.index@ == index_text(index_view(sst.index@))
                    &&& sst.data_path@ == path@ + ".data"@
                    &&& sst.index_path@ == path@ + ".index"@
                },
                Ok(None) => !strictly_sorted(record_keys(data@)),
                Err(_) => false,
            },
    {
        if !ascending(data) {
            return Ok(None);
        }
        match Sst::construct(path, data) {
            Ok(built) => Ok(Some(built)),
            Err(e) => Err(e),
        }
    }
}

/// Every line stands in the data file at its offset, whole and followed by a
/// terminator.
pub proof fn law_offset_addresses_line(ls: Seq<Seq<u8>>, i: int)
    requires
        0 <= i < ls.len(),
    ensures
        0 <= offset_of(ls, i),
        offset_of(ls, i) + ls[i].len() < joined(ls).len(),
        joined(ls).subrange(offset_of(ls, i), offset_of(ls, i) + ls[i].len()) == ls[i],
        joined(ls)[offset_of(ls, i) + ls[i].len()] == NEWLINE,
    decreases ls.len(),
{
    let front = ls.drop_last();
    if i == ls.len() - 1 {
        assert(ls.take(i) =~= front);
        assert(joined(ls).subrange(offset_of(ls, i), offset_of(ls, i) + ls[i].len()) =~= ls[i]);
    } else {
        law_offset_addresses_line(front, i);
        assert(front.take(i) =~= ls.take(i));
        assert(joined(ls).subrange(offset_of(ls, i), offset_of(ls, i) + ls[i].len())
            =~= joined(front).subrange(offset_of(front, i), offset_of(front, i) + front[i].len()));
    }
}

/// True where no line holds a terminator.
pub open spec fn unbroken(ls: Seq<Seq<u8>>) -> bool {
    forall|i: int, k: int| 0 <= i < ls.len() && 0 <= k < ls[i].len() ==> ls[i][k] != NEWLINE
}

/// A data file is empty or ends in a terminator.
pub proof fn lemma_joined_ends(ls: Seq<Seq<u8>>)
    ensures
        joined(ls).len() == 0 || joined(ls).last() == NEWLINE,
{
}

/// A data file reads back line by line as it was written: its lines are the
/// lines it was joined from, where none of them holds a terminator.
pub proof fn law_lines_of_joined(ls: Seq<Seq<u8>>)
    requires
        unbroken(ls),
    ensures
        lines(joined(ls)) == ls,
    decreases ls.len(),
{
    if ls.len() == 0 {
        assert(lines(joined(ls)) =~= ls);
    } else {
        let front = ls.drop_last();
        law_lines_of_joined(front);
        lemma_joined_ends(front);
        lemma_lines_from_append(joined(front), ls.last(), 0);
        assert(front.push(ls.last()) =~= ls);
    }
}

/// A sparse index of `n` lines has one entry for each sixteen of them, the
/// last group counted whole, and each entry holds the key of its line and
/// the place where that line starts in the data file.
pub proof fn law_sparse_index(
    index: Seq<(Seq<char>, u64)>,
    keys: Seq<Seq<char>>,
    ls: Seq<Seq<u8>>,
    j: int,
)
    requires
        is_sparse_index(index, keys, ls),
        keys.len() == ls.len(),
        0 <= j < index.len(),
    ensures
        16 * (index.len() - 1) < ls.len() <= 16 * index.len(),
        16 * j < ls.len(),
        index[j].0 == keys[16 * j],
        joined(ls).subrange(index[j].1 as int, index[j].1 as int + ls[16 * j].len()) == ls[16 * j],
        joined(ls)[index[j].1 as int + ls[16 * j].len()] == NEWLINE,
{
    law_offset_addresses_line(ls, 16 * j);
}

} // verus!
