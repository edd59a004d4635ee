use crate::error::DbError;
use crate::lookup::{guided, law_guided_lookup_agrees, lines_hold, value_view};
use crate::memtable::{has_key, lists, record_keys, Memtable};
use crate::query::{first_answer, first_hit, held, Queryable, Segment};
use crate::record::{decoded, Put, NEWLINE};
use crate::segment::{
    index_view, is_sparse_index, joined, lemma_joined_ends, record_lines, unbroken, Sst,
};
use crate::wal::{hydrate, law_replay_after_append, replayed};
use vstd::prelude::*;

verus! {

/// The store once it is ready: the table of everything that the log holds,
/// and the segments, the newest first.
///
/// The caller owns the files. It hands the contents of the log over at
/// opening, tells `put` how each append ended, and hands the data files of the
/// segments to a lookup that goes through them.
pub struct Db {
    memtable: Memtable,
    segments: Vec<Sst>,
}

impl View for Db {
    type V = Map<Seq<char>, Seq<char>>;

    closed spec fn view(&self) -> Map<Seq<char>, Seq<char>> {
        self.memtable@
    }
}

/// The table after the writes `puts`, made in order on the table `m`.
pub open spec fn after_puts(m: Map<Seq<char>, Seq<char>>, puts: Seq<(Seq<char>, Seq<char>)>) -> Map<
    Seq<char>,
    Seq<char>,
>
    decreases puts.len(),
{
    if puts.len() == 0 {
        m
    } else {
        after_puts(m, puts.drop_last()).insert(puts.last().0, puts.last().1)
    }
}

/// What the segments from number `from` on hold for `key`, each looked up
/// in its data file: the value that the first of them finds, `Some(None)`
/// where none finds one, `None` where a lookup fails first. `files` holds the
/// data file of each segment, in the order of the segments.
pub open spec fn found_in_tiers(
    tiers: Seq<Sst>,
    files: Seq<Vec<u8>>,
    key: Seq<char>,
    from: int,
) -> Option<Option<Seq<char>>>
    decreases tiers.len() - from,
{
    if from < 0 || from >= tiers.len() {
        Some(None)
    } else {
        match guided(index_view(tiers[from].index@), files[from]@, key) {
            None => None,
            Some(Some(v)) => Some(Some(v)),
            Some(None) => found_in_tiers(tiers, files, key, from + 1),
        }
    }
}

/// What a lookup through all tiers finds: the value in the table, else what
/// the segments hold.
pub open spec fn found(
    table: Map<Seq<char>, Seq<char>>,
    tiers: Seq<Sst>,
    files: Seq<Vec<u8>>,
    key: Seq<char>,
) -> Option<Option<Seq<char>>> {
    if table.contains_key(key) {
        Some(Some(table[key]))
    } else {
        found_in_tiers(tiers, files, key, 0)
    }
}

/// Segments paired with their data files answer as the segments and the
/// files do, taken in order.
pub proof fn lemma_tiers_agree(
    segments: Seq<Sst>,
    files: Seq<Vec<u8>>,
    tiers: Seq<Segment>,
    key: Seq<char>,
    from: int,
)
    requires
        0 <= from,
        tiers.len() == segments.len(),
        tiers.len() == files.len(),
        forall|k: int|
            0 <= k < tiers.len() ==> *(#[trigger] tiers[k]).sst == segments[k] && tiers[k].data@
                == files[k]@,
    ensures
        found_in_tiers(segments, files, key, from) == first_answer(tiers, key, from),
    decreases tiers.len() - from,
{
    if from < tiers.len() {
        lemma_tiers_agree(segments, files, tiers, key, from + 1);
    }
}

impl Db {
    /// Recovers the store from the contents of its log. A log with a malformed
    /// line gives no store: the error is an encoding error.
    pub fn new(log: &[u8]) -> (r: Result<Db, DbError>)
        ensures
            match r {
                Ok(db) => replayed(log@) == Some(db@) && db.tiers().len() == 0,
                Err(e) => replayed(log@) is None && e.is_encoding(),
            },
    {
        match hydrate(log) {
            Ok(memtable) => Ok(Db { memtable, segments: Vec::new() }),
            Err(e) => Err(e),
        }
    }

    /// Completes a write whose line the caller has tried to append to the log;
    /// `appended` is how that ended. Where the append failed the table is left
    /// as it was and the failure is handed back.
    pub fn put(&mut self, key: &str, value: &str, appended: Result<(), DbError>) -> (r: Result<
        (),
        DbError,
    >)
        ensures
            match appended {
                Ok(_) => r is Ok && final(self)@ == old(self)@.insert(key@, value@),
                Err(e) => r == Err::<(), DbError>(e) && final(self)@ == old(self)@,
            },
            final(self).tiers() == old(self).tiers(),
    {
        match appended {
            Ok(()) => {
                self.memtable.put(key.to_owned(), value.to_owned());
                Ok(())
            },
            Err(e) => Err(e),
        }
    }

    /// The segments, the newest first.
    pub closed spec fn tiers(&self) -> Seq<Sst> {
        self.segments@
    }

    /// The segments, the newest first.
    pub fn segments(&self) -> (r: &Vec<Sst>)
        ensures
            r@ == self.tiers(),
    {
        &self.segments
    }

    /// Takes a new segment in, before all that are there. The table stays as
    /// it is.
    pub fn register(&mut self, sst: Sst)
        ensures
            final(self).tiers() == seq![sst] + old(self).tiers(),
            final(self)@ == old(self)@,
    {
        self.segments.insert(0, sst);
        assert(self.segments@ =~= seq![sst] + old(self).segments@);
    }

    /// The entries of the table, each once, by ascending keys: what a flush
    /// writes to a new segment.
    pub fn frozen(&self) -> (r: Vec<Put>)
        ensures
            lists(r@, self@),
    {
        self.memtable.entries()
    }

    /// Completes a flush: `sst` is the segment that was built from the frozen
    /// table, `written` how the writing of its files ended. Where they were
    /// written the segment becomes the newest and the table is emptied; the
    /// caller then empties the log. Where they were not the store is left as
    /// it was and the failure is handed back.
    pub fn flushed(&mut self, sst: Sst, written: Result<(), DbError>) -> (r: Result<(), DbError>)
        ensures
            match written {
                Ok(_) => {
                    &&& r is Ok
                    &&& final(self).tiers() == seq![sst] + old(self).tiers()
                    &&& final(self)@ == Map::<Seq<char>, Seq<char>>::empty()
                },
                Err(e) => {
                    &&& r == Err::<(), DbError>(e)
                    &&& final(self).tiers() == old(self).tiers()
                    &&& final(self)@ == old(self)@
                },
            },
    {
        match written {
            Ok(()) => {
                self.segments.insert(0, sst);
                self.memtable.clear();
                assert(self.segments@ =~= seq![sst] + old(self).segments@);
                Ok(())
            },
            Err(e) => Err(e),
        }
    }

    /// Looks `key` up in the table and, where the table has no value, in the
    /// segments from the newest to the oldest; `files` holds the data file of
    /// each segment, in the order of the segments. The first value found is
    /// the result, and a key that no tier holds is absent, which is no
    /// failure. A malformed line met in a data file fails the lookup.
    pub fn get(&self, key: &str, files: &Vec<Vec<u8>>) -> (r: Result<Option<String>, DbError>)
        requires
            files@.len() == self.tiers().len(),
        ensures
            match r {
                Ok(v) => found(self@, self.tiers(), files@, key@) == Some(value_view(v)),
                Err(e) => found(self@, self.tiers(), files@, key@) is None && e.is_encoding(),
            },
    {
        match Queryable::get(&self.memtable, key) {
            Ok(Some(v)) => {
                return Ok(Some(v));
            },
            Ok(None) => {},
            Err(e) => {
                return Err(e);
            },
        }
        let mut tiers: Vec<Segment> = Vec::new();
        let mut i: usize = 0;
        while i < self.segments.len()
            invariant
                i <= self.segments@.len(),
                files@.len() == self.segments@.len(),
                tiers@.len() == i,
                forall|k: int|
                    0 <= k < i ==> *(#[trigger] tiers@[k]).sst == self.segments@[k] && tiers@[k].data@
                        == files@[k]@,
            decreases self.segments@.len() - i,
        {
            tiers.push(Segment { sst: &self.segments[i], data: files[i].as_slice() });
            i += 1;
        }
        proof {
            lemma_tiers_agree(self.segments@, files@, tiers@, key@, 0);
        }
        first_hit(&tiers, key)
    }
}

/// A store without segments answers from its table alone and never fails: a
/// key that the table holds is found with its value, any other is absent.
pub proof fn law_lookup_without_segments(m: Map<Seq<char>, Seq<char>>, key: Seq<char>)
    ensures
        found(m, Seq::<Sst>::empty(), Seq::<Vec<u8>>::empty(), key) == Some(held(m, key)),
{
}

/// The table comes first: a key that the table holds is found with the
/// table's value, whatever the segments hold.
pub proof fn law_table_shadows_segments(
    m: Map<Seq<char>, Seq<char>>,
    tiers: Seq<Sst>,
    files: Seq<Vec<u8>>,
    key: Seq<char>,
)
    requires
        m.contains_key(key),
    ensures
        found(m, tiers, files, key) == Some(Some(m[key])),
{
}

/// The newest segment that holds a key decides: where the table has no value
/// and the segments before number `i` have none either, the lookup gives what
/// segment `i` gives, be it a value or a failure.
pub proof fn law_newest_segment_wins(
    m: Map<Seq<char>, Seq<char>>,
    tiers: Seq<Sst>,
    files: Seq<Vec<u8>>,
    key: Seq<char>,
    i: int,
)
    requires
        !m.contains_key(key),
        0 <= i < tiers.len(),
        forall|k: int|
            0 <= k < i ==> guided(index_view((#[trigger] tiers[k]).index@), files[k]@, key) == Some(
                None::<Seq<char>>,
            ),
        guided(index_view(tiers[i].index@), files[i]@, key) != Some(None::<Seq<char>>),
    ensures
        found(m, tiers, files, key) == guided(index_view(tiers[i].index@), files[i]@, key),
{
    lemma_skip_empty_tiers(tiers, files, key, i, 0);
}

/// Segments that have no value for a key are passed over.
pub proof fn lemma_skip_empty_tiers(
    tiers: Seq<Sst>,
    files: Seq<Vec<u8>>,
    key: Seq<char>,
    i: int,
    from: int,
)
    requires
        0 <= from <= i < tiers.len(),
        forall|k: int|
            from <= k < i ==> guided(index_view((#[trigger] tiers[k]).index@), files[k]@, key)
                == Some(None::<Seq<char>>),
        guided(index_view(tiers[i].index@), files[i]@, key) != Some(None::<Seq<char>>),
    ensures
        found_in_tiers(tiers, files, key, from) == guided(
            index_view(tiers[i].index@),
            files[i]@,
            key,
        ),
    decreases i - from,
{
    if from < i {
        assert(guided(index_view(tiers[from].index@), files[from]@, key) == Some(None::<Seq<char>>));
        lemma_skip_empty_tiers(tiers, files, key, i, from + 1);
    }
}

/// Read-your-writes: after any writes, a key holds the value of the last
/// write made to it.
pub proof fn law_last_write_wins(
    m: Map<Seq<char>, Seq<char>>,
    puts: Seq<(Seq<char>, Seq<char>)>,
    i: int,
)
    requires
        0 <= i < puts.len(),
        forall|j: int| i < j < puts.len() ==> puts[j].0 != puts[i].0,
    ensures
        after_puts(m, puts).contains_key(puts[i].0),
        after_puts(m, puts)[puts[i].0] == puts[i].1,
    decreases puts.len(),
{
    if i < puts.len() - 1 {
        law_last_write_wins(m, puts.drop_last(), i);
    }
}

/// A key that no write named is held exactly as it was before the writes: one
/// that was absent stays absent.
pub proof fn law_unwritten_key_untouched(
    m: Map<Seq<char>, Seq<char>>,
    puts: Seq<(Seq<char>, Seq<char>)>,
    key: Seq<char>,
)
    requires
        forall|j: int| 0 <= j < puts.len() ==> puts[j].0 != key,
    ensures
        after_puts(m, puts).contains_key(key) == m.contains_key(key),
        m.contains_key(key) ==> after_puts(m, puts)[key] == m[key],
    decreases puts.len(),
{
    if puts.len() > 0 {
        law_unwritten_key_untouched(m, puts.drop_last(), key);
    }
}

/// Durability: a store that was opened on the log `b` with the table `m`, and
/// whose log has since grown by the lines `ls` of the writes `puts`, opens
/// again with the table that those writes have left. Each line is one that
/// reads back as its write and holds no terminator, and `b` is empty or ends
/// in a terminator.
pub proof fn law_reopen_reproduces_table(
    b: Seq<u8>,
    m: Map<Seq<char>, Seq<char>>,
    ls: Seq<Seq<u8>>,
    puts: Seq<(Seq<char>, Seq<char>)>,
)
    requires
        replayed(b) == Some(m),
        b.len() == 0 || b.last() == NEWLINE,
        unbroken(ls),
        puts.len() == ls.len(),
        forall|i: int| 0 <= i < ls.len() ==> decoded(#[trigger] ls[i]) == Some(puts[i]),
    ensures
        replayed(b + joined(ls)) == Some(after_puts(m, puts)),
    decreases ls.len(),
{
    if ls.len() == 0 {
        assert(b + joined(ls) =~= b);
    } else {
        let front = ls.drop_last();
        law_reopen_reproduces_table(b, m, front, puts.drop_last());
        lemma_joined_ends(front);
        assert(decoded(ls[ls.len() - 1]) == Some(puts[ls.len() - 1]));
        law_replay_after_append(
            b + joined(front),
            ls.last(),
            puts.last().0,
            puts.last().1,
            after_puts(m, puts.drop_last()),
        );
        assert(b + joined(ls) =~= (b + joined(front)) + ls.last().push(NEWLINE));
    }
}

/// The values of a sequence of records.
pub open spec fn record_values(data: Seq<Put>) -> Seq<Seq<char>> {
    Seq::new(data.len(), |i: int| data[i].value@)
}

/// A flush loses nothing: a key that the table held is found with the same
/// value once the table is empty and the segment of its entries is the
/// newest. The lines of the records are such as read back as their records
/// and hold no terminator.
pub proof fn law_flush_keeps_values(
    m: Map<Seq<char>, Seq<char>>,
    records: Seq<Put>,
    sst: Sst,
    data: Vec<u8>,
    tiers: Seq<Sst>,
    files: Seq<Vec<u8>>,
    key: Seq<char>,
)
    requires
        lists(records, m),
        lines_hold(record_lines(records), record_keys(records), record_values(records)),
        is_sparse_index(index_view(sst.index@), record_keys(records), record_lines(records)),
        data@ == joined(record_lines(records)),
        m.contains_key(key),
    ensures
        found(Map::empty(), seq![sst] + tiers, seq![data] + files, key) == Some(Some(m[key])),
{
    assert(has_key(records, key));
    let p = choose|p: int| 0 <= p < records.len() && (#[trigger] records[p]).key@ == key;
    law_guided_lookup_agrees(
        index_view(sst.index@),
        record_lines(records),
        record_keys(records),
        record_values(records),
        p,
    );
    assert((seq![sst] + tiers)[0] == sst);
    assert((seq![data] + files)[0] == data);
}

} // verus!
