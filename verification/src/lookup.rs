use crate::error::DbError;
use crate::order::{key_at_most, key_le, lemma_key_le_reflexive, strictly_sorted};
use crate::record::{decoded, Put, NEWLINE};
use crate::segment::{
    index_view, is_sparse_index, joined, law_offset_addresses_line, offset_of, unbroken, Sst,
    INDEX_SPLIT,
};
use crate::wal::{find_line_end, lemma_line_end_is, line_end};
use vstd::prelude::*;
use vstd::slice::slice_subrange;

verus! {

/// The index entry at which the search for `key` starts: the last one whose
/// key is at most `key`, or the first one where there is none.
pub open spec fn slot(index: Seq<(Seq<char>, u64)>, key: Seq<char>) -> int
    decreases index.len(),
{
    if index.len() <= 1 {
        0
    } else if key_le(index.last().0, key) {
        index.len() - 1
    } else {
        slot(index.drop_last(), key)
    }
}

/// What a scan of at most `limit` lines of `b` from `start` finds for `key`:
/// the value of the first record with that key, `Some(None)` where none of
/// the lines has it, and `None` where a malformed line comes first.
pub open spec fn scanned(b: Seq<u8>, start: int, limit: nat, key: Seq<char>) -> Option<
    Option<Seq<char>>,
>
    decreases limit,
{
    if limit == 0 || start < 0 || start >= b.len() {
        Some(None)
    } else {
        match decoded(b.subrange(start, line_end(b, start))) {
            None => None,
            Some((k, v)) => if k == key {
                Some(Some(v))
            } else {
                scanned(b, line_end(b, start) + 1, (limit - 1) as nat, key)
            },
        }
    }
}

/// What a lookup guided by the index finds: nothing in a segment without
/// records, else what a scan of sixteen lines finds from the offset of the
/// entry that `slot` picks.
pub open spec fn guided(index: Seq<(Seq<char>, u64)>, b: Seq<u8>, key: Seq<char>) -> Option<
    Option<Seq<char>>,
> {
    if index.len() == 0 {
        Some(None)
    } else {
        scanned(b, index[slot(index, key)].1 as int, 16, key)
    }
}

/// The view of a value that may be absent.
pub open spec fn value_view(v: Option<String>) -> Option<Seq<char>> {
    match v {
        Some(s) => Some(s@),
        None => None,
    }
}

/// Scans at most `limit` lines of `data` from `start` for `key` and hands out
/// the value of the first record that has it. A malformed line met before
/// that fails the scan with an encoding error.
pub fn scan(data: &[u8], start: usize, limit: usize, key: &str) -> (r: Result<
    Option<String>,
    DbError,
>)
    ensures
        match r {
            Ok(v) => scanned(data@, start as int, limit as nat, key@) == Some(value_view(v)),
            Err(e) => scanned(data@, start as int, limit as nat, key@) is None && e.is_encoding(),
        },
{
    let wanted = key.to_owned();
    let mut pos: usize = start;
    let mut left: usize = limit;
    while left > 0 && pos < data.len()
        invariant
            wanted@ == key@,
            scanned(data@, start as int, limit as nat, key@) == scanned(
                data@,
                pos as int,
                left as nat,
                key@,
            ),
        decreases left,
    {
        let end = find_line_end(data, pos);
        let line = slice_subrange(data, pos, end);
        match Put::decode(line) {
            Ok(put) => {
                if put.key == wanted {
                    return Ok(Some(put.value));
                }
            },
            Err(e) => {
                return Err(e);
            },
        }
        left -= 1;
        if end < data.len() {
            pos = end + 1;
        } else {
            pos = end;
            assert(scanned(data@, end + 1, left as nat, key@) == Some(None::<Seq<char>>));
            assert(scanned(data@, end as int, left as nat, key@) == Some(None::<Seq<char>>));
        }
    }
    Ok(None)
}

impl Sst {
    /// The offset in the data file at which a lookup of `key` starts to scan,
    /// or `None` in a segment without records.
    pub fn locate(&self, key: &str) -> (r: Option<u64>)
        ensures
            self.index@.len() == 0 ==> r is None,
            self.index@.len() > 0 ==> r == Some(
                index_view(self.index@)[slot(index_view(self.index@), key@)].1,
            ),
    {
        if self.index.len() == 0 {
            return None;
        }
        let ghost all = index_view(self.index@);
        let mut j: usize = self.index.len();
        assert(all.take(j as int) =~= all);
        while j > 1
            invariant
                1 <= j <= self.index@.len(),
                all == index_view(self.index@),
                slot(all, key@) == slot(all.take(j as int), key@),
            decreases j,
        {
            assert(all.take(j as int).last() == self.index@[j - 1]@);
            assert(all.take(j as int).drop_last() =~= all.take(j - 1));
            if key_at_most(self.index[j - 1].key.as_str(), key) {
                return Some(self.index[j - 1].position);
            }
            j -= 1;
        }
        Some(self.index[0].position)
    }

    /// Looks `key` up in this segment, whose data file holds `data`: picks the
    /// index entry to start from and scans sixteen records from its offset.
    pub fn get(&self, data: &[u8], key: &str) -> (r: Result<Option<String>, DbError>)
        ensures
            match r {
                Ok(v) => guided(index_view(self.index@), data@, key@) == Some(value_view(v)),
                Err(e) => guided(index_view(self.index@), data@, key@) is None && e.is_encoding(),
            },
    {
        match self.locate(key) {
            None => Ok(None),
            Some(position) => {
                if position >= data.len() as u64 {
                    Ok(None)
                } else {
                    scan(data, position as usize, INDEX_SPLIT, key)
                }
            },
        }
    }
}

/// Looks `key` up by a scan of the whole data file.
pub fn full_scan(data: &[u8], key: &str) -> (r: Result<Option<String>, DbError>)
    ensures
        match r {
            Ok(v) => scanned(data@, 0, data@.len(), key@) == Some(value_view(v)),
            Err(e) => scanned(data@, 0, data@.len(), key@) is None && e.is_encoding(),
        },
{
    scan(data, 0, data.len(), key)
}

/// True where no line holds a terminator and line `i` reads back as the
/// record of `keys[i]` and `values[i]`.
pub open spec fn lines_hold(ls: Seq<Seq<u8>>, keys: Seq<Seq<char>>, values: Seq<Seq<char>>) -> bool {
    &&& keys.len() == ls.len()
    &&& values.len() == ls.len()
    &&& unbroken(ls)
    &&& forall|i: int| 0 <= i < ls.len() ==> decoded(#[trigger] ls[i]) == Some((keys[i], values[i]))
}

/// Each line starts where the line before it and its terminator end.
pub proof fn lemma_next_offset(ls: Seq<Seq<u8>>, i: int)
    requires
        0 <= i < ls.len(),
    ensures
        offset_of(ls, i + 1) == offset_of(ls, i) + ls[i].len() + 1,
{
    assert(ls.take(i + 1).drop_last() =~= ls.take(i));
    assert(ls.take(i + 1).last() == ls[i]);
}

/// A data file has at least one byte for each of its lines.
pub proof fn lemma_joined_len(ls: Seq<Seq<u8>>)
    ensures
        joined(ls).len() >= ls.len(),
    decreases ls.len(),
{
    if ls.len() > 0 {
        lemma_joined_len(ls.drop_last());
    }
}

/// A scan that starts at line `i` and may read as far as line `p` finds the
/// value of line `p` for its key, where no line from `i` to `p` has that key.
pub proof fn lemma_scan_reaches(
    ls: Seq<Seq<u8>>,
    keys: Seq<Seq<char>>,
    values: Seq<Seq<char>>,
    i: int,
    p: int,
    limit: nat,
)
    requires
        lines_hold(ls, keys, values),
        0 <= i <= p < ls.len(),
        p < i + limit,
        forall|q: int| i <= q < p ==> keys[q] != keys[p],
    ensures
        scanned(joined(ls), offset_of(ls, i), limit, keys[p]) == Some(Some(values[p])),
    decreases p - i,
{
    let b = joined(ls);
    let start = offset_of(ls, i);
    law_offset_addresses_line(ls, i);
    assert forall|k: int| start <= k < start + ls[i].len() implies b[k] != NEWLINE by {
        assert(b.subrange(start, start + ls[i].len())[k - start] == b[k]);
    }
    lemma_line_end_is(b, start, start + ls[i].len());
    lemma_next_offset(ls, i);
    if i < p {
        lemma_scan_reaches(ls, keys, values, i + 1, p, (limit - 1) as nat);
    }
}

/// Under ascending keys, the search for the key of line `p` starts at the
/// entry of the group of sixteen that holds line `p`.
pub proof fn lemma_slot_of_present_key(
    index: Seq<(Seq<char>, u64)>,
    keys: Seq<Seq<char>>,
    ls: Seq<Seq<u8>>,
    p: int,
    m: int,
)
    requires
        is_sparse_index(index, keys, ls),
        keys.len() == ls.len(),
        strictly_sorted(keys),
        0 <= p < ls.len(),
        p / 16 < m <= index.len(),
    ensures
        slot(index.take(m), keys[p]) == p / 16,
    decreases m,
{
    let part = index.take(m);
    assert(part.last() == index[m - 1]);
    assert(index[m - 1].0 == keys[16 * (m - 1)]);
    if m - 1 == p / 16 {
        if 16 * (m - 1) == p {
            lemma_key_le_reflexive(keys[p]);
        }
    } else {
        assert(part.drop_last() =~= index.take(m - 1));
        lemma_slot_of_present_key(index, keys, ls, p, m - 1);
    }
}

/// The index only saves work: for a key that a segment with ascending keys
/// holds, the lookup guided by the index and the scan of the whole data file
/// both find the value of the key's record.
pub proof fn law_guided_lookup_agrees(
    index: Seq<(Seq<char>, u64)>,
    ls: Seq<Seq<u8>>,
    keys: Seq<Seq<char>>,
    values: Seq<Seq<char>>,
    p: int,
)
    requires
        lines_hold(ls, keys, values),
        strictly_sorted(keys),
        is_sparse_index(index, keys, ls),
        0 <= p < ls.len(),
    ensures
        guided(index, joined(ls), keys[p]) == Some(Some(values[p])),
        scanned(joined(ls), 0, joined(ls).len(), keys[p]) == Some(Some(values[p])),
{
    lemma_slot_of_present_key(index, keys, ls, p, index.len() as int);
    assert(index.take(index.len() as int) =~= index);
    let first = 16 * (p / 16);
    lemma_scan_reaches(ls, keys, values, first, p, 16);
    lemma_joined_len(ls);
    assert(ls.take(0) =~= Seq::<Seq<u8>>::empty());
    lemma_scan_reaches(ls, keys, values, 0, p, joined(ls).len());
}

} // verus!
