use crate::error::DbError;
use crate::memtable::Memtable;
use crate::record::{decoded, encoded, one_line, Put, NEWLINE};
use vstd::prelude::*;
use vstd::slice::slice_subrange;

verus! {

/// Where the line that starts at `start` ends: the place of the next
/// terminator, or the end of `b` where there is none.
pub open spec fn line_end(b: Seq<u8>, start: int) -> int
    decreases b.len() - start,
{
    if start < 0 || start >= b.len() {
        b.len() as int
    } else if b[start] == NEWLINE {
        start
    } else {
        line_end(b, start + 1)
    }
}

/// A line ends at or after its start, at a terminator or at the end of the
/// bytes, and holds no terminator.
pub proof fn lemma_line_end(b: Seq<u8>, start: int)
    requires
        0 <= start <= b.len(),
    ensures
        start <= line_end(b, start) <= b.len(),
        line_end(b, start) < b.len() ==> b[line_end(b, start)] == NEWLINE,
        forall|i: int| start <= i < line_end(b, start) ==> b[i] != NEWLINE,
    decreases b.len() - start,
{
    if start < b.len() && b[start] != NEWLINE {
        lemma_line_end(b, start + 1);
    }
}

/// The lines of `b` from `start` on, without their terminators. A last line
/// need not be terminated; after a final terminator no empty line follows.
pub open spec fn lines_from(b: Seq<u8>, start: int) -> Seq<Seq<u8>>
    decreases b.len() + 1 - start,
    via lines_from_decreases
{
    if start < 0 || start >= b.len() {
        Seq::empty()
    } else {
        seq![b.subrange(start, line_end(b, start))] + lines_from(b, line_end(b, start) + 1)
    }
}

#[via_fn]
proof fn lines_from_decreases(b: Seq<u8>, start: int) {
    if 0 <= start < b.len() {
        lemma_line_end(b, start);
    }
}

/// The lines of a file.
pub open spec fn lines(b: Seq<u8>) -> Seq<Seq<u8>> {
    lines_from(b, 0)
}

/// True where every line stands for a record.
pub open spec fn well_formed(ls: Seq<Seq<u8>>) -> bool {
    forall|i: int| 0 <= i < ls.len() ==> (#[trigger] decoded(ls[i])) is Some
}

/// The table that the records of `ls` leave, written in order from an empty
/// table: the last record of a key decides its value.
pub open spec fn table_of(ls: Seq<Seq<u8>>) -> Map<Seq<char>, Seq<char>>
    decreases ls.len(),
{
    if ls.len() == 0 {
        Map::empty()
    } else {
        match decoded(ls.last()) {
            Some((k, v)) => table_of(ls.drop_last()).insert(k, v),
            None => table_of(ls.drop_last()),
        }
    }
}

/// What replaying a log gives: the table of its records, or `None` where a
/// line is malformed.
pub open spec fn replayed(b: Seq<u8>) -> Option<Map<Seq<char>, Seq<char>>> {
    if well_formed(lines(b)) {
        Some(table_of(lines(b)))
    } else {
        None
    }
}

/// Finds the end of the line that starts at `start`: the place of the next
/// terminator, or the length of `b` where none follows or `start` lies behind
/// the end.
pub fn find_line_end(b: &[u8], start: usize) -> (end: usize)
    ensures
        end == line_end(b@, start as int),
        end <= b@.len(),
        start <= b@.len() ==> start <= end,
{
    if start >= b.len() {
        return b.len();
    }
    let mut i: usize = start;
    while i < b.len() && b[i] != NEWLINE
        invariant
            start <= i <= b@.len(),
            line_end(b@, start as int) == line_end(b@, i as int),
        decreases b@.len() - i,
    {
        i += 1;
    }
    proof {
        lemma_line_end(b@, start as int);
    }
    i
}

/// The line that records `value` under `key`, with its terminator: what an
/// append writes to the log. Every key and value has one: the call succeeds.
pub fn entry(key: &str, value: &str) -> (r: Result<Vec<u8>, DbError>)
    ensures
        r matches Ok(b) && b@ == encoded(key@, value@).push(NEWLINE) && one_line(
            encoded(key@, value@),
        ),
{
    let put = Put { key: key.to_owned(), value: value.to_owned() };
    match put.encode() {
        Ok(mut line) => {
            line.push(NEWLINE);
            Ok(line)
        },
        Err(e) => Err(e),
    }
}

/// Replays a log into a fresh table. A malformed line aborts the replay with
/// an encoding error: there is no partial recovery.
pub fn hydrate(contents: &[u8]) -> (r: Result<Memtable, DbError>)
    ensures
        match r {
            Ok(m) => replayed(contents@) == Some(m@),
            Err(e) => replayed(contents@) is None && e.is_encoding(),
        },
{
    let mut table = Memtable::new();
    let mut pos: usize = 0;
    let ghost mut done: Seq<Seq<u8>> = Seq::empty();
    while pos < contents.len()
        invariant
            pos <= contents@.len(),
            lines(contents@) == done + lines_from(contents@, pos as int),
            well_formed(done),
            table@ == table_of(done),
        decreases contents@.len() - pos,
    {
        let end = find_line_end(contents, pos);
        let line = slice_subrange(contents, pos, end);
        proof {
            assert(done + (seq![line@] + lines_from(contents@, end + 1)) =~= done.push(line@)
                + lines_from(contents@, end + 1));
            assert(done.push(line@).drop_last() =~= done);
            assert(done.push(line@).last() == line@);
            if end == contents@.len() {
                assert(lines_from(contents@, end + 1) == lines_from(contents@, end as int));
            }
        }
        match Put::decode(line) {
            Ok(put) => {
                table.put(put.key, put.value);
            },
            Err(e) => {
                proof {
                    assert(lines(contents@)[done.len() as int] == line@);
                }
                return Err(e);
            },
        }
        proof {
            done = done.push(line@);
        }
        pos = if end < contents.len() {
            end + 1
        } else {
            end
        };
    }
    proof {
        assert(lines(contents@) =~= done);
    }
    Ok(table)
}

/// The value that a log holds for `key`, by a scan of the whole log: that of
/// the last record of the key. A malformed line anywhere fails the scan.
pub fn get(contents: &[u8], key: &str) -> (r: Result<Option<String>, DbError>)
    ensures
        match r {
            Ok(Some(v)) => replayed(contents@) matches Some(m) && m.contains_key(key@) && m[key@]
                == v@,
            Ok(None) => replayed(contents@) matches Some(m) && !m.contains_key(key@),
            Err(e) => replayed(contents@) is None && e.is_encoding(),
        },
{
    let wanted = key.to_owned();
    let mut result: Option<String> = None;
    let mut pos: usize = 0;
    let ghost mut done: Seq<Seq<u8>> = Seq::empty();
    while pos < contents.len()
        invariant
            pos <= contents@.len(),
            lines(contents@) == done + lines_from(contents@, pos as int),
            well_formed(done),
            wanted@ == key@,
            match result {
                Some(v) => table_of(done).contains_key(key@) && table_of(done)[key@] == v@,
                None => !table_of(done).contains_key(key@),
            },
        decreases contents@.len() - pos,
    {
        let end = find_line_end(contents, pos);
        let line = slice_subrange(contents, pos, end);
        proof {
            assert(done + (seq![line@] + lines_from(contents@, end + 1)) =~= done.push(line@)
                + lines_from(contents@, end + 1));
            assert(done.push(line@).drop_last() =~= done);
            assert(done.push(line@).last() == line@);
            if end == contents@.len() {
                assert(lines_from(contents@, end + 1) == lines_from(contents@, end as int));
            }
        }
        match Put::decode(line) {
            Ok(put) => {
                if put.key == wanted {
                    result = Some(put.value);
                }
            },
            Err(e) => {
                proof {
                    assert(lines(contents@)[done.len() as int] == line@);
                }
                return Err(e);
            },
        }
        proof {
            done = done.push(line@);
        }
        pos = if end < contents.len() {
            end + 1
        } else {
            end
        };
    }
    proof {
        assert(lines(contents@) =~= done);
    }
    Ok(result)
}

/// The line that starts at `start` ends at `end` where no terminator stands
/// between them and `end` is a terminator or the end of the bytes.
pub proof fn lemma_line_end_is(b: Seq<u8>, start: int, end: int)
    requires
        0 <= start <= end <= b.len(),
        forall|i: int| start <= i < end ==> b[i] != NEWLINE,
        end == b.len() || b[end] == NEWLINE,
    ensures
        line_end(b, start) == end,
    decreases end - start,
{
    if start < end {
        lemma_line_end_is(b, start + 1, end);
    }
}

/// Appending one terminated line to bytes that are empty or end in a
/// terminator adds that line to their lines, seen from any place in them.
pub proof fn lemma_lines_from_append(b: Seq<u8>, line: Seq<u8>, start: int)
    requires
        0 <= start <= b.len(),
        b.len() == 0 || b.last() == NEWLINE,
        one_line(line),
    ensures
        lines_from(b + line.push(NEWLINE), start) == lines_from(b, start).push(line),
    decreases b.len() - start,
{
    let whole = b + line.push(NEWLINE);
    if start == b.len() {
        lemma_line_end_is(whole, start, start + line.len());
        assert(whole.subrange(start, start + line.len()) =~= line);
        assert(lines_from(whole, start + line.len() + 1) =~= Seq::<Seq<u8>>::empty());
        assert(lines_from(b, start) =~= Seq::<Seq<u8>>::empty());
        assert(lines_from(whole, start) =~= lines_from(b, start).push(line));
    } else {
        lemma_line_end(b, start);
        let end = line_end(b, start);
        assert(end < b.len());
        lemma_line_end_is(whole, start, end);
        assert(whole.subrange(start, end) =~= b.subrange(start, end));
        lemma_lines_from_append(b, line, end + 1);
        assert(lines_from(whole, start) =~= lines_from(b, start).push(line));
    }
}

/// Durability: a log that replays to the table `m`, extended by the line of
/// one more record, replays to `m` with that record written. The log is empty
/// or ends in a terminator, and the line is one that reads back as the record
/// and holds no terminator.
pub proof fn law_replay_after_append(
    b: Seq<u8>,
    line: Seq<u8>,
    key: Seq<char>,
    value: Seq<char>,
    m: Map<Seq<char>, Seq<char>>,
)
    requires
        replayed(b) == Some(m),
        b.len() == 0 || b.last() == NEWLINE,
        one_line(line),
        decoded(line) == Some((key, value)),
    ensures
        replayed(b + line.push(NEWLINE)) == Some(m.insert(key, value)),
{
    lemma_lines_from_append(b, line, 0);
    let ls = lines(b).push(line);
    assert(ls.drop_last() =~= lines(b));
    assert(ls.last() == line);
    assert forall|i: int| 0 <= i < ls.len() implies (#[trigger] decoded(ls[i])) is Some by {
        if i < lines(b).len() {
            assert(ls[i] == lines(b)[i]);
        }
    }
}

/// A log without a malformed line, cut after any of its lines, replays to the
/// table of the lines before the cut: what was not appended has no effect.
pub proof fn law_replay_of_prefix(b: Seq<u8>, line: Seq<u8>)
    requires
        b.len() == 0 || b.last() == NEWLINE,
        one_line(line),
        replayed(b + line.push(NEWLINE)) is Some,
    ensures
        replayed(b) == Some(table_of(lines(b))),
        lines(b) == lines(b + line.push(NEWLINE)).drop_last(),
{
    lemma_lines_from_append(b, line, 0);
    let ls = lines(b).push(line);
    assert(ls.drop_last() =~= lines(b));
    assert forall|i: int| 0 <= i < lines(b).len() implies (#[trigger] decoded(lines(b)[i])) is Some by {
        assert(ls[i] == lines(b)[i]);
    }
}

} // verus!
