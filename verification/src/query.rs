use crate::error::DbError;
use crate::lookup::{guided, value_view};
use crate::memtable::Memtable;
use crate::segment::{index_view, Sst};
use crate::wal::replayed;
use vstd::prelude::*;

verus! {

/// What a table holds for `key`.
pub open spec fn held(m: Map<Seq<char>, Seq<char>>, key: Seq<char>) -> Option<Seq<char>> {
    if m.contains_key(key) {
        Some(m[key])
    } else {
        None
    }
}

/// A tier of the store that can be asked for the value of a key: the table,
/// the log, a segment.
pub trait Queryable {
    /// What the tier holds for `key`: `Some(Some(v))` for the value `v`,
    /// `Some(None)` where it has none, `None` where asking fails.
    spec fn answer(&self, key: Seq<char>) -> Option<Option<Seq<char>>>;

    /// Asks the tier for the value of `key`. An absent key is no failure.
    fn get(&self, key: &str) -> (r: Result<Option<String>, DbError>)
        ensures
            match r {
                Ok(v) => self.answer(key@) == Some(value_view(v)),
                Err(e) => self.answer(key@) is None && e.is_encoding(),
            },
    ;
}

/// The log as a tier: the contents of its file.
pub struct Log<'a> {
    pub contents: &'a [u8],
}

/// A segment as a tier: its index and the contents of its data file.
pub struct Segment<'a> {
    pub sst: &'a Sst,
    pub data: &'a [u8],
}

impl Queryable for Memtable {
    open spec fn answer(&self, key: Seq<char>) -> Option<Option<Seq<char>>> {
        Some(held(self@, key))
    }

    fn get(&self, key: &str) -> (r: Result<Option<String>, DbError>) {
        Ok(Memtable::get(self, key))
    }
}

impl<'a> Queryable for Log<'a> {
    open spec fn answer(&self, key: Seq<char>) -> Option<Option<Seq<char>>> {
        match replayed(self.contents@) {
            Some(m) => Some(held(m, key)),
            None => None,
        }
    }

    fn get(&self, key: &str) -> (r: Result<Option<String>, DbError>) {
        crate::wal::get(self.contents, key)
    }
}

impl<'a> Queryable for Segment<'a> {
    open spec fn answer(&self, key: Seq<char>) -> Option<Option<Seq<char>>> {
        guided(index_view(self.sst.index@), self.data@, key)
    }

    fn get(&self, key: &str) -> (r: Result<Option<String>, DbError>) {
        self.sst.get(self.data, key)
    }
}

/// What the tiers from number `from` on hold for `key`: the answer of the
/// first that has a value or fails, `Some(None)` where every one has none.
pub open spec fn first_answer<T: Queryable>(tiers: Seq<T>, key: Seq<char>, from: int) -> Option<
    Option<Seq<char>>,
>
    decreases tiers.len() - from,
{
    if from < 0 || from >= tiers.len() {
        Some(None)
    } else {
        match tiers[from].answer(key) {
            Some(None) => first_answer(tiers, key, from + 1),
            other => other,
        }
    }
}

/// Asks the tiers in order and hands out the first value found.
pub fn first_hit<T: Queryable>(tiers: &Vec<T>, key: &str) -> (r: Result<Option<String>, DbError>)
    ensures
        match r {
            Ok(v) => first_answer(tiers@, key@, 0) == Some(value_view(v)),
            Err(e) => first_answer(tiers@, key@, 0) is None && e.is_encoding(),
        },
{
    let mut i: usize = 0;
    while i < tiers.len()
        invariant
            i <= tiers@.len(),
            first_answer(tiers@, key@, 0) == first_answer(tiers@, key@, i as int),
        decreases tiers@.len() - i,
    {
        match tiers[i].get(key) {
            Ok(Some(v)) => {
                return Ok(Some(v));
            },
            Ok(None) => {},
            Err(e) => {
                return Err(e);
            },
        }
        i += 1;
    }
    Ok(None)
}

} // verus!
