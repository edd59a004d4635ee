use crate::order::{key_at_most, key_le, lemma_sorted_insert, strictly_sorted};
use crate::record::Put;
use vstd::hash_map::StringHashMap;
use vstd::prelude::*;

verus! {

/// The in-memory table: one value per key, the last one written.
pub struct Memtable {
    memtable: StringHashMap<String>,
    keys: Vec<String>,
}

impl View for Memtable {
    type V = Map<Seq<char>, Seq<char>>;

    closed spec fn view(&self) -> Map<Seq<char>, Seq<char>> {
        Map::new(
            |k: Seq<char>| self.memtable@.contains_key(k),
            |k: Seq<char>| self.memtable@[k]@,
        )
    }
}

/// The keys of a sequence of records.
pub open spec fn record_keys(data: Seq<Put>) -> Seq<Seq<char>> {
    Seq::new(data.len(), |i: int| data[i].key@)
}

/// True where one of the records has the key `k`.
pub open spec fn has_key(records: Seq<Put>, k: Seq<char>) -> bool {
    exists|j: int| 0 <= j < records.len() && (#[trigger] records[j]).key@ == k
}

/// True where one of the first `n` keys is `k`.
pub open spec fn names(keys: Seq<String>, n: int, k: Seq<char>) -> bool {
    exists|i: int| 0 <= i < n && (#[trigger] keys[i])@ == k
}

/// True where the records are the entries of the table `m`, each once, by
/// ascending keys.
pub open spec fn lists(records: Seq<Put>, m: Map<Seq<char>, Seq<char>>) -> bool {
    &&& strictly_sorted(record_keys(records))
    &&& forall|i: int|
        0 <= i < records.len() ==> m.contains_key((#[trigger] records[i]).key@) && m[records[i].key@]
            == records[i].value@
    &&& forall|k: Seq<char>| m.contains_key(k) ==> has_key(records, k)
}

impl Memtable {
    /// The list of keys names every key of the table once.
    #[verifier::type_invariant]
    closed spec fn listed(&self) -> bool {
        &&& forall|i: int|
            0 <= i < self.keys@.len() ==> self.memtable@.contains_key((#[trigger] self.keys@[i])@)
        &&& forall|k: Seq<char>|
            self.memtable@.contains_key(k) ==> names(self.keys@, self.keys@.len() as int, k)
        &&& forall|i: int, j: int|
            0 <= i < j < self.keys@.len() ==> (#[trigger] self.keys@[i])@ != (
            #[trigger] self.keys@[j])@
    }

    /// An empty table.
    pub fn new() -> (m: Self)
        ensures
            m@ == Map::<Seq<char>, Seq<char>>::empty(),
    {
        let m = Memtable { memtable: StringHashMap::new(), keys: Vec::new() };
        assert(m@ =~= Map::<Seq<char>, Seq<char>>::empty());
        m
    }

    /// Writes `value` under `key`, over whatever was there.
    pub fn put(&mut self, key: String, value: String)
        ensures
            final(self)@ == old(self)@.insert(key@, value@),
    {
        proof {
            use_type_invariant(&*self);
        }
        // The map and the list of keys change together: the table is taken
        // apart, updated and put back whole.
        let mut table = Memtable::new();
        core::mem::swap(self, &mut table);
        let Memtable { mut memtable, mut keys } = table;
        if !memtable.contains_key(key.as_str()) {
            keys.push(key.clone());
        }
        memtable.insert(key, value);
        assert forall|k: Seq<char>| memtable@.contains_key(k) implies names(
            keys@,
            keys@.len() as int,
            k,
        ) by {
            if old(self).memtable@.contains_key(k) {
                assert(names(old(self).keys@, old(self).keys@.len() as int, k));
                let i = choose|i: int|
                    0 <= i < old(self).keys@.len() && (#[trigger] old(self).keys@[i])@ == k;
                assert(keys@[i]@ == k);
            } else {
                assert(keys@[keys@.len() - 1]@ == k);
            }
        }
        *self = Memtable { memtable, keys };
        assert(self@ =~= old(self)@.insert(key@, value@));
    }

    /// The value last written under `key`, if any.
    pub fn get(&self, key: &str) -> (r: Option<String>)
        ensures
            self@.contains_key(key@) ==> (r matches Some(v) && v@ == self@[key@]),
            !self@.contains_key(key@) ==> r is None,
    {
        match self.memtable.get(key) {
            Some(v) => Some(v.clone()),
            None => None,
        }
    }

    /// Empties the table.
    pub fn clear(&mut self)
        ensures
            final(self)@ == Map::<Seq<char>, Seq<char>>::empty(),
    {
        *self = Memtable::new();
    }

    /// The entries of the table, each once, by ascending keys.
    pub fn entries(&self) -> (r: Vec<Put>)
        ensures
            lists(r@, self@),
    {
        proof {
            use_type_invariant(self);
        }
        let mut out: Vec<Put> = Vec::new();
        let mut n: usize = 0;
        while n < self.keys.len()
            invariant
                n <= self.keys@.len(),
                self.listed(),
                strictly_sorted(record_keys(out@)),
                forall|j: int|
                    0 <= j < out@.len() ==> names(self.keys@, n as int, (#[trigger] out@[j]).key@),
                forall|i: int| 0 <= i < n ==> has_key(out@, (#[trigger] self.keys@[i])@),
                forall|j: int|
                    0 <= j < out@.len() ==> self.memtable@.contains_key((#[trigger] out@[j]).key@)
                        && self.memtable@[out@[j].key@]@ == out@[j].value@,
            decreases self.keys@.len() - n,
        {
            let key = self.keys[n].clone();
            assert(self.memtable@.contains_key(self.keys@[n as int]@));
            let value = match self.memtable.get(key.as_str()) {
                Some(v) => v.clone(),
                None => String::new(),
            };
            let mut p: usize = 0;
            while p < out.len() && key_at_most(out[p].key.as_str(), key.as_str())
                invariant
                    p <= out@.len(),
                    forall|j: int| 0 <= j < p ==> key_le((#[trigger] out@[j]).key@, key@),
                decreases out@.len() - p,
            {
                p += 1;
            }
            let ghost before = out@;
            proof {
                let ks = record_keys(before);
                assert forall|j: int| 0 <= j < ks.len() implies #[trigger] ks[j] != key@ by {
                    assert(names(self.keys@, n as int, before[j].key@));
                    let i = choose|i: int| 0 <= i < n && (#[trigger] self.keys@[i])@ == before[j].key@;
                    assert(self.keys@[i]@ != self.keys@[n as int]@);
                }
                assert forall|j: int| 0 <= j < p implies key_le(#[trigger] ks[j], key@) by {
                    assert(key_le(before[j].key@, key@));
                }
                lemma_sorted_insert(ks, p as int, key@);
            }
            out.insert(p, Put { key, value });
            proof {
                assert(record_keys(out@) =~= record_keys(before).insert(p as int, key@));
                assert forall|j: int| 0 <= j < out@.len() implies names(
                    self.keys@,
                    n + 1,
                    (#[trigger] out@[j]).key@,
                ) by {
                    if j == p {
                        assert(self.keys@[n as int]@ == out@[j].key@);
                    } else {
                        let was = if j < p {
                            j
                        } else {
                            j - 1
                        };
                        assert(out@[j] == before[was]);
                        assert(names(self.keys@, n as int, before[was].key@));
                        let i = choose|i: int|
                            0 <= i < n && (#[trigger] self.keys@[i])@ == before[was].key@;
                        assert(self.keys@[i]@ == out@[j].key@);
                    }
                }
                assert forall|i: int| 0 <= i < n + 1 implies has_key(
                    out@,
                    (#[trigger] self.keys@[i])@,
                ) by {
                    if i < n {
                        assert(has_key(before, self.keys@[i]@));
                        let j = choose|j: int|
                            0 <= j < before.len() && (#[trigger] before[j]).key@ == self.keys@[i]@;
                        if j < p {
                            assert(out@[j] == before[j]);
                        } else {
                            assert(out@[j + 1] == before[j]);
                        }
                    } else {
                        assert(out@[p as int].key@ == self.keys@[i]@);
                    }
                }
                assert forall|j: int| 0 <= j < out@.len() implies self.memtable@.contains_key(
                    (#[trigger] out@[j]).key@,
                ) && self.memtable@[out@[j].key@]@ == out@[j].value@ by {
                    if j < p {
                        assert(out@[j] == before[j]);
                    } else if j > p {
                        assert(out@[j] == before[j - 1]);
                    }
                }
            }
            n += 1;
        }
        proof {
            assert forall|k: Seq<char>| self@.contains_key(k) implies has_key(out@, k) by {
                assert(names(self.keys@, self.keys@.len() as int, k));
                let i = choose|i: int| 0 <= i < self.keys@.len() && (#[trigger] self.keys@[i])@ == k;
                assert(has_key(out@, self.keys@[i]@));
            }
        }
        out
    }
}

} // verus!
