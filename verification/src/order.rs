use vstd::prelude::*;
use vstd::utf8::encode_utf8;

verus! {

/// The order of byte strings from place `i` on, the places before it being
/// equal: the first differing byte decides, and a prefix comes first.
pub open spec fn bytes_le_from(a: Seq<u8>, b: Seq<u8>, i: int) -> bool
    decreases a.len() - i,
{
    if i < 0 || i >= a.len() {
        true
    } else if i >= b.len() {
        false
    } else if a[i] != b[i] {
        a[i] < b[i]
    } else {
        bytes_le_from(a, b, i + 1)
    }
}

/// The order of keys: that of their UTF-8 bytes, which is the order that
/// strings have by `<=`.
pub open spec fn key_le(a: Seq<char>, b: Seq<char>) -> bool {
    bytes_le_from(encode_utf8(a), encode_utf8(b), 0)
}

/// True where the keys ascend strictly.
pub open spec fn strictly_sorted(keys: Seq<Seq<char>>) -> bool {
    forall|i: int, j: int|
        0 <= i < j < keys.len() ==> key_le(#[trigger] keys[i], #[trigger] keys[j]) && !key_le(
            keys[j],
            keys[i],
        )
}

/// Every byte string is at most itself.
pub proof fn lemma_bytes_le_reflexive(a: Seq<u8>, i: int)
    requires
        0 <= i,
    ensures
        bytes_le_from(a, a, i),
    decreases a.len() - i,
{
    if i < a.len() {
        lemma_bytes_le_reflexive(a, i + 1);
    }
}

/// Every key is at most itself.
pub proof fn lemma_key_le_reflexive(a: Seq<char>)
    ensures
        key_le(a, a),
{
    lemma_bytes_le_reflexive(encode_utf8(a), 0);
}

/// Tells whether the key `a` is at most the key `b`.
pub fn key_at_most(a: &str, b: &str) -> (r: bool)
    ensures
        r == key_le(a@, b@),
{
    let x = a.as_bytes();
    let y = b.as_bytes();
    let mut i: usize = 0;
    while i < x.len() && i < y.len() && x[i] == y[i]
        invariant
            i <= x@.len(),
            i <= y@.len(),
            bytes_le_from(x@, y@, 0) == bytes_le_from(x@, y@, i as int),
        decreases x@.len() - i,
    {
        i += 1;
    }
    if i >= x.len() {
        true
    } else if i >= y.len() {
        false
    } else {
        x[i] < y[i]
    }
}

/// The order of byte strings is transitive.
pub proof fn lemma_bytes_le_transitive(a: Seq<u8>, b: Seq<u8>, c: Seq<u8>, i: int)
    requires
        0 <= i,
        bytes_le_from(a, b, i),
        bytes_le_from(b, c, i),
    ensures
        bytes_le_from(a, c, i),
    decreases a.len() - i,
{
    if i < a.len() && a[i] == b[i] && b[i] == c[i] {
        lemma_bytes_le_transitive(a, b, c, i + 1);
    }
}

/// The order of keys is transitive.
pub proof fn lemma_key_le_transitive(a: Seq<char>, b: Seq<char>, c: Seq<char>)
    requires
        key_le(a, b),
        key_le(b, c),
    ensures
        key_le(a, c),
{
    lemma_bytes_le_transitive(encode_utf8(a), encode_utf8(b), encode_utf8(c), 0);
}

/// Keys that ascend strictly, followed by a key that is strictly above the
/// last of them, ascend strictly.
pub proof fn lemma_sorted_push(keys: Seq<Seq<char>>, next: Seq<char>)
    requires
        strictly_sorted(keys),
        keys.len() > 0 ==> key_le(keys.last(), next) && !key_le(next, keys.last()),
    ensures
        strictly_sorted(keys.push(next)),
{
    let longer = keys.push(next);
    assert forall|i: int, j: int| 0 <= i < j < longer.len() implies key_le(
        #[trigger] longer[i],
        #[trigger] longer[j],
    ) && !key_le(longer[j], longer[i]) by {
        if j == keys.len() && i < keys.len() - 1 {
            assert(key_le(keys[i], keys[keys.len() - 1]));
            lemma_key_le_transitive(keys[i], keys.last(), next);
            if key_le(next, keys[i]) {
                lemma_key_le_transitive(next, keys[i], keys.last());
            }
        } else if j < keys.len() {
            assert(key_le(keys[i], keys[j]));
        }
    }
}

/// Of two byte strings one is at most the other.
pub proof fn lemma_bytes_le_total(a: Seq<u8>, b: Seq<u8>, i: int)
    requires
        0 <= i,
    ensures
        bytes_le_from(a, b, i) || bytes_le_from(b, a, i),
    decreases a.len() - i,
{
    if i < a.len() && i < b.len() && a[i] == b[i] {
        lemma_bytes_le_total(a, b, i + 1);
    }
}

/// Two byte strings that are each at most the other from place `i` on are
/// of one length and equal from there on.
pub proof fn lemma_bytes_le_antisymmetric(a: Seq<u8>, b: Seq<u8>, i: int)
    requires
        0 <= i <= a.len(),
        i <= b.len(),
        bytes_le_from(a, b, i),
        bytes_le_from(b, a, i),
    ensures
        a.len() == b.len(),
        forall|k: int| i <= k < a.len() ==> a[k] == b[k],
    decreases a.len() - i,
{
    if i < a.len() {
        lemma_bytes_le_antisymmetric(a, b, i + 1);
    }
}

/// Of two keys one is at most the other.
pub proof fn lemma_key_le_total(a: Seq<char>, b: Seq<char>)
    ensures
        key_le(a, b) || key_le(b, a),
{
    lemma_bytes_le_total(encode_utf8(a), encode_utf8(b), 0);
}

/// Two keys that are each at most the other are one key.
pub proof fn lemma_key_le_antisymmetric(a: Seq<char>, b: Seq<char>)
    requires
        key_le(a, b),
        key_le(b, a),
    ensures
        a == b,
{
    lemma_bytes_le_antisymmetric(encode_utf8(a), encode_utf8(b), 0);
    assert(encode_utf8(a) =~= encode_utf8(b));
    vstd::utf8::encode_utf8_decode_utf8(a);
    vstd::utf8::encode_utf8_decode_utf8(b);
}

/// Keys that ascend strictly still do so with one more key put in at its
/// place: behind the keys that are at most it, before the first that is not.
pub proof fn lemma_sorted_insert(keys: Seq<Seq<char>>, p: int, x: Seq<char>)
    requires
        strictly_sorted(keys),
        0 <= p <= keys.len(),
        forall|j: int| 0 <= j < p ==> key_le(#[trigger] keys[j], x),
        p < keys.len() ==> !key_le(keys[p], x),
        forall|j: int| 0 <= j < keys.len() ==> #[trigger] keys[j] != x,
    ensures
        strictly_sorted(keys.insert(p, x)),
{
    let longer = keys.insert(p, x);
    assert forall|i: int, j: int| 0 <= i < j < longer.len() implies key_le(
        #[trigger] longer[i],
        #[trigger] longer[j],
    ) && !key_le(longer[j], longer[i]) by {
        if j < p {
            assert(key_le(keys[i], keys[j]));
        } else if j == p {
            assert(key_le(keys[i], x));
            if key_le(x, keys[i]) {
                lemma_key_le_antisymmetric(x, keys[i]);
            }
        } else if i < p {
            assert(key_le(keys[i], keys[j - 1]));
        } else if i == p {
            if j - 1 > p {
                assert(key_le(keys[p], keys[j - 1]));
                if key_le(keys[j - 1], x) {
                    lemma_key_le_transitive(keys[p], keys[j - 1], x);
                }
            }
            lemma_key_le_total(x, keys[j - 1]);
        } else {
            assert(key_le(keys[i - 1], keys[j - 1]));
        }
    }
}

} // verus!
