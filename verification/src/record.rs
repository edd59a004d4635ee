use crate::error::DbError;
use vstd::prelude::*;

verus! {

/// One mutation: `value` written under `key`.
#[derive(Debug)]
pub struct Put {
    pub key: String,
    pub value: String,
}

impl View for Put {
    type V = (Seq<char>, Seq<char>);

    open spec fn view(&self) -> (Seq<char>, Seq<char>) {
        (self.key@, self.value@)
    }
}

/// The line terminator.
pub const NEWLINE: u8 = 0x0au8;

/// True where the bytes hold no line terminator, so that they fit on one
/// line.
pub open spec fn one_line(b: Seq<u8>) -> bool {
    forall|i: int| 0 <= i < b.len() ==> b[i] != NEWLINE
}

/// The JSON text of a string, as `serde_json::to_vec` writes it: the quoted,
/// escaped UTF-8 form.
pub uninterp spec fn json_text(s: Seq<char>) -> Seq<u8>;

/// What `serde_json::from_slice` reads from a line as a map from strings to
/// strings: its members in the order of their names, or `None` where the line
/// is refused. A map holds each name once: of members that share a name the
/// codec keeps one.
pub uninterp spec fn json_object(line: Seq<u8>) -> Option<Seq<(Seq<char>, Seq<char>)>>;

/// The bytes `{"key":`.
pub open spec fn key_prefix() -> Seq<u8> {
    seq![0x7bu8, 0x22u8, 0x6bu8, 0x65u8, 0x79u8, 0x22u8, 0x3au8]
}

/// The bytes `,"value":`.
pub open spec fn value_prefix() -> Seq<u8> {
    seq![0x2cu8, 0x22u8, 0x76u8, 0x61u8, 0x6cu8, 0x75u8, 0x65u8, 0x22u8, 0x3au8]
}

/// The byte `}`.
pub open spec fn object_end() -> Seq<u8> {
    seq![0x7du8]
}

/// The text of a record whose key and value have the JSON texts `key_json` and
/// `value_json`: an object with the members `key` and `value`, in that order,
/// without white space.
pub open spec fn record_frame(key_json: Seq<u8>, value_json: Seq<u8>) -> Seq<u8> {
    key_prefix() + key_json + value_prefix() + value_json + object_end()
}

/// The text of the record `(key, value)`.
pub open spec fn encoded(key: Seq<char>, value: Seq<char>) -> Seq<u8> {
    record_frame(json_text(key), json_text(value))
}

/// The members of a parsed object, each as a pair of views.
pub open spec fn pairs_view(fields: Seq<(String, String)>) -> Seq<(Seq<char>, Seq<char>)> {
    Seq::new(fields.len(), |i: int| (fields[i].0@, fields[i].1@))
}

/// The record that an object's members stand for: there are exactly two, named
/// `key` and `value`, in either order.
pub open spec fn record_of(fields: Seq<(Seq<char>, Seq<char>)>) -> Option<(Seq<char>, Seq<char>)> {
    if fields.len() == 2 && fields[0].0 == "key"@ && fields[1].0 == "value"@ {
        Some((fields[0].1, fields[1].1))
    } else if fields.len() == 2 && fields[0].0 == "value"@ && fields[1].0 == "key"@ {
        Some((fields[1].1, fields[0].1))
    } else {
        None
    }
}

/// The record that a line of a log or of a segment stands for, or `None` where
/// the line is malformed.
pub open spec fn decoded(line: Seq<u8>) -> Option<(Seq<char>, Seq<char>)> {
    match json_object(line) {
        Some(fields) => record_of(fields),
        None => None,
    }
}

/// Calls `serde_json::to_vec` on a string. The call succeeds: the codec
/// writes into a vector, and for a string it has no failure but one of the
/// writer. The bytes are the JSON text of the string, and no line terminator
/// is among them: the codec writes every control character as an escape.
#[verifier::external_body]
fn json_string(s: &str) -> (r: Result<Vec<u8>, serde_json::Error>)
    ensures
        r is Ok,
        r matches Ok(b) ==> b@ == json_text(s@) && one_line(b@),
{
    serde_json::to_vec(s)
}

/// Calls `serde_json::from_slice` for a map from strings to strings and hands
/// its members out in the map's order. The call succeeds exactly on the lines
/// that have such a map, and the members are those of the map.
#[verifier::external_body]
fn json_members(line: &[u8]) -> (r: Result<Vec<(String, String)>, serde_json::Error>)
    ensures
        match r {
            Ok(fields) => json_object(line@) == Some(pairs_view(fields@)),
            Err(_) => json_object(line@) is None,
        },
{
    let m: std::collections::BTreeMap<String, String> = serde_json::from_slice(line)?;
    Ok(m.into_iter().collect())
}

/// Appends `src` to `out`.
pub fn append_bytes(out: &mut Vec<u8>, src: &[u8])
    ensures
        final(out)@ == old(out)@ + src@,
{
    out.extend_from_slice(src);
    assert(out@ =~= old(out)@ + src@);
}

/// A record is on one line where the texts of its key and of its value are.
pub proof fn lemma_frame_one_line(key_json: Seq<u8>, value_json: Seq<u8>)
    requires
        one_line(key_json),
        one_line(value_json),
    ensures
        one_line(record_frame(key_json, value_json)),
{
}

/// Frames the JSON texts of a key and of a value as one record.
pub fn frame_record(key_json: &[u8], value_json: &[u8]) -> (out: Vec<u8>)
    ensures
        out@ == record_frame(key_json@, value_json@),
{
    let mut out: Vec<u8> = vec![0x7bu8, 0x22u8, 0x6bu8, 0x65u8, 0x79u8, 0x22u8, 0x3au8];
    assert(out@ =~= key_prefix());
    append_bytes(&mut out, key_json);
    let sep: Vec<u8> = vec![0x2cu8, 0x22u8, 0x76u8, 0x61u8, 0x6cu8, 0x75u8, 0x65u8, 0x22u8, 0x3au8];
    assert(sep@ =~= value_prefix());
    append_bytes(&mut out, sep.as_slice());
    append_bytes(&mut out, value_json);
    out.push(0x7du8);
    assert(out@ =~= record_frame(key_json@, value_json@));
    out
}

impl Put {
    /// The text of this record, on one line and without a line terminator.
    /// Every record has one: the call succeeds.
    pub fn encode(&self) -> (r: Result<Vec<u8>, DbError>)
        ensures
            r matches Ok(b) && b@ == encoded(self.key@, self.value@) && one_line(b@),
    {
        let key_json = match json_string(self.key.as_str()) {
            Ok(b) => b,
            Err(e) => {
                return Err(DbError::Serde(e));
            },
        };
        let value_json = match json_string(self.value.as_str()) {
            Ok(b) => b,
            Err(e) => {
                return Err(DbError::Serde(e));
            },
        };
        proof {
            lemma_frame_one_line(key_json@, value_json@);
        }
        Ok(frame_record(key_json.as_slice(), value_json.as_slice()))
    }

    /// The record that the members of a parsed object stand for.
    pub fn from_fields(fields: &Vec<(String, String)>) -> (r: Result<Put, DbError>)
        ensures
            match r {
                Ok(p) => record_of(pairs_view(fields@)) == Some(p@),
                Err(e) => record_of(pairs_view(fields@)) is None && e is Malformed,
            },
    {
        if fields.len() != 2 {
            return Err(DbError::Malformed);
        }
        let key_name = "key".to_owned();
        let value_name = "value".to_owned();
        if fields[0].0 == key_name && fields[1].0 == value_name {
            Ok(Put { key: fields[0].1.clone(), value: fields[1].1.clone() })
        } else if fields[0].0 == value_name && fields[1].0 == key_name {
            Ok(Put { key: fields[1].1.clone(), value: fields[0].1.clone() })
        } else {
            Err(DbError::Malformed)
        }
    }

    /// Reads one line back into a record. Fails with an encoding error exactly
    /// on the malformed lines. The line is read as a map, so a member whose
    /// name is repeated counts once.
    pub fn decode(line: &[u8]) -> (r: Result<Put, DbError>)
        ensures
            match r {
                Ok(p) => decoded(line@) == Some(p@),
                Err(e) => decoded(line@) is None && e.is_encoding(),
            },
    {
        match json_members(line) {
            Ok(fields) => Put::from_fields(&fields),
            Err(e) => Err(DbError::Serde(e)),
        }
    }
}

} // verus!
