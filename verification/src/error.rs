use vstd::prelude::*;

verus! {

/// `std::io::Error`, carried through as the cause of an I/O failure.
#[verifier::external_type_specification]
#[verifier::external_body]
pub struct ExIoError(std::io::Error);

/// `serde_json::Error`, carried through as the cause of an encoding failure.
#[verifier::external_type_specification]
#[verifier::external_body]
pub struct ExJsonError(serde_json::Error);

/// Why an operation of the store was aborted.
#[derive(Debug)]
pub enum DbError {
    /// A file could not be opened, read, written or synced.
    Io(std::io::Error),
    /// The JSON codec refused a value or a line.
    Serde(serde_json::Error),
    /// A line is valid JSON but not an object of exactly the two string
    /// fields `key` and `value`.
    Malformed,
}

/// The two kinds of failure that the store knows.
#[derive(Clone, Copy, Debug, PartialEq, Eq, Structural)]
pub enum ErrorKind {
    Io,
    Encoding,
}

/// How the description of an error of each kind begins.
pub open spec fn heading(kind: ErrorKind) -> Seq<char> {
    match kind {
        ErrorKind::Io => "IO error: "@,
        ErrorKind::Encoding => "Serde error: "@,
    }
}

/// What is said of a line that is JSON but no record.
pub open spec fn malformed_cause() -> Seq<char> {
    "not an object of the two strings key and value"@
}

/// The description of an error of the kind `kind` with the cause `cause`: the
/// heading of the kind, then the cause.
pub fn titled(kind: ErrorKind, cause: &str) -> (r: String)
    ensures
        r@ == heading(kind) + cause@,
{
    let head = match kind {
        ErrorKind::Io => "IO error: ",
        ErrorKind::Encoding => "Serde error: ",
    };
    head.to_owned().concat(cause)
}

impl DbError {
    /// The description of this error: the heading of its kind, then the cause
    /// in the words of whoever raised it.
    pub fn describe(&self) -> (r: String)
        ensures
            heading(self.spec_kind()).is_prefix_of(r@),
            self is Malformed ==> r@ == heading(ErrorKind::Encoding) + malformed_cause(),
    {
        let text = match self {
            DbError::Io(err) => {
                let cause = err.to_string();
                titled(ErrorKind::Io, cause.as_str())
            },
            DbError::Serde(err) => {
                let cause = err.to_string();
                titled(ErrorKind::Encoding, cause.as_str())
            },
            DbError::Malformed => titled(
                ErrorKind::Encoding,
                "not an object of the two strings key and value",
            ),
        };
        assert(heading(self.spec_kind()).is_prefix_of(text@)) by {
            let h = heading(self.spec_kind());
            assert(text@.subrange(0, h.len() as int) =~= h);
        }
        text
    }

    /// The kind that this error belongs to.
    pub open spec fn spec_kind(&self) -> ErrorKind {
        match self {
            DbError::Io(_) => ErrorKind::Io,
            DbError::Serde(_) => ErrorKind::Encoding,
            DbError::Malformed => ErrorKind::Encoding,
        }
    }

    /// True of every error raised by the codec or by a line of the wrong shape.
    pub open spec fn is_encoding(&self) -> bool {
        self.spec_kind() == ErrorKind::Encoding
    }

    #[verifier::when_used_as_spec(spec_kind)]
    pub fn kind(&self) -> (k: ErrorKind)
        ensures
            k == self.spec_kind(),
    {
        match self {
            DbError::Io(_) => ErrorKind::Io,
            DbError::Serde(_) => ErrorKind::Encoding,
            DbError::Malformed => ErrorKind::Encoding,
        }
    }
}

impl From<std::io::Error> for DbError {
    fn from(err: std::io::Error) -> (r: DbError) {
        DbError::Io(err)
    }
}

impl vstd::std_specs::convert::FromSpecImpl<std::io::Error> for DbError {
    open spec fn obeys_from_spec() -> bool {
        true
    }

    open spec fn from_spec(err: std::io::Error) -> DbError {
        DbError::Io(err)
    }
}

impl From<serde_json::Error> for DbError {
    fn from(value: serde_json::Error) -> (r: DbError) {
        DbError::Serde(value)
    }
}

impl vstd::std_specs::convert::FromSpecImpl<serde_json::Error> for DbError {
    open spec fn obeys_from_spec() -> bool {
        true
    }

    open spec fn from_spec(value: serde_json::Error) -> DbError {
        DbError::Serde(value)
    }
}

} // verus!
