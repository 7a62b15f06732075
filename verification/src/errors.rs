use vstd::prelude::*;
use vstd::string::StringExecFns;

verus! {

/// `std::io::Error`, carried through `Error::Io` as an opaque value.
#[verifier::external_type_specification]
#[verifier::external_body]
pub struct ExIoError(std::io::Error);

/// Errors of the VINF library.
#[derive(Debug)]
pub enum Error {
    /// The operation cannot be carried out by this version.
    NotImplemented,
    /// The bytes are not a VINF blob (or not a known-hash file).
    InvalidFormat,
    /// Reading or writing failed.
    Io(std::io::Error),
    /// Any other failure, with its description.
    Other(String),
}

impl Error {
    /// The description of the error, as a user reads it; for an I/O error,
    /// `io error: ` followed by the I/O error's own text.
    pub fn message(&self) -> (m: String)
        ensures
            self is NotImplemented ==> m@ == "not implemented"@,
            self is InvalidFormat ==> m@ == "invalid VINF format"@,
            self matches Error::Other(s) ==> m@ == s@,
            self matches Error::Io(e) ==> exists|t: String|
                #[trigger] vstd::string::to_string_from_display_ensures::<std::io::Error>(&e, t)
                    && m@ == "io error: "@ + t@,
    {
        match self {
            Error::NotImplemented => "not implemented".to_owned(),
            Error::InvalidFormat => "invalid VINF format".to_owned(),
            Error::Io(e) => {
                let prefix = "io error: ".to_owned();
                proof {
                    reveal_strlit("io error: ");
                }
                let text = e.to_string();
                let m = prefix.concat(text.as_str());
                assert(m@ == "io error: "@ + text@);
                m
            },
            Error::Other(s) => s.clone(),
        }
    }
}

impl From<std::io::Error> for Error {
    fn from(e: std::io::Error) -> (r: Error) {
        Error::Io(e)
    }
}

impl vstd::std_specs::convert::FromSpecImpl<std::io::Error> for Error {
    open spec fn obeys_from_spec() -> bool {
        true
    }

    open spec fn from_spec(e: std::io::Error) -> Error {
        Error::Io(e)
    }
}

} // verus!
