//! Errors of the GCM client.

use vstd::prelude::*;

verus! {

/// `std::io::Error`, carried through from the transport.
#[verifier::external_type_specification]
#[verifier::external_body]
pub struct ExIoError(std::io::Error);

/// What went wrong in a GCM operation.
#[derive(Debug)]
pub enum Error {
    /// A protocol or validation failure, with its description.
    Message(String),
    /// A transport failure.
    Io(std::io::Error),
    /// A configuration value that cannot be used.
    Config(String),
    /// The requested group or article does not exist.
    NotFound(String),
}

impl Error {
    /// The description carried by the error (empty for `Io`).
    pub open spec fn text(self) -> Seq<char> {
        match self {
            Error::Message(s) => s@,
            Error::Config(s) => s@,
            Error::NotFound(s) => s@,
            Error::Io(_) => Seq::empty(),
        }
    }
}

/// The text of a transport error (`Display` of `std::io::Error`); it comes
/// from the operating system, so nothing is stated of it.
#[verifier::external_body]
fn io_error_text(e: &std::io::Error) -> String {
    format!("{e}")
}

impl Error {
    /// The message of the error, as `Display` shows it.
    pub fn describe(&self) -> (res: String)
        ensures
            match self {
                Error::Message(s) => res@ == "gcm error: "@ + s@,
                Error::Config(s) => res@ == "Configuration error: "@ + s@,
                Error::NotFound(s) => res@ == "Not found: "@ + s@,
                Error::Io(_) => crate::text::starts_with(res@, "IO error: "@),
            },
    {
        let (prefix, text) = match self {
            Error::Message(s) => ("gcm error: ", s.clone()),
            Error::Config(s) => ("Configuration error: ", s.clone()),
            Error::NotFound(s) => ("Not found: ", s.clone()),
            Error::Io(e) => ("IO error: ", io_error_text(e)),
        };
        let mut v = crate::text::chars_of(prefix);
        crate::text::extend_str(&mut v, text.as_str());
        proof {
            assert((prefix@ + text@).subrange(0, prefix@.len() as int) =~= prefix@);
        }
        crate::text::string_of(&v)
    }
}

/// Result of a GCM operation.
pub type Result<T> = core::result::Result<T, Error>;

} // verus!
