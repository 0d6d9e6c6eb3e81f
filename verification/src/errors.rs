use vstd::prelude::*;
use vstd::string::StringExecFns;

verus! {

/// The failure modes of the store.
///
/// Every operation surfaces the first failure it observes and aborts; nothing
/// is retried here.  The message strings carried by some variants come from
/// the transport layer and are not interpreted.
#[derive(Clone, Debug)]
pub enum Error {
    /// The network or HTTP layer failed.
    Transport(String),
    /// A response body did not match the expected shape.
    Decode(String),
    /// The repository identifier is neither `owner/name` nor a full
    /// hosting-platform URL.
    InvalidRepoFormat,
    /// A URL found in a response could not be parsed.
    MalformedUrl,
    /// A concurrent unit of work could not be awaited or went missing.
    Join(String),
}

impl Error {
    /// What [`Error::describe`] says of each failure.
    pub open spec fn describe_spec(self) -> Seq<char> {
        match self {
            Error::Transport(m) => "Transport error: "@ + m@,
            Error::Decode(m) => "Decode error: "@ + m@,
            Error::InvalidRepoFormat => "Invalid repository format"@,
            Error::MalformedUrl => "Malformed URL"@,
            Error::Join(m) => "Join error: "@ + m@,
        }
    }

    /// Writes the failure out for a reader.
    pub fn describe(&self) -> (r: String)
        ensures
            r@ == self.describe_spec(),
    {
        match self {
            Error::Transport(m) => {
                let mut s = String::from_str("Transport error: ");
                s.append(m.as_str());
                s
            },
            Error::Decode(m) => {
                let mut s = String::from_str("Decode error: ");
                s.append(m.as_str());
                s
            },
            Error::InvalidRepoFormat => String::from_str("Invalid repository format"),
            Error::MalformedUrl => String::from_str("Malformed URL"),
            Error::Join(m) => {
                let mut s = String::from_str("Join error: ");
                s.append(m.as_str());
                s
            },
        }
    }
}

} // verus!
