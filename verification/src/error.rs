//! The error type shared by all stages.

use vstd::prelude::*;
use vstd::string::StringExecFns;

verus! {

#[verifier::external_type_specification]
#[verifier::external_body]
pub struct ExIoError(std::io::Error);

pub type CliResult<T> = Result<T, CliError>;

/// An error of any stage: one raised by the operating system while reading
/// or writing, or one described by a message.
#[derive(Debug)]
pub enum CliError {
    Io(std::io::Error),
    Other(String),
}

impl CliError {
    /// The message of an error that carries one.
    pub open spec fn text(&self) -> Seq<char> {
        match self {
            CliError::Io(_) => Seq::empty(),
            CliError::Other(s) => s@,
        }
    }

    /// An error with the given message.
    pub fn other(msg: &str) -> (e: CliError)
        ensures
            e is Other,
            e.text() == msg@,
    {
        CliError::Other(msg.to_owned())
    }

    /// What is shown to the user: the message, or the system's text for an
    /// I/O error.
    pub fn message(&self) -> (m: String)
        ensures
            self is Other ==> m@ == self.text(),
    {
        match self {
            CliError::Io(e) => e.to_string(),
            CliError::Other(s) => s.clone(),
        }
    }

    /// The same error with `context` and a colon before its message, as an
    /// error with a message.
    pub fn within(self, context: &str) -> (e: CliError)
        ensures
            e is Other,
            self is Other ==> e.text() == context@ + ": "@ + self.text(),
    {
        let mut msg = String::from_str(context);
        msg.append(": ");
        msg.append(self.message().as_str());
        CliError::Other(msg)
    }

    /// A fixed description of the error type.
    pub fn description(&self) -> (d: &'static str)
        ensures
            d@ == "seqtool commandline error"@,
    {
        "seqtool commandline error"
    }
}

impl From<std::io::Error> for CliError {
    fn from(err: std::io::Error) -> (e: CliError) {
        CliError::Io(err)
    }
}

impl vstd::std_specs::convert::FromSpecImpl<std::io::Error> for CliError {
    open spec fn obeys_from_spec() -> bool {
        true
    }

    open spec fn from_spec(err: std::io::Error) -> CliError {
        CliError::Io(err)
    }
}

impl<'a> From<&'a str> for CliError {
    fn from(err: &'a str) -> (e: CliError)
        ensures
            e is Other,
            e.text() == err@,
    {
        CliError::Other(err.to_owned())
    }
}

impl<'a> vstd::std_specs::convert::FromSpecImpl<&'a str> for CliError {
    /// The conversion is stated by the postcondition of `from`: the result
    /// is known up to its message.
    open spec fn obeys_from_spec() -> bool {
        false
    }

    open spec fn from_spec(err: &'a str) -> CliError {
        choose|e: CliError| e is Other && e.text() == err@
    }
}

/// Whether `e` is the error with the text that `err` is shown with.
pub open spec fn shows<T: std::fmt::Display>(e: CliError, err: &T) -> bool {
    e matches CliError::Other(text) && vstd::string::to_string_from_display_ensures(err, text)
}

#[verifier::external_type_specification]
#[verifier::external_body]
pub struct ExParseIntError(std::num::ParseIntError);

impl From<std::num::ParseIntError> for CliError {
    /// The error becomes one with a message: the text that it is shown
    /// with.
    fn from(err: std::num::ParseIntError) -> (e: CliError)
        ensures
            shows(e, &err),
    {
        CliError::Other(err.to_string())
    }
}

impl vstd::std_specs::convert::FromSpecImpl<std::num::ParseIntError> for CliError {
    /// The conversion is stated by the postcondition of `from`.
    open spec fn obeys_from_spec() -> bool {
        false
    }

    open spec fn from_spec(err: std::num::ParseIntError) -> CliError {
        arbitrary()
    }
}

#[verifier::external_type_specification]
#[verifier::external_body]
pub struct ExParseFloatError(std::num::ParseFloatError);

impl From<std::num::ParseFloatError> for CliError {
    /// The error becomes one with a message: the text that it is shown
    /// with.
    fn from(err: std::num::ParseFloatError) -> (e: CliError)
        ensures
            shows(e, &err),
    {
        CliError::Other(err.to_string())
    }
}

impl vstd::std_specs::convert::FromSpecImpl<std::num::ParseFloatError> for CliError {
    /// The conversion is stated by the postcondition of `from`.
    open spec fn obeys_from_spec() -> bool {
        false
    }

    open spec fn from_spec(err: std::num::ParseFloatError) -> CliError {
        arbitrary()
    }
}

#[verifier::external_type_specification]
#[verifier::external_body]
pub struct ExUtf8Error(std::str::Utf8Error);

impl From<std::str::Utf8Error> for CliError {
    /// The error becomes one with a message: the text that it is shown
    /// with.
    fn from(err: std::str::Utf8Error) -> (e: CliError)
        ensures
            shows(e, &err),
    {
        CliError::Other(err.to_string())
    }
}

impl vstd::std_specs::convert::FromSpecImpl<std::str::Utf8Error> for CliError {
    /// The conversion is stated by the postcondition of `from`.
    open spec fn obeys_from_spec() -> bool {
        false
    }

    open spec fn from_spec(err: std::str::Utf8Error) -> CliError {
        arbitrary()
    }
}

#[verifier::external_type_specification]
#[verifier::external_body]
pub struct ExFromUtf8Error(std::string::FromUtf8Error);

impl From<std::string::FromUtf8Error> for CliError {
    /// The error becomes one with a message: the text that it is shown
    /// with.
    fn from(err: std::string::FromUtf8Error) -> (e: CliError)
        ensures
            shows(e, &err),
    {
        CliError::Other(err.to_string())
    }
}

impl vstd::std_specs::convert::FromSpecImpl<std::string::FromUtf8Error> for CliError {
    /// The conversion is stated by the postcondition of `from`.
    open spec fn obeys_from_spec() -> bool {
        false
    }

    open spec fn from_spec(err: std::string::FromUtf8Error) -> CliError {
        arbitrary()
    }
}

#[verifier::external_type_specification]
#[verifier::external_body]
pub struct ExFmtError(std::fmt::Error);

impl From<std::fmt::Error> for CliError {
    /// The error becomes one with a message: the text that it is shown
    /// with.
    fn from(err: std::fmt::Error) -> (e: CliError)
        ensures
            shows(e, &err),
    {
        CliError::Other(err.to_string())
    }
}

impl vstd::std_specs::convert::FromSpecImpl<std::fmt::Error> for CliError {
    /// The conversion is stated by the postcondition of `from`.
    open spec fn obeys_from_spec() -> bool {
        false
    }

    open spec fn from_spec(err: std::fmt::Error) -> CliError {
        arbitrary()
    }
}

#[verifier::external_type_specification]
#[verifier::external_body]
pub struct ExFastaError(seq_io::fasta::Error);

impl From<seq_io::fasta::Error> for CliError {
    /// The error becomes one with a message: the text that it is shown
    /// with.
    fn from(err: seq_io::fasta::Error) -> (e: CliError)
        ensures
            shows(e, &err),
    {
        CliError::Other(err.to_string())
    }
}

impl vstd::std_specs::convert::FromSpecImpl<seq_io::fasta::Error> for CliError {
    /// The conversion is stated by the postcondition of `from`.
    open spec fn obeys_from_spec() -> bool {
        false
    }

    open spec fn from_spec(err: seq_io::fasta::Error) -> CliError {
        arbitrary()
    }
}

impl From<seq_io::fastq::Error> for CliError {
    /// The error becomes one with a message: the text that it is shown
    /// with.
    fn from(err: seq_io::fastq::Error) -> (e: CliError)
        ensures
            shows(e, &err),
    {
        CliError::Other(err.to_string())
    }
}

impl vstd::std_specs::convert::FromSpecImpl<seq_io::fastq::Error> for CliError {
    /// The conversion is stated by the postcondition of `from`.
    open spec fn obeys_from_spec() -> bool {
        false
    }

    open spec fn from_spec(err: seq_io::fastq::Error) -> CliError {
        arbitrary()
    }
}

#[verifier::external_type_specification]
#[verifier::external_body]
pub struct ExDocoptError(docopt::Error);

impl From<docopt::Error> for CliError {
    /// The error becomes one with a message: the text that it is shown
    /// with.
    fn from(err: docopt::Error) -> (e: CliError)
        ensures
            shows(e, &err),
    {
        CliError::Other(err.to_string())
    }
}

impl vstd::std_specs::convert::FromSpecImpl<docopt::Error> for CliError {
    /// The conversion is stated by the postcondition of `from`.
    open spec fn obeys_from_spec() -> bool {
        false
    }

    open spec fn from_spec(err: docopt::Error) -> CliError {
        arbitrary()
    }
}

#[verifier::external_type_specification]
#[verifier::external_body]
pub struct ExRegexError(regex::Error);

impl From<regex::Error> for CliError {
    /// The error becomes one with a message: the text that it is shown
    /// with.
    fn from(err: regex::Error) -> (e: CliError)
        ensures
            shows(e, &err),
    {
        CliError::Other(err.to_string())
    }
}

impl vstd::std_specs::convert::FromSpecImpl<regex::Error> for CliError {
    /// The conversion is stated by the postcondition of `from`.
    open spec fn obeys_from_spec() -> bool {
        false
    }

    open spec fn from_spec(err: regex::Error) -> CliError {
        arbitrary()
    }
}

impl From<csv::Error> for CliError {
    /// The error becomes one with a message: the text that it is shown
    /// with.
    fn from(err: csv::Error) -> (e: CliError)
        ensures
            shows(e, &err),
    {
        CliError::Other(err.to_string())
    }
}

impl vstd::std_specs::convert::FromSpecImpl<csv::Error> for CliError {
    /// The conversion is stated by the postcondition of `from`.
    open spec fn obeys_from_spec() -> bool {
        false
    }

    open spec fn from_spec(err: csv::Error) -> CliError {
        arbitrary()
    }
}

#[verifier::external_type_specification]
#[verifier::external_body]
pub struct ExMevalError(meval::Error);

impl From<meval::Error> for CliError {
    /// The error becomes one with a message: the text that it is shown
    /// with.
    fn from(err: meval::Error) -> (e: CliError)
        ensures
            shows(e, &err),
    {
        CliError::Other(err.to_string())
    }
}

impl vstd::std_specs::convert::FromSpecImpl<meval::Error> for CliError {
    /// The conversion is stated by the postcondition of `from`.
    open spec fn obeys_from_spec() -> bool {
        false
    }

    open spec fn from_spec(err: meval::Error) -> CliError {
        arbitrary()
    }
}

impl From<String> for CliError {
    fn from(err: String) -> (e: CliError) {
        CliError::Other(err)
    }
}

impl vstd::std_specs::convert::FromSpecImpl<String> for CliError {
    open spec fn obeys_from_spec() -> bool {
        true
    }

    open spec fn from_spec(err: String) -> CliError {
        CliError::Other(err)
    }
}

} // verus!
