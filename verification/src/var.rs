//! The options of the variables that fill output fields, and their help
//! text.

use vstd::prelude::*;
use vstd::string::StringExecFns;

verus! {

/// The options of the variables.
#[derive(Clone, Copy, Debug)]
pub struct VarOpts {
    /// Whether the help on variables was asked for, in place of a run.
    pub var_help: bool,
}

/// The help on the variables that every command knows.
pub open spec fn spec_var_help() -> Seq<char> {
    "Fields of delimited text:\n    id      the identifier of the record\n    desc    the description of the record\n    seq     the sequence of the record\n"@
}

/// The help on the variables that every command knows.
pub fn var_help() -> (help: String)
    ensures
        help@ == spec_var_help(),
{
    String::from_str(
        "Fields of delimited text:\n    id      the identifier of the record\n    desc    the description of the record\n    seq     the sequence of the record\n",
    )
}

/// The help on variables that is shown: the general one, after the help of
/// the command if it has its own, with an empty line between the two.
pub open spec fn help_text(custom: Option<Seq<char>>) -> Seq<char> {
    match custom {
        Some(h) => h + "\n\n"@ + spec_var_help(),
        None => spec_var_help(),
    }
}

} // verus!
