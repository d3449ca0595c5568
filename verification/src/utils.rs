//! Diagnostics as text.

use crate::text::{decimal_digits, push_decimal};
use vstd::prelude::*;
use vstd::string::StringExecFns;

verus! {

/// The text of a diagnostic: the line, the place and the message.
pub open spec fn report_text(line: nat, where_: Seq<char>, message: Seq<char>) -> Seq<char> {
    "[line "@ + decimal_digits(line) + "] Error "@ + where_ + ": "@ + message
}

/// The text of the diagnostic `message` for line `line`, with no place.
pub fn error(line: usize, message: &str) -> (out: String)
    ensures
        out@ == report_text(line as nat, Seq::empty(), message@),
{
    proof {
        reveal_strlit("");
        assert(""@ == Seq::<char>::empty());
    }
    report(line, "", message)
}

/// The text of the diagnostic `message` for line `line` at `where_`.
pub fn report(line: usize, where_: &str, message: &str) -> (out: String)
    ensures
        out@ == report_text(line as nat, where_@, message@),
{
    let mut out = String::from_str("[line ");
    push_decimal(&mut out, line);
    out.append("] Error ");
    out.append(where_);
    out.append(": ");
    out.append(message);
    out
}

} // verus!
