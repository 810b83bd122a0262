//! The text that a kernel panic handler routes to a sink.

use vstd::prelude::*;
use vstd::string::*;

verus! {

/// The report line for a panic described by `info`: `PANIC: ` followed by the description
/// and a newline.
pub open spec fn panic_line_text(info: Seq<char>) -> Seq<char> {
    "PANIC: "@ + info + "\n"@
}

/// The report line `PANIC: <info>` and a newline, as written to a sink before halting.
pub fn panic_line(info: &str) -> (r: String)
    ensures
        r@ == panic_line_text(info@),
{
    let line = String::from_str("PANIC: ");
    let line = line.concat(info);
    line.concat("\n")
}

} // verus!
