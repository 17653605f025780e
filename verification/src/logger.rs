//! The lines of the log file.
use vstd::prelude::*;

verus! {

/// The line that the log file gets for `content`: the content and a line break.
pub fn log_line(content: &str) -> (line: String)
    ensures
        line@ == content@ + "\n"@,
{
    let mut line = String::from_str(content);
    line.append("\n");
    line
}

} // verus!
