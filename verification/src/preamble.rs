//! The header of a source file that a tool has written.
use vstd::prelude::*;
use vstd::string::StringExecFns;

verus! {

/// The text of a file with its header: a comment line that names the tool
/// `generated_by`, an empty line, the directive that silences the lint on
/// unused imports, an empty line, then `file` and a line end.
pub open spec fn with_preamble(file: Seq<char>, generated_by: Seq<char>) -> Seq<char> {
    "// This file was generated by "@ + generated_by + ".\n\n#![allow(unused_imports)]\n\n"@ + file
        + "\n"@
}

/// Puts the header comment and the lint directive in front of `file`.
pub fn add_preamble(file: &str, generated_by: &str) -> (text: String)
    ensures
        text@ == with_preamble(file@, generated_by@),
{
    let mut text = String::from_str("// This file was generated by ");
    text.append(generated_by);
    text.append(".\n\n#![allow(unused_imports)]\n\n");
    text.append(file);
    text.append("\n");
    text
}

} // verus!
