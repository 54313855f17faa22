//! What is done to the words of a command line before they are used.

use vstd::prelude::*;

verus! {

/// The characters that are taken off both ends of a file name: blank, tab,
/// the two quotes and the line feed.
pub open spec fn trimmed_chars() -> Seq<char> {
    seq![' ', '\t', '\'', '"', '\n']
}

/// Whether `c` is taken off the ends of a file name.
pub fn trim_func(c: char) -> (trimmed: bool)
    ensures
        trimmed == trimmed_chars().contains(c),
{
    c == ' ' || c == '\t' || c == '\'' || c == '"' || c == '\n'
}

/// The name under which the mosaic is written where none was asked for: that
/// of the source file, put behind `pixelart_`, in the current directory.
pub fn default_output_name(file_name: &str) -> (name: String)
    ensures
        name@ == "./pixelart_"@ + file_name@,
{
    String::from_str("./pixelart_").concat(file_name)
}

/// The scale that is used where `scale` was asked for: a cell holds at least
/// one pixel, so nought stands for one.
pub fn normalize_scale(scale: u32) -> (used: u32)
    ensures
        used >= 1,
        used == if scale == 0 { 1 } else { scale },
{
    if scale == 0 {
        1
    } else {
        scale
    }
}

} // verus!
