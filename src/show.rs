//! Output responses for the console.
use vstd::prelude::*;

verus! {

/// Panel title of output tables.
pub const TABLE_TITLE: &'static str = "homestar(╯°□°)╯";

/// A character of the Unicode `White_Space` property.
pub open spec fn is_white_space(c: char) -> bool {
    let u = c as u32;
    ||| 0x09 <= u <= 0x0d
    ||| u == 0x20
    ||| u == 0x85
    ||| u == 0xa0
    ||| u == 0x1680
    ||| 0x2000 <= u <= 0x200a
    ||| u == 0x2028
    ||| u == 0x2029
    ||| u == 0x202f
    ||| u == 0x205f
    ||| u == 0x3000
}

/// `r` is `s` without its trailing whitespace: the longest prefix of `s`
/// after which only whitespace follows.
pub open spec fn trimmed_end(s: Seq<char>, r: Seq<char>) -> bool {
    &&& r.is_prefix_of(s)
    &&& forall|i: int| r.len() <= i < s.len() ==> is_white_space(#[trigger] s[i])
    &&& r.len() > 0 ==> !is_white_space(r.last())
}

/// Relies on `str::trim_end`: the text with trailing `White_Space`
/// characters removed.
#[verifier::external_body]
fn trim_end(s: &str) -> (r: String)
    ensures
        trimmed_end(s@, r@),
{
    s.trim_end().to_string()
}

/// An output response: a rendered table.
#[derive(Debug, PartialEq)]
pub struct Output(pub String);

impl Output {
    /// A new output response.
    pub fn new(table: String) -> (r: Output)
        ensures
            r.0 == table,
    {
        Output(table)
    }

    /// The inner text.
    pub fn inner(&self) -> (r: &str)
        ensures
            r@ == self.0@,
    {
        self.0.as_str()
    }

    /// The text to show: the inner text without trailing whitespace.
    pub fn render(&self) -> (r: String)
        ensures
            trimmed_end(self.0@, r@),
    {
        trim_end(self.0.as_str())
    }
}

} // verus!
