use vstd::prelude::*;
use vstd::string::*;

verus! {

/// Whether `c` has Unicode's Alphabetic property.
pub uninterp spec fn alphabetic(c: char) -> bool;

/// Relies on `char::is_alphabetic`: true exactly for characters with the Alphabetic property.
#[verifier::external_body]
fn is_alphabetic(c: char) -> (r: bool)
    ensures
        r == alphabetic(c),
{
    c.is_alphabetic()
}

/// Unicode's White_Space property.
pub open spec fn whitespace(c: char) -> bool {
    let n = c as u32;
    (0x9 <= n <= 0xd) || n == 0x20 || n == 0x85 || n == 0xa0 || n == 0x1680 || (0x2000 <= n
        <= 0x200a) || n == 0x2028 || n == 0x2029 || n == 0x202f || n == 0x205f || n == 0x3000
}

/// Unicode's control characters (general category Cc).
pub open spec fn control(c: char) -> bool {
    let n = c as u32;
    n <= 0x1f || (0x7f <= n <= 0x9f)
}

/// Characters that may appear in a component name: spaces would force quoting of paths,
/// quotes complicate parsing, and a '.' would be confused with the path separator.
pub open spec fn valid_name_char(c: char) -> bool {
    !whitespace(c) && !control(c) && c != '"' && c != '\'' && c != '.'
}

/// A component name: non-empty, starting with a letter, of valid characters only.
pub open spec fn valid_name(s: Seq<char>) -> bool {
    &&& s.len() > 0
    &&& alphabetic(s[0])
    &&& forall|i: int| 0 <= i < s.len() ==> valid_name_char(#[trigger] s[i])
}

pub fn is_valid_name_char(c: char) -> (r: bool)
    ensures
        r == valid_name_char(c),
{
    let n = c as u32;
    let ws = (0x9 <= n && n <= 0xd) || n == 0x20 || n == 0x85 || n == 0xa0 || n == 0x1680 || (
    0x2000 <= n && n <= 0x200a) || n == 0x2028 || n == 0x2029 || n == 0x202f || n == 0x205f || n
        == 0x3000;
    let ctl = n <= 0x1f || (0x7f <= n && n <= 0x9f);
    !ws && !ctl && c != '"' && c != '\'' && c != '.'
}

pub fn is_valid_name(name: &str) -> (r: bool)
    ensures
        r == valid_name(name@),
{
    let len = name.unicode_len();
    if len == 0 {
        return false;
    }
    if !is_alphabetic(name.get_char(0)) {
        return false;
    }
    let mut i: usize = 0;
    while i < len
        invariant
            len == name@.len(),
            i <= len,
            forall|j: int| 0 <= j < i ==> valid_name_char(#[trigger] name@[j]),
        decreases len - i,
    {
        if !is_valid_name_char(name.get_char(i)) {
            return false;
        }
        i += 1;
    }
    true
}

/// Relies on `String::push`: appends one character.
#[verifier::external_body]
pub(crate) fn push_char(s: &mut String, c: char)
    ensures
        final(s)@ == old(s)@.push(c),
{
    s.push(c)
}

} // verus!
