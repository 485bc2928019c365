//! The character classes of XML names.

use vstd::prelude::*;
use vstd::std_specs::iter::IteratorSpec;

verus! {

/// Whether `c` may begin an XML name.
pub open spec fn name_start_char(c: char) -> bool {
    let u = c as u32;
    ||| c == ':'
    ||| ('A' as u32 <= u && u <= 'Z' as u32)
    ||| c == '_'
    ||| ('a' as u32 <= u && u <= 'z' as u32)
    ||| (0xC0 <= u && u <= 0xD6)
    ||| (0xD8 <= u && u <= 0xF6)
    ||| (0xF8 <= u && u <= 0x2FF)
    ||| (0x370 <= u && u <= 0x37D)
    ||| (0x37F <= u && u <= 0x1FFF)
    ||| (0x200C <= u && u <= 0x200D)
    ||| (0x2070 <= u && u <= 0x218F)
    ||| (0x2C00 <= u && u <= 0x2FEF)
    ||| (0x3001 <= u && u <= 0xD7FF)
    ||| (0xF900 <= u && u <= 0xFDCF)
    ||| (0xFDF0 <= u && u <= 0xFFFD)
    ||| (0x10000 <= u && u <= 0xEFFFF)
}

/// Whether `c` may stand inside an XML name.
pub open spec fn name_char(c: char) -> bool {
    let u = c as u32;
    ||| name_start_char(c)
    ||| c == '-'
    ||| c == '.'
    ||| ('0' as u32 <= u && u <= '9' as u32)
    ||| u == 0xB7
    ||| (0x300 <= u && u <= 0x36F)
    ||| (0x203F <= u && u <= 0x2040)
}

/// Tells whether `c` may begin an XML name.
pub fn is_name_start_char(c: char) -> (r: bool)
    ensures
        r == name_start_char(c),
{
    let u: u32 = c as u32;
    c == ':' || ('A' as u32 <= u && u <= 'Z' as u32) || c == '_' || ('a' as u32 <= u && u
        <= 'z' as u32) || (0xC0 <= u && u <= 0xD6) || (0xD8 <= u && u <= 0xF6) || (0xF8 <= u && u
        <= 0x2FF) || (0x370 <= u && u <= 0x37D) || (0x37F <= u && u <= 0x1FFF) || (0x200C <= u
        && u <= 0x200D) || (0x2070 <= u && u <= 0x218F) || (0x2C00 <= u && u <= 0x2FEF) || (0x3001
        <= u && u <= 0xD7FF) || (0xF900 <= u && u <= 0xFDCF) || (0xFDF0 <= u && u <= 0xFFFD) || (
    0x10000 <= u && u <= 0xEFFFF)
}

/// Tells whether `c` may stand inside an XML name.
pub fn is_name_char(c: char) -> (r: bool)
    ensures
        r == name_char(c),
{
    let u: u32 = c as u32;
    is_name_start_char(c) || c == '-' || c == '.' || ('0' as u32 <= u && u <= '9' as u32) || u
        == 0xB7 || (0x300 <= u && u <= 0x36F) || (0x203F <= u && u <= 0x2040)
}

/// The characters of `s`, in order.
pub fn chars_of(s: &str) -> (v: Vec<char>)
    ensures
        v@ == s@,
{
    broadcast use vstd::string::group_string_axioms;

    let mut v: Vec<char> = Vec::new();
    for c in it: s.chars()
        invariant
            it.seq() == s@,
            v@ == s@.take(it.index() as int),
    {
        v.push(c);
    }
    v
}

} // verus!
