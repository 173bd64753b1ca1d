//! Small scanners over text and bytes.

use vstd::prelude::*;
use vstd::string::StrSliceExecFns;
use crate::decoder::scan_digits;
use crate::grammar::{
    digits_end, length_prefix, COLON, ZERO,
};

verus! {

/// Whether `needle` stands in `s` at or after `start`.
pub open spec fn occurs_from(s: Seq<char>, needle: char, start: int) -> bool {
    exists|j: int| start <= j < s.len() && s[j] == needle
}

/// How far behind `start_index` the first `needle` at or after it stands,
/// counted in characters; 0 where there is none.
pub fn find_char_from_index(input_str: &str, needle: char, start_index: usize) -> (r: usize)
    ensures
        occurs_from(input_str@, needle, start_index as int) ==> {
            &&& start_index + r < input_str@.len()
            &&& input_str@[start_index + r] == needle
            &&& forall|j: int| start_index <= j < start_index + r ==> input_str@[j] != needle
        },
        !occurs_from(input_str@, needle, start_index as int) ==> r == 0,
{
    let n: usize = input_str.unicode_len();
    let mut i: usize = start_index;
    while i < n
        invariant
            start_index <= i,
            n == input_str@.len(),
            forall|j: int| start_index <= j < i ==> input_str@[j] != needle,
        decreases n - i,
    {
        if input_str.get_char(i) == needle {
            return i - start_index;
        }
        i += 1;
    }
    0
}

/// The length that a lone byte string announces, if the input is one: a
/// length prefix, one colon, and no other colon.
pub fn get_length_from_bencoded_string(bytes: &[u8]) -> (r: Option<usize>)
    ensures
        r == length_prefix(bytes@),
{
    let (e, n, over) = scan_digits(bytes, 0, usize::MAX as u64);
    if e == 0 || e >= bytes.len() || bytes[e] != COLON || (bytes[0] == ZERO && e > 1) || over {
        return None;
    }
    let mut j: usize = e + 1;
    while j < bytes.len()
        invariant
            e < j <= bytes.len(),
            e == digits_end(bytes@, 0),
            forall|k: int| e < k < j ==> bytes@[k] != COLON,
        decreases bytes.len() - j,
    {
        if bytes[j] == COLON {
            assert(bytes@[j as int] == COLON);
            return None;
        }
        j += 1;
    }
    Some(n as usize)
}

} // verus!
