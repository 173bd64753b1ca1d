//! The decoder: a single pass over raw bytes with an explicit cursor.

use vstd::prelude::*;
use vstd::slice::{slice_subrange, slice_to_vec};
use crate::canonical::{admissible, law_decoded_is_admissible};
use crate::encoder::bytes_less;
use crate::grammar::{
    byte_type, decode_bytes, decode_list_bytes, digits_end, digits_value, has_key,
    has_list_frame, lookahead_type, COLON, DICTIONARY_START, END, INTEGER_START, LIST_START,
    MINUS, NINE, ZERO,
};
use crate::value::{
    entries_view, items_view, lemma_dictionary_view, lemma_list_view, BencodeType, DecodeError,
    ErrorKind, Term, Value,
};

verus! {

/// The model of a parse step's result.
pub open spec fn outcome(r: Result<(Value, usize), DecodeError>) -> Result<
    (Term, int),
    (ErrorKind, int),
> {
    match r {
        Ok((v, end)) => Ok((v@, end as int)),
        Err(e) => Err((e.kind, e.offset as int)),
    }
}

/// The model of a decode result.
pub open spec fn decoded(r: Result<Value, DecodeError>) -> Result<Term, (ErrorKind, int)> {
    match r {
        Ok(v) => Ok(v@),
        Err(e) => Err((e.kind, e.offset as int)),
    }
}

/// Whether the two byte strings are equal.
pub fn bytes_equal(a: &[u8], b: &[u8]) -> (r: bool)
    ensures
        r == (a@ == b@),
{
    if a.len() != b.len() {
        return false;
    }
    let mut i: usize = 0;
    while i < a.len()
        invariant
            i <= a.len(),
            a.len() == b.len(),
            forall|j: int| 0 <= j < i ==> a@[j] == b@[j],
        decreases a.len() - i,
    {
        if a[i] != b[i] {
            return false;
        }
        i += 1;
    }
    assert(a@ =~= b@);
    true
}

/// Reads the run of digits that starts at `s`. Gives its end, the number it
/// spells where that is at most `limit`, and whether it is more.
pub(crate) fn scan_digits(b: &[u8], s: usize, limit: u64) -> (r: (usize, u64, bool))
    requires
        s <= b.len(),
    ensures
        r.0 == digits_end(b@, s as int),
        s <= r.0 <= b.len(),
        !r.2 ==> r.1 == digits_value(b@, s as int, r.0 as int) && r.1 <= limit,
        r.2 ==> digits_value(b@, s as int, r.0 as int) > limit,
{
    let mut cur: usize = s;
    let mut mag: u64 = 0;
    let mut over: bool = false;
    while cur < b.len() && ZERO <= b[cur] && b[cur] <= NINE
        invariant
            s <= cur <= b.len(),
            digits_end(b@, s as int) == digits_end(b@, cur as int),
            !over ==> mag == digits_value(b@, s as int, cur as int) && mag <= limit,
            over ==> digits_value(b@, s as int, cur as int) > limit,
        decreases b.len() - cur,
    {
        if !over {
            let next: u128 = (mag as u128) * 10 + ((b[cur] - ZERO) as u128);
            if next > limit as u128 {
                over = true;
            } else {
                mag = next as u64;
            }
        }
        cur += 1;
    }
    (cur, mag, over)
}

fn fail<T>(kind: ErrorKind, offset: usize) -> (r: Result<T, DecodeError>)
    ensures
        r == Err::<T, DecodeError>(DecodeError { kind, offset }),
{
    Err(DecodeError { kind, offset })
}

/// The kind of value that the byte at `pos` announces, if any.
fn lookahead(b: &[u8], pos: usize) -> (r: Option<BencodeType>)
    requires
        pos < b.len(),
    ensures
        r == byte_type(b@[pos as int]),
{
    let c: u8 = b[pos];
    if c == INTEGER_START {
        Some(BencodeType::Integer)
    } else if ZERO <= c && c <= NINE {
        Some(BencodeType::String)
    } else if c == LIST_START {
        Some(BencodeType::List)
    } else if c == DICTIONARY_START {
        Some(BencodeType::Dictionary)
    } else {
        None
    }
}

/// Decodes the integer whose `i` stands at `pos`.
fn decode_integer(b: &[u8], pos: usize) -> (r: Result<(Value, usize), DecodeError>)
    requires
        pos < b.len(),
    ensures
        outcome(r) == crate::grammar::parse_integer(b@, pos as int),
        r matches Ok(p) ==> pos < p.1 <= b.len(),
{
    let neg: bool = pos + 1 < b.len() && b[pos + 1] == MINUS;
    let s: usize = if neg {
        pos + 2
    } else {
        pos + 1
    };
    if s >= b.len() {
        return fail(ErrorKind::UnexpectedEndOfInput, s);
    }
    if !(ZERO <= b[s] && b[s] <= NINE) {
        return fail(ErrorKind::InvalidInteger, s);
    }
    let limit: u64 = if neg {
        0x8000_0000_0000_0000
    } else {
        0x7fff_ffff_ffff_ffff
    };
    let (e, mag, over) = scan_digits(b, s, limit);
    if b[s] == ZERO && (neg || e - s > 1) {
        return fail(ErrorKind::InvalidInteger, s);
    }
    if over {
        return fail(ErrorKind::IntegerOverflow, pos);
    }
    if e >= b.len() {
        return fail(ErrorKind::UnexpectedEndOfInput, e);
    }
    if b[e] != END {
        return fail(ErrorKind::InvalidInteger, e);
    }
    let n: i64 = if neg {
        (-(mag as i128)) as i64
    } else {
        mag as i64
    };
    Ok((Value::Integer(n), e + 1))
}

/// Decodes the byte string whose length prefix starts at `pos`.
fn decode_string(b: &[u8], pos: usize) -> (r: Result<(Vec<u8>, usize), DecodeError>)
    requires
        pos < b.len(),
    ensures
        match r {
            Ok((s, end)) => crate::grammar::parse_bytes(b@, pos as int) == Ok::<
                (Seq<u8>, int),
                (ErrorKind, int),
            >((s@, end as int)) && pos < end <= b.len(),
            Err(e) => crate::grammar::parse_bytes(b@, pos as int) == Err::<
                (Seq<u8>, int),
                (ErrorKind, int),
            >((e.kind, e.offset as int)),
        },
{
    if !(ZERO <= b[pos] && b[pos] <= NINE) {
        return fail(ErrorKind::InvalidLength, pos);
    }
    let (e, n, over) = scan_digits(b, pos, b.len() as u64);
    if b[pos] == ZERO && e - pos > 1 {
        return fail(ErrorKind::InvalidLength, pos);
    }
    if e >= b.len() {
        return fail(ErrorKind::UnexpectedEndOfInput, e);
    }
    if b[e] != COLON {
        return fail(ErrorKind::InvalidLength, e);
    }
    if over || n > (b.len() - e - 1) as u64 {
        return fail(ErrorKind::UnexpectedEndOfInput, b.len());
    }
    let end: usize = e + 1 + n as usize;
    let s = slice_to_vec(slice_subrange(b, e + 1, end));
    Ok((s, end))
}

/// Whether one of the entries has the key `key`.
fn contains_key(entries: &Vec<(Vec<u8>, Value)>, key: &[u8]) -> (r: bool)
    ensures
        r == has_key(entries_view(entries@), key@),
{
    let mut i: usize = 0;
    while i < entries.len()
        invariant
            i <= entries.len(),
            forall|j: int| 0 <= j < i ==> (#[trigger] entries_view(entries@)[j]).0 != key@,
        decreases entries.len() - i,
    {
        if bytes_equal(entries[i].0.as_slice(), key) {
            assert(entries_view(entries@)[i as int].0 == key@);
            return true;
        }
        i += 1;
    }
    false
}

/// Decodes the value that starts at `pos`, with `depth` more levels of
/// containers allowed.
fn decode_value(b: &[u8], pos: usize, depth: usize, strict: bool) -> (r: Result<
    (Value, usize),
    DecodeError,
>)
    requires
        pos <= b.len(),
    ensures
        outcome(r) == crate::grammar::parse_value(b@, pos as int, depth as nat, strict),
        r matches Ok(p) ==> pos < p.1 <= b.len(),
    decreases depth, 0nat,
{
    if pos >= b.len() {
        return fail(ErrorKind::UnexpectedEndOfInput, pos);
    }
    match lookahead(b, pos) {
        Some(BencodeType::Integer) => decode_integer(b, pos),
        Some(BencodeType::String) => match decode_string(b, pos) {
            Ok((s, end)) => Ok((Value::ByteString(s), end)),
            Err(e) => Err(e),
        },
        Some(BencodeType::List) => {
            if depth == 0 {
                return fail(ErrorKind::NestingTooDeep, pos);
            }
            match decode_items(b, pos + 1, depth - 1, strict) {
                Ok((items, end)) => {
                    proof {
                        lemma_list_view(items);
                    }
                    Ok((Value::List(items), end))
                },
                Err(e) => Err(e),
            }
        },
        Some(BencodeType::Dictionary) => {
            if depth == 0 {
                return fail(ErrorKind::NestingTooDeep, pos);
            }
            match decode_entries(b, pos + 1, depth - 1, strict) {
                Ok((entries, end)) => {
                    proof {
                        lemma_dictionary_view(entries);
                    }
                    Ok((Value::Dictionary(entries), end))
                },
                Err(e) => Err(e),
            }
        },
        None => fail(ErrorKind::UnexpectedByte, pos),
    }
}

/// Decodes list items from `pos` up to the closing `e`.
fn decode_items(b: &[u8], pos: usize, depth: usize, strict: bool) -> (r: Result<
    (Vec<Value>, usize),
    DecodeError,
>)
    requires
        pos <= b.len(),
    ensures
        match r {
            Ok((items, end)) => crate::grammar::parse_list(
                b@,
                pos as int,
                depth as nat,
                strict,
                Seq::empty(),
            ) == Ok::<(Seq<Term>, int), (ErrorKind, int)>((items_view(items@), end as int))
                && pos < end <= b.len(),
            Err(e) => crate::grammar::parse_list(b@, pos as int, depth as nat, strict, Seq::empty())
                == Err::<(Seq<Term>, int), (ErrorKind, int)>((e.kind, e.offset as int)),
        },
    decreases depth, 1nat,
{
    let mut items: Vec<Value> = Vec::new();
    let mut cur: usize = pos;
    assert(items_view(items@) =~= Seq::empty());
    while cur < b.len()
        invariant
            pos <= cur <= b.len(),
            crate::grammar::parse_list(b@, pos as int, depth as nat, strict, Seq::empty())
                == crate::grammar::parse_list(
                b@,
                cur as int,
                depth as nat,
                strict,
                items_view(items@),
            ),
        decreases b.len() - cur,
    {
        if b[cur] == END {
            return Ok((items, cur + 1));
        }
        match decode_value(b, cur, depth, strict) {
            Err(e) => {
                return Err(e);
            },
            Ok((v, end)) => {
                let ghost before = items_view(items@);
                items.push(v);
                assert(items_view(items@) =~= before.push(v@));
                cur = end;
            },
        }
    }
    fail(ErrorKind::UnexpectedEndOfInput, cur)
}

/// Decodes dictionary entries from `pos` up to the closing `e`.
fn decode_entries(b: &[u8], pos: usize, depth: usize, strict: bool) -> (r: Result<
    (Vec<(Vec<u8>, Value)>, usize),
    DecodeError,
>)
    requires
        pos <= b.len(),
    ensures
        match r {
            Ok((entries, end)) => crate::grammar::parse_dict(
                b@,
                pos as int,
                depth as nat,
                strict,
                Seq::empty(),
            ) == Ok::<(Seq<(Seq<u8>, Term)>, int), (ErrorKind, int)>(
                (entries_view(entries@), end as int),
            ) && pos < end <= b.len(),
            Err(e) => crate::grammar::parse_dict(b@, pos as int, depth as nat, strict, Seq::empty())
                == Err::<(Seq<(Seq<u8>, Term)>, int), (ErrorKind, int)>(
                (e.kind, e.offset as int),
            ),
        },
    decreases depth, 1nat,
{
    let mut entries: Vec<(Vec<u8>, Value)> = Vec::new();
    let mut cur: usize = pos;
    assert(entries_view(entries@) =~= Seq::empty());
    while cur < b.len()
        invariant
            pos <= cur <= b.len(),
            crate::grammar::parse_dict(b@, pos as int, depth as nat, strict, Seq::empty())
                == crate::grammar::parse_dict(
                b@,
                cur as int,
                depth as nat,
                strict,
                entries_view(entries@),
            ),
        decreases b.len() - cur,
    {
        if b[cur] == END {
            return Ok((entries, cur + 1));
        }
        if !(ZERO <= b[cur] && b[cur] <= NINE) {
            return fail(ErrorKind::InvalidDictionaryKey, cur);
        }
        match decode_string(b, cur) {
            Err(e) => {
                return Err(e);
            },
            Ok((key, kend)) => {
                if contains_key(&entries, key.as_slice()) {
                    return fail(ErrorKind::DuplicateKey, cur);
                }
                if strict && entries.len() > 0 && !bytes_less(
                    entries[entries.len() - 1].0.as_slice(),
                    key.as_slice(),
                ) {
                    return fail(ErrorKind::UnsortedKeys, cur);
                }
                match decode_value(b, kend, depth, strict) {
                    Err(e) => {
                        return Err(e);
                    },
                    Ok((v, vend)) => {
                        let ghost before = entries_view(entries@);
                        entries.push((key, v));
                        assert(entries_view(entries@) =~= before.push((key@, v@)));
                        cur = vend;
                    },
                }
            },
        }
    }
    fail(ErrorKind::UnexpectedEndOfInput, cur)
}

/// The decoder and its options.
#[derive(Clone, Copy, Debug, PartialEq, Eq)]
pub struct Bencode {
    /// Whether dictionary keys must stand in ascending order.
    pub strict_key_order: bool,
    /// How many containers may be open at once.
    pub max_nesting_depth: usize,
}

impl Bencode {
    /// A decoder with the default options: keys in any order, and at most
    /// 1000 levels of nesting.
    pub fn new() -> (r: Bencode)
        ensures
            r.strict_key_order == false,
            r.max_nesting_depth == 1000,
    {
        Bencode { strict_key_order: false, max_nesting_depth: 1000 }
    }

    /// Decodes a whole input as one value. Fails with the first error met and
    /// its offset; bytes left behind the value are `TrailingData`. A value
    /// that comes out nests no deeper than allowed and has no key twice.
    pub fn decode(&self, bytes: &[u8]) -> (r: Result<Value, DecodeError>)
        ensures
            decoded(r) == decode_bytes(
                bytes@,
                self.strict_key_order,
                self.max_nesting_depth as nat,
            ),
            r matches Ok(v) ==> admissible(v@, self.max_nesting_depth as nat),
    {
        proof {
            if decode_bytes(bytes@, self.strict_key_order, self.max_nesting_depth as nat) is Ok {
                law_decoded_is_admissible(
                    bytes@,
                    self.strict_key_order,
                    self.max_nesting_depth as nat,
                );
            }
        }
        match decode_value(bytes, 0, self.max_nesting_depth, self.strict_key_order) {
            Err(e) => Err(e),
            Ok((v, end)) => {
                if end < bytes.len() {
                    fail(ErrorKind::TrailingData, end)
                } else {
                    Ok(v)
                }
            },
        }
    }

    /// The kind of value that the input's first byte announces, if any.
    pub fn encoded_string_type(&self, bytes: &[u8]) -> (r: Option<BencodeType>)
        ensures
            r == lookahead_type(bytes@),
    {
        if bytes.len() == 0 {
            None
        } else {
            lookahead(bytes, 0)
        }
    }

    /// Whether the input has the frame of a list: it opens with `l` and
    /// closes with `e`.
    pub fn is_encoded_list(&self, bytes: &[u8]) -> (r: bool)
        ensures
            r == has_list_frame(bytes@),
    {
        bytes.len() >= 2 && bytes[0] == LIST_START && bytes[bytes.len() - 1] == END
    }

    /// Decodes a whole input that must be a list. An input that opens with
    /// another byte is `UnexpectedByte` at offset 0.
    pub fn decode_list(&self, bytes: &[u8]) -> (r: Result<Value, DecodeError>)
        ensures
            decoded(r) == decode_list_bytes(
                bytes@,
                self.strict_key_order,
                self.max_nesting_depth as nat,
            ),
            r matches Ok(v) ==> v@ is List,
    {
        if bytes.len() == 0 {
            fail(ErrorKind::UnexpectedEndOfInput, 0)
        } else if bytes[0] != LIST_START {
            fail(ErrorKind::UnexpectedByte, 0)
        } else {
            self.decode(bytes)
        }
    }
}

/// Decodes a whole input as one value, with the default options.
pub fn decode_bencoded_value(bytes: &[u8]) -> (r: Result<Value, DecodeError>)
    ensures
        decoded(r) == decode_bytes(bytes@, false, 1000),
{
    Bencode::new().decode(bytes)
}

} // verus!
