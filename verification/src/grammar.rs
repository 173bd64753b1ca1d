//! The Bencode grammar as mathematics: what a value encodes to, and what a
//! byte sequence decodes to.

use vstd::prelude::*;
use crate::value::{BencodeType, ErrorKind, Term};

verus! {

/// `i`, which opens an integer.
pub const INTEGER_START: u8 = 105;

/// `l`, which opens a list.
pub const LIST_START: u8 = 108;

/// `d`, which opens a dictionary.
pub const DICTIONARY_START: u8 = 100;

/// `e`, which closes an integer, a list or a dictionary.
pub const END: u8 = 101;

/// `:`, which parts a length prefix from the bytes.
pub const COLON: u8 = 58;

/// `-`, the sign of a negative integer.
pub const MINUS: u8 = 45;

/// The digit `0`.
pub const ZERO: u8 = 48;

/// The digit `9`.
pub const NINE: u8 = 57;

/// Whether the byte is an ASCII digit.
pub open spec fn is_digit(c: u8) -> bool {
    ZERO <= c <= NINE
}

/// The first position at or after `s` that holds no ASCII digit.
pub open spec fn digits_end(b: Seq<u8>, s: int) -> int
    decreases b.len() - s,
{
    if 0 <= s < b.len() && is_digit(b[s]) {
        digits_end(b, s + 1)
    } else {
        s
    }
}

/// The number that the decimal digits `b[s..e]` spell.
pub open spec fn digits_value(b: Seq<u8>, s: int, e: int) -> nat
    decreases e - s,
{
    if s < 0 || e <= s || e > b.len() {
        0
    } else {
        digits_value(b, s, e - 1) * 10 + (b[e - 1] - ZERO) as nat
    }
}

/// The decimal digits of `n`, without leading zeros.
pub open spec fn decimal(n: nat) -> Seq<u8>
    decreases n,
{
    if n < 10 {
        seq![(ZERO + n) as u8]
    } else {
        decimal(n / 10).push((ZERO + n % 10) as u8)
    }
}

/// Byte-wise lexicographic order, compared from position `i` on.
pub open spec fn lex_less_from(a: Seq<u8>, b: Seq<u8>, i: int) -> bool
    decreases a.len() - i,
{
    if i < 0 || i >= b.len() {
        false
    } else if i >= a.len() {
        true
    } else if a[i] != b[i] {
        a[i] < b[i]
    } else {
        lex_less_from(a, b, i + 1)
    }
}

/// `a` comes strictly before `b` in byte-wise lexicographic order.
pub open spec fn lex_less(a: Seq<u8>, b: Seq<u8>) -> bool {
    lex_less_from(a, b, 0)
}

/// Where a key `k` goes among the first `p` places of `order`: behind the
/// last of them whose key does not come after `k`.
pub open spec fn slot(keys: Seq<Seq<u8>>, order: Seq<int>, k: Seq<u8>, p: nat) -> nat
    decreases p,
{
    if p == 0 || p > order.len() {
        0
    } else if 0 <= order[p - 1] < keys.len() && lex_less(k, keys[order[p - 1]]) {
        slot(keys, order, k, (p - 1) as nat)
    } else {
        p
    }
}

/// The indices of the first `n` keys, in ascending key order; equal keys stay
/// in the order in which they stand.
pub open spec fn key_order(keys: Seq<Seq<u8>>, n: nat) -> Seq<int>
    decreases n,
{
    if n == 0 || n > keys.len() {
        Seq::empty()
    } else {
        let before = key_order(keys, (n - 1) as nat);
        before.insert(slot(keys, before, keys[n - 1], before.len()) as int, n - 1)
    }
}

pub open spec fn entry_keys(entries: Seq<(Seq<u8>, Term)>) -> Seq<Seq<u8>> {
    Seq::new(entries.len(), |i: int| entries[i].0)
}

pub open spec fn encode_integer(n: i64) -> Seq<u8> {
    if n < 0 {
        seq![INTEGER_START, MINUS] + decimal((-n) as nat) + seq![END]
    } else {
        seq![INTEGER_START] + decimal(n as nat) + seq![END]
    }
}

pub open spec fn encode_bytes(s: Seq<u8>) -> Seq<u8> {
    decimal(s.len()) + seq![COLON] + s
}

/// The canonical encoding of a value.
pub open spec fn encode_term(t: Term) -> Seq<u8>
    decreases t, 0nat,
{
    match t {
        Term::Integer(n) => encode_integer(n),
        Term::ByteString(s) => encode_bytes(s),
        Term::List(items) => seq![LIST_START] + encode_items(items, items.len()) + seq![END],
        Term::Dictionary(entries) => seq![DICTIONARY_START] + encode_entries(
            entries,
            key_order(entry_keys(entries), entries.len()),
            entries.len(),
        ) + seq![END],
    }
}

/// The encodings of the first `n` items, one after the other.
pub open spec fn encode_items(items: Seq<Term>, n: nat) -> Seq<u8>
    decreases items, n,
{
    if n == 0 || n > items.len() {
        Seq::empty()
    } else {
        encode_items(items, (n - 1) as nat) + encode_term(items[n - 1])
    }
}

/// The encodings of the entries that the first `n` places of `order` name,
/// each as its key and then its value.
pub open spec fn encode_entries(entries: Seq<(Seq<u8>, Term)>, order: Seq<int>, n: nat) -> Seq<u8>
    decreases entries, n,
{
    if n == 0 || n > order.len() {
        Seq::empty()
    } else {
        let i = order[n - 1];
        if 0 <= i < entries.len() {
            encode_entries(entries, order, (n - 1) as nat) + encode_bytes(entries[i].0)
                + encode_term(entries[i].1)
        } else {
            encode_entries(entries, order, (n - 1) as nat)
        }
    }
}

/// Whether one of the entries has the key `key`.
pub open spec fn has_key(entries: Seq<(Seq<u8>, Term)>, key: Seq<u8>) -> bool {
    exists|i: int| 0 <= i < entries.len() && (#[trigger] entries[i]).0 == key
}

/// Decodes the integer whose `i` stands at `pos`: an optional `-`, digits
/// without a leading zero (and no `-0`), then `e`.
pub open spec fn parse_integer(b: Seq<u8>, pos: int) -> Result<(Term, int), (ErrorKind, int)> {
    let neg = pos + 1 < b.len() && b[pos + 1] == MINUS;
    let s = if neg {
        pos + 2
    } else {
        pos + 1
    };
    let e = digits_end(b, s);
    let mag = digits_value(b, s, e);
    if s >= b.len() {
        Err((ErrorKind::UnexpectedEndOfInput, s))
    } else if !is_digit(b[s]) {
        Err((ErrorKind::InvalidInteger, s))
    } else if b[s] == ZERO && (neg || e - s > 1) {
        Err((ErrorKind::InvalidInteger, s))
    } else if mag > (if neg {
        0x8000_0000_0000_0000nat
    } else {
        0x7fff_ffff_ffff_ffffnat
    }) {
        Err((ErrorKind::IntegerOverflow, pos))
    } else if e >= b.len() {
        Err((ErrorKind::UnexpectedEndOfInput, e))
    } else if b[e] != END {
        Err((ErrorKind::InvalidInteger, e))
    } else {
        Ok((
            Term::Integer(
                (if neg {
                    -mag
                } else {
                    mag as int
                }) as i64,
            ),
            e + 1,
        ))
    }
}

/// Decodes the byte string whose length prefix starts at `pos`: digits
/// without a leading zero, a colon, then as many raw bytes as the prefix says.
pub open spec fn parse_bytes(b: Seq<u8>, pos: int) -> Result<(Seq<u8>, int), (ErrorKind, int)> {
    let e = digits_end(b, pos);
    let n = digits_value(b, pos, e);
    if pos < 0 || pos >= b.len() {
        Err((ErrorKind::UnexpectedEndOfInput, pos))
    } else if !is_digit(b[pos]) {
        Err((ErrorKind::InvalidLength, pos))
    } else if b[pos] == ZERO && e - pos > 1 {
        Err((ErrorKind::InvalidLength, pos))
    } else if e >= b.len() {
        Err((ErrorKind::UnexpectedEndOfInput, e))
    } else if b[e] != COLON {
        Err((ErrorKind::InvalidLength, e))
    } else if n > b.len() - e - 1 {
        Err((ErrorKind::UnexpectedEndOfInput, b.len() as int))
    } else {
        Ok((b.subrange(e + 1, e + 1 + n), e + 1 + n))
    }
}

/// Decodes the value that starts at `pos`, with `depth` more levels of
/// containers allowed. Gives the value and the position behind it, or the
/// first failure and its offset.
pub open spec fn parse_value(b: Seq<u8>, pos: int, depth: nat, strict: bool) -> Result<
    (Term, int),
    (ErrorKind, int),
>
    decreases depth, 0nat, 0nat,
{
    if pos < 0 || pos >= b.len() {
        Err((ErrorKind::UnexpectedEndOfInput, pos))
    } else if b[pos] == INTEGER_START {
        parse_integer(b, pos)
    } else if is_digit(b[pos]) {
        match parse_bytes(b, pos) {
            Ok((s, end)) => Ok((Term::ByteString(s), end)),
            Err(e) => Err(e),
        }
    } else if b[pos] == LIST_START {
        if depth == 0 {
            Err((ErrorKind::NestingTooDeep, pos))
        } else {
            match parse_list(b, pos + 1, (depth - 1) as nat, strict, Seq::empty()) {
                Ok((items, end)) => Ok((Term::List(items), end)),
                Err(e) => Err(e),
            }
        }
    } else if b[pos] == DICTIONARY_START {
        if depth == 0 {
            Err((ErrorKind::NestingTooDeep, pos))
        } else {
            match parse_dict(b, pos + 1, (depth - 1) as nat, strict, Seq::empty()) {
                Ok((entries, end)) => Ok((Term::Dictionary(entries), end)),
                Err(e) => Err(e),
            }
        }
    } else {
        Err((ErrorKind::UnexpectedByte, pos))
    }
}

/// Decodes list items from `pos` up to the closing `e`, behind the items
/// `acc` that were decoded before.
pub open spec fn parse_list(b: Seq<u8>, pos: int, depth: nat, strict: bool, acc: Seq<Term>) -> Result<
    (Seq<Term>, int),
    (ErrorKind, int),
>
    decreases depth, 1nat, b.len() - pos,
{
    if pos < 0 || pos >= b.len() {
        Err((ErrorKind::UnexpectedEndOfInput, pos))
    } else if b[pos] == END {
        Ok((acc, pos + 1))
    } else {
        match parse_value(b, pos, depth, strict) {
            Err(e) => Err(e),
            Ok((v, end)) => if pos < end <= b.len() {
                parse_list(b, end, depth, strict, acc.push(v))
            } else {
                Err((ErrorKind::UnexpectedEndOfInput, end))
            },
        }
    }
}

/// Decodes dictionary entries from `pos` up to the closing `e`, behind the
/// entries `acc` that were decoded before. A key must be a byte string that
/// no earlier entry has; in strict mode it must also come after the key
/// before it.
pub open spec fn parse_dict(
    b: Seq<u8>,
    pos: int,
    depth: nat,
    strict: bool,
    acc: Seq<(Seq<u8>, Term)>,
) -> Result<(Seq<(Seq<u8>, Term)>, int), (ErrorKind, int)>
    decreases depth, 1nat, b.len() - pos,
{
    if pos < 0 || pos >= b.len() {
        Err((ErrorKind::UnexpectedEndOfInput, pos))
    } else if b[pos] == END {
        Ok((acc, pos + 1))
    } else if !is_digit(b[pos]) {
        Err((ErrorKind::InvalidDictionaryKey, pos))
    } else {
        match parse_bytes(b, pos) {
            Err(e) => Err(e),
            Ok((key, kend)) => if has_key(acc, key) {
                Err((ErrorKind::DuplicateKey, pos))
            } else if strict && acc.len() > 0 && !lex_less(acc.last().0, key) {
                Err((ErrorKind::UnsortedKeys, pos))
            } else if !(pos < kend <= b.len()) {
                Err((ErrorKind::UnexpectedEndOfInput, kend))
            } else {
                match parse_value(b, kend, depth, strict) {
                    Err(e) => Err(e),
                    Ok((v, vend)) => if kend < vend <= b.len() {
                        parse_dict(b, vend, depth, strict, acc.push((key, v)))
                    } else {
                        Err((ErrorKind::UnexpectedEndOfInput, vend))
                    },
                }
            },
        }
    }
}

/// Decodes a whole input: one value, with nothing behind it.
pub open spec fn decode_bytes(b: Seq<u8>, strict: bool, depth: nat) -> Result<
    Term,
    (ErrorKind, int),
> {
    match parse_value(b, 0, depth, strict) {
        Err(e) => Err(e),
        Ok((t, end)) => if end < b.len() {
            Err((ErrorKind::TrailingData, end))
        } else {
            Ok(t)
        },
    }
}

/// Decodes a whole input that must be a list.
pub open spec fn decode_list_bytes(b: Seq<u8>, strict: bool, depth: nat) -> Result<
    Term,
    (ErrorKind, int),
> {
    if b.len() == 0 {
        Err((ErrorKind::UnexpectedEndOfInput, 0))
    } else if b[0] != LIST_START {
        Err((ErrorKind::UnexpectedByte, 0))
    } else {
        decode_bytes(b, strict, depth)
    }
}

/// The kind of value that a first byte announces.
pub open spec fn byte_type(c: u8) -> Option<BencodeType> {
    if c == INTEGER_START {
        Some(BencodeType::Integer)
    } else if is_digit(c) {
        Some(BencodeType::String)
    } else if c == LIST_START {
        Some(BencodeType::List)
    } else if c == DICTIONARY_START {
        Some(BencodeType::Dictionary)
    } else {
        None
    }
}

/// The kind of value that the input's first byte announces.
pub open spec fn lookahead_type(b: Seq<u8>) -> Option<BencodeType> {
    if b.len() == 0 {
        None
    } else {
        byte_type(b[0])
    }
}

/// The input opens with `l` and closes with `e`.
pub open spec fn has_list_frame(b: Seq<u8>) -> bool {
    b.len() >= 2 && b[0] == LIST_START && b[b.len() - 1] == END
}

/// The length that a lone byte string announces: the input holds exactly one
/// colon, and before it a length prefix without a leading zero that fits the
/// machine's word.
pub open spec fn length_prefix(b: Seq<u8>) -> Option<usize> {
    let e = digits_end(b, 0);
    let n = digits_value(b, 0, e);
    if 0 < e < b.len() && b[e] == COLON && !(b[0] == ZERO && e > 1) && n <= usize::MAX && forall|j: int|
        e < j < b.len() ==> b[j] != COLON {
        Some(n as usize)
    } else {
        None
    }
}

} // verus!
