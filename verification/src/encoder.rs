//! The encoder: from a value to its canonical bytes.

use vstd::prelude::*;
use crate::grammar::{
    decimal, encode_bytes, encode_entries, encode_integer, encode_items, encode_term, entry_keys,
    key_order, lex_less, lex_less_from, slot, COLON, DICTIONARY_START, END, INTEGER_START,
    LIST_START, MINUS, ZERO,
};
use crate::value::{entries_view, items_view, lemma_dictionary_view, lemma_list_view, Value};

verus! {

/// Whether `a` comes strictly before `b` in byte-wise lexicographic order.
pub fn bytes_less(a: &[u8], b: &[u8]) -> (r: bool)
    ensures
        r == lex_less(a@, b@),
{
    let mut i: usize = 0;
    while i < a.len() && i < b.len()
        invariant
            lex_less(a@, b@) == lex_less_from(a@, b@, i as int),
            i <= a.len(),
        decreases a.len() - i,
    {
        if a[i] != b[i] {
            return a[i] < b[i];
        }
        i += 1;
    }
    i < b.len()
}

/// The places as integers.
pub open spec fn places(order: Seq<usize>) -> Seq<int> {
    order.map_values(|x: usize| x as int)
}

/// Appends the decimal digits of `n`.
fn push_decimal(out: &mut Vec<u8>, n: u64)
    ensures
        final(out)@ == old(out)@ + decimal(n as nat),
    decreases n,
{
    if n >= 10 {
        push_decimal(out, n / 10);
    }
    let d: u8 = (n % 10) as u8;
    out.push(ZERO + d);
    assert(final(out)@ =~= old(out)@ + decimal(n as nat));
}

/// Appends a byte string: its length, a colon, its bytes.
fn push_bytes(out: &mut Vec<u8>, s: &[u8])
    ensures
        final(out)@ == old(out)@ + encode_bytes(s@),
{
    push_decimal(out, s.len() as u64);
    out.push(COLON);
    out.extend_from_slice(s);
    assert(final(out)@ =~= old(out)@ + encode_bytes(s@));
}

/// Appends an integer: `i`, its decimal form, `e`.
fn push_integer(out: &mut Vec<u8>, n: i64)
    ensures
        final(out)@ == old(out)@ + encode_integer(n),
{
    out.push(INTEGER_START);
    if n < 0 {
        out.push(MINUS);
        let mag: u64 = (-(n as i128)) as u64;
        push_decimal(out, mag);
    } else {
        push_decimal(out, n as u64);
    }
    out.push(END);
    assert(final(out)@ =~= old(out)@ + encode_integer(n));
}

/// The indices of the entries in ascending key order; entries with equal
/// keys stay in the order in which they stand.
fn sorted_order(entries: &Vec<(Vec<u8>, Value)>) -> (order: Vec<usize>)
    ensures
        order@.len() == entries.len(),
        forall|j: int| 0 <= j < order@.len() ==> order@[j] < entries.len(),
        places(order@) == key_order(entry_keys(entries_view(entries@)), entries.len() as nat),
{
    let ghost keys = entry_keys(entries_view(entries@));
    let mut order: Vec<usize> = Vec::new();
    let mut n: usize = 0;
    assert(places(order@) =~= key_order(keys, 0));
    while n < entries.len()
        invariant
            n <= entries.len(),
            keys == entry_keys(entries_view(entries@)),
            order@.len() == n,
            forall|j: int| 0 <= j < order@.len() ==> order@[j] < n,
            places(order@) == key_order(keys, n as nat),
        decreases entries.len() - n,
    {
        let mut p: usize = order.len();
        while p > 0 && bytes_less(entries[n].0.as_slice(), entries[order[p - 1]].0.as_slice())
            invariant
                n < entries.len(),
                keys == entry_keys(entries_view(entries@)),
                order@.len() == n,
                forall|j: int| 0 <= j < order@.len() ==> order@[j] < n,
                p <= order@.len(),
                slot(keys, places(order@), keys[n as int], order@.len()) == slot(
                    keys,
                    places(order@),
                    keys[n as int],
                    p as nat,
                ),
            decreases p,
        {
            p -= 1;
        }
        let ghost before = places(order@);
        order.insert(p, n);
        assert(places(order@) =~= before.insert(p as int, n as int));
        n += 1;
    }
    order
}

/// Appends the canonical encoding of `v`.
fn encode_into(v: &Value, out: &mut Vec<u8>)
    ensures
        final(out)@ == old(out)@ + encode_term(v@),
    decreases v,
{
    let ghost start = out@;
    match v {
        Value::Integer(n) => push_integer(out, *n),
        Value::ByteString(s) => push_bytes(out, s.as_slice()),
        Value::List(items) => {
            proof {
                lemma_list_view(*items);
            }
            let ghost terms = items_view(items@);
            out.push(LIST_START);
            let mut i: usize = 0;
            assert(out@ =~= start + seq![LIST_START] + encode_items(terms, 0));
            while i < items.len()
                invariant
                    i <= items.len(),
                    *v == Value::List(*items),
                    terms == items_view(items@),
                    out@ == start + seq![LIST_START] + encode_items(terms, i as nat),
                decreases items.len() - i,
            {
                proof {
                    assert(v->List_0 == *items);
                    assert(decreases_to!(*v => v->List_0));
                    assert(decreases_to!(*items => items[i as int]));
                }
                encode_into(&items[i], out);
                assert(out@ =~= start + seq![LIST_START] + encode_items(terms, (i + 1) as nat));
                i += 1;
            }
            out.push(END);
            assert(out@ =~= start + encode_term(v@));
        },
        Value::Dictionary(entries) => {
            proof {
                lemma_dictionary_view(*entries);
            }
            let ghost terms = entries_view(entries@);
            let order = sorted_order(entries);
            out.push(DICTIONARY_START);
            let mut j: usize = 0;
            assert(out@ =~= start + seq![DICTIONARY_START] + encode_entries(terms, places(order@), 0));
            while j < order.len()
                invariant
                    j <= order@.len(),
                    *v == Value::Dictionary(*entries),
                    terms == entries_view(entries@),
                    forall|k: int| 0 <= k < order@.len() ==> order@[k] < entries.len(),
                    out@ == start + seq![DICTIONARY_START] + encode_entries(terms, places(order@), j as nat),
                decreases order@.len() - j,
            {
                let i: usize = order[j];
                push_bytes(out, entries[i].0.as_slice());
                proof {
                    assert(v->Dictionary_0 == *entries);
                    assert(decreases_to!(*v => v->Dictionary_0));
                    assert(decreases_to!(*entries => entries[i as int]));
                    assert(decreases_to!(entries[i as int] => entries[i as int].1));
                }
                encode_into(&entries[i].1, out);
                assert(out@ =~= start + seq![DICTIONARY_START] + encode_entries(
                    terms,
                    places(order@),
                    (j + 1) as nat,
                ));
                j += 1;
            }
            out.push(END);
            assert(out@ =~= start + encode_term(v@));
        },
    }
}

/// Encodes a value: an integer as `i`, its decimal form and `e`; a byte
/// string as its length, a colon and its bytes; a list as `l`, its items in
/// order and `e`; a dictionary as `d`, its entries in ascending key order and
/// `e`. Never fails.
pub fn encode(v: &Value) -> (out: Vec<u8>)
    ensures
        out@ == encode_term(v@),
{
    let mut out: Vec<u8> = Vec::new();
    encode_into(v, &mut out);
    assert(out@ =~= encode_term(v@));
    out
}

} // verus!
