//! What holds of the codec as a whole.

use vstd::prelude::*;
use crate::grammar::{
    decimal, decode_bytes, digits_end, digits_value, encode_bytes, encode_entries,
    encode_integer, encode_items, encode_term, entry_keys, is_digit, key_order, lex_less,
    lex_less_from, parse_bytes, parse_dict, parse_integer, parse_list, parse_value, slot,
    DICTIONARY_START, END, INTEGER_START, LIST_START, MINUS, ZERO,
};
use crate::value::Term;

verus! {

/// Each key comes strictly after the key before it.
pub open spec fn ascending_keys(entries: Seq<(Seq<u8>, Term)>) -> bool {
    forall|i: int, j: int|
        0 <= i && j == i + 1 && j < entries.len() ==> lex_less(
            (#[trigger] entries[i]).0,
            (#[trigger] entries[j]).0,
        )
}

/// The places `0, 1, ..` up to `n`, each in its own place.
pub open spec fn in_place(n: nat) -> Seq<int> {
    Seq::new(n, |i: int| i)
}

/// A run of digits ends inside the input, holds digits only, and stops at
/// the first byte that is none.
pub proof fn lemma_digits_end(b: Seq<u8>, s: int)
    requires
        0 <= s <= b.len(),
    ensures
        s <= digits_end(b, s) <= b.len(),
        forall|j: int| s <= j < digits_end(b, s) ==> is_digit(#[trigger] b[j]),
        digits_end(b, s) < b.len() ==> !is_digit(b[digits_end(b, s)]),
    decreases b.len() - s,
{
    if s < b.len() && is_digit(b[s]) {
        lemma_digits_end(b, s + 1);
    }
}

/// Digits without a leading zero are the decimal form of the number they
/// spell.
pub proof fn lemma_decimal_of_digits(b: Seq<u8>, s: int, e: int)
    requires
        0 <= s < e <= b.len(),
        forall|j: int| s <= j < e ==> is_digit(#[trigger] b[j]),
        e - s > 1 ==> b[s] != ZERO,
    ensures
        decimal(digits_value(b, s, e)) == b.subrange(s, e),
        b[s] != ZERO ==> digits_value(b, s, e) > 0,
    decreases e - s,
{
    let d = (b[e - 1] - ZERO) as nat;
    assert(is_digit(b[e - 1]));
    if e - s == 1 {
        assert(digits_value(b, s, e - 1) == 0);
        assert(digits_value(b, s, e) == d);
        assert(decimal(d) =~= b.subrange(s, e));
    } else {
        lemma_decimal_of_digits(b, s, e - 1);
        let v = digits_value(b, s, e - 1);
        let w = digits_value(b, s, e);
        assert(w == v * 10 + d);
        assert(w / 10 == v && w % 10 == d);
        assert(decimal(w) == decimal(v).push((ZERO + d) as u8));
        assert(b.subrange(s, e) =~= b.subrange(s, e - 1).push(b[e - 1]));
    }
}

/// Of two byte strings, at most one comes before the other.
pub proof fn lemma_lex_asymmetric(a: Seq<u8>, b: Seq<u8>, i: int)
    requires
        0 <= i,
        lex_less_from(a, b, i),
    ensures
        !lex_less_from(b, a, i),
    decreases a.len() - i,
{
    if i < a.len() && i < b.len() && a[i] == b[i] {
        lemma_lex_asymmetric(a, b, i + 1);
    }
}

/// Entries whose keys ascend are encoded in the order in which they stand.
pub proof fn lemma_ascending_order(entries: Seq<(Seq<u8>, Term)>, n: nat)
    requires
        ascending_keys(entries),
        n <= entries.len(),
    ensures
        key_order(entry_keys(entries), n) == in_place(n),
    decreases n,
{
    let keys = entry_keys(entries);
    if n > 0 {
        lemma_ascending_order(entries, (n - 1) as nat);
        let before = key_order(keys, (n - 1) as nat);
        if n > 1 {
            assert(lex_less(entries[n - 2].0, entries[n - 1].0));
            lemma_lex_asymmetric(keys[n - 2], keys[n - 1], 0);
            assert(before[n - 2] == n - 2);
        }
        assert(slot(keys, before, keys[n - 1], before.len()) == n - 1);
        assert(before.insert(n - 1, n - 1) =~= in_place(n));
    } else {
        assert(key_order(keys, 0) =~= in_place(0));
    }
}

proof fn lemma_integer_round_trip(b: Seq<u8>, pos: int)
    requires
        0 <= pos < b.len(),
        b[pos] == INTEGER_START,
        parse_integer(b, pos) is Ok,
    ensures
        ({
            let r = parse_integer(b, pos)->Ok_0;
            pos < r.1 <= b.len() && encode_term(r.0) == b.subrange(pos, r.1)
        }),
{
    let neg = pos + 1 < b.len() && b[pos + 1] == MINUS;
    let s = if neg {
        pos + 2
    } else {
        pos + 1
    };
    let e = digits_end(b, s);
    lemma_digits_end(b, s);
    assert(e > s);
    lemma_decimal_of_digits(b, s, e);
    let r = parse_integer(b, pos)->Ok_0;
    let n = r.0->Integer_0;
    assert(r.0 == Term::Integer(n));
    assert(encode_integer(n) =~= b.subrange(pos, e + 1));
}

proof fn lemma_bytes_round_trip(b: Seq<u8>, pos: int)
    requires
        parse_bytes(b, pos) is Ok,
    ensures
        ({
            let r = parse_bytes(b, pos)->Ok_0;
            pos < r.1 <= b.len() && encode_bytes(r.0) == b.subrange(pos, r.1)
        }),
{
    let e = digits_end(b, pos);
    lemma_digits_end(b, pos);
    assert(e > pos);
    lemma_decimal_of_digits(b, pos, e);
    let r = parse_bytes(b, pos)->Ok_0;
    assert(encode_bytes(r.0) =~= b.subrange(pos, r.1));
}

proof fn lemma_value_round_trip(b: Seq<u8>, pos: int, depth: nat)
    requires
        parse_value(b, pos, depth, true) is Ok,
    ensures
        ({
            let r = parse_value(b, pos, depth, true)->Ok_0;
            pos < r.1 <= b.len() && encode_term(r.0) == b.subrange(pos, r.1)
        }),
    decreases depth, 0nat, 0nat,
{
    let r = parse_value(b, pos, depth, true)->Ok_0;
    if b[pos] == INTEGER_START {
        lemma_integer_round_trip(b, pos);
    } else if is_digit(b[pos]) {
        lemma_bytes_round_trip(b, pos);
    } else if b[pos] == LIST_START {
        lemma_list_round_trip(b, pos + 1, (depth - 1) as nat, Seq::empty());
        let items = r.0->List_0;
        assert(encode_items(items, 0) =~= Seq::<u8>::empty());
        assert(encode_term(r.0) =~= b.subrange(pos, r.1));
    } else {
        assert(b[pos] == DICTIONARY_START);
        lemma_dict_round_trip(b, pos + 1, (depth - 1) as nat, Seq::empty());
        let entries = r.0->Dictionary_0;
        lemma_ascending_order(entries, entries.len());
        assert(encode_entries(entries, in_place(entries.len()), 0) =~= Seq::<u8>::empty());
        assert(encode_term(r.0) =~= b.subrange(pos, r.1));
    }
}

proof fn lemma_list_round_trip(b: Seq<u8>, pos: int, depth: nat, acc: Seq<Term>)
    requires
        parse_list(b, pos, depth, true, acc) is Ok,
    ensures
        ({
            let r = parse_list(b, pos, depth, true, acc)->Ok_0;
            &&& pos < r.1 <= b.len()
            &&& b[r.1 - 1] == END
            &&& acc.len() <= r.0.len()
            &&& forall|i: int| 0 <= i < acc.len() ==> r.0[i] == acc[i]
            &&& encode_items(r.0, r.0.len()) == encode_items(r.0, acc.len()) + b.subrange(
                pos,
                r.1 - 1,
            )
        }),
    decreases depth, 1nat, b.len() - pos,
{
    let r = parse_list(b, pos, depth, true, acc)->Ok_0;
    if b[pos] == END {
        assert(encode_items(r.0, r.0.len()) =~= encode_items(r.0, acc.len()) + b.subrange(
            pos,
            r.1 - 1,
        ));
    } else {
        lemma_value_round_trip(b, pos, depth);
        let step = parse_value(b, pos, depth, true)->Ok_0;
        let next = acc.push(step.0);
        lemma_list_round_trip(b, step.1, depth, next);
        assert(r.0[acc.len() as int] == next[acc.len() as int]);
        assert forall|i: int| 0 <= i < acc.len() implies r.0[i] == acc[i] by {
            assert(r.0[i] == next[i]);
        }
        assert(encode_items(r.0, next.len()) == encode_items(r.0, acc.len()) + encode_term(
            step.0,
        ));
        assert(b.subrange(pos, r.1 - 1) =~= b.subrange(pos, step.1) + b.subrange(
            step.1,
            r.1 - 1,
        ));
        assert(encode_items(r.0, r.0.len()) =~= encode_items(r.0, acc.len()) + b.subrange(
            pos,
            r.1 - 1,
        ));
    }
}

proof fn lemma_dict_round_trip(b: Seq<u8>, pos: int, depth: nat, acc: Seq<(Seq<u8>, Term)>)
    requires
        parse_dict(b, pos, depth, true, acc) is Ok,
        ascending_keys(acc),
    ensures
        ({
            let r = parse_dict(b, pos, depth, true, acc)->Ok_0;
            let order = in_place(r.0.len());
            &&& pos < r.1 <= b.len()
            &&& b[r.1 - 1] == END
            &&& acc.len() <= r.0.len()
            &&& forall|i: int| 0 <= i < acc.len() ==> r.0[i] == acc[i]
            &&& ascending_keys(r.0)
            &&& encode_entries(r.0, order, r.0.len()) == encode_entries(r.0, order, acc.len())
                + b.subrange(pos, r.1 - 1)
        }),
    decreases depth, 1nat, b.len() - pos,
{
    let r = parse_dict(b, pos, depth, true, acc)->Ok_0;
    let order = in_place(r.0.len());
    if b[pos] == END {
        assert(encode_entries(r.0, order, r.0.len()) =~= encode_entries(r.0, order, acc.len())
            + b.subrange(pos, r.1 - 1));
    } else {
        lemma_bytes_round_trip(b, pos);
        let head = parse_bytes(b, pos)->Ok_0;
        lemma_value_round_trip(b, head.1, depth);
        let step = parse_value(b, head.1, depth, true)->Ok_0;
        let next = acc.push((head.0, step.0));
        assert(ascending_keys(next)) by {
            assert forall|i: int, j: int|
                0 <= i && j == i + 1 && j < next.len() implies lex_less(
                (#[trigger] next[i]).0,
                (#[trigger] next[j]).0,
            ) by {
                if j < acc.len() {
                    assert(next[i] == acc[i] && next[j] == acc[j]);
                } else {
                    assert(next[i] == acc.last());
                }
            }
        }
        lemma_dict_round_trip(b, step.1, depth, next);
        assert(r.0[acc.len() as int] == next[acc.len() as int]);
        assert forall|i: int| 0 <= i < acc.len() implies r.0[i] == acc[i] by {
            assert(r.0[i] == next[i]);
        }
        assert(order[acc.len() as int] == acc.len());
        assert(encode_entries(r.0, order, next.len()) == encode_entries(r.0, order, acc.len())
            + encode_bytes(head.0) + encode_term(step.0));
        assert(b.subrange(pos, r.1 - 1) =~= b.subrange(pos, head.1) + b.subrange(
            head.1,
            step.1,
        ) + b.subrange(step.1, r.1 - 1));
        assert(encode_entries(r.0, order, r.0.len()) =~= encode_entries(r.0, order, acc.len())
            + b.subrange(pos, r.1 - 1));
    }
}

proof fn lemma_strict_value(b: Seq<u8>, pos: int, depth: nat)
    requires
        parse_value(b, pos, depth, true) is Ok,
    ensures
        parse_value(b, pos, depth, false) == parse_value(b, pos, depth, true),
    decreases depth, 0nat, 0nat,
{
    if b[pos] == INTEGER_START {
    } else if is_digit(b[pos]) {
    } else if b[pos] == LIST_START {
        lemma_strict_list(b, pos + 1, (depth - 1) as nat, Seq::empty());
    } else {
        lemma_strict_dict(b, pos + 1, (depth - 1) as nat, Seq::empty());
    }
}

proof fn lemma_strict_list(b: Seq<u8>, pos: int, depth: nat, acc: Seq<Term>)
    requires
        parse_list(b, pos, depth, true, acc) is Ok,
    ensures
        parse_list(b, pos, depth, false, acc) == parse_list(b, pos, depth, true, acc),
    decreases depth, 1nat, b.len() - pos,
{
    if b[pos] != END {
        lemma_strict_value(b, pos, depth);
        let step = parse_value(b, pos, depth, true)->Ok_0;
        lemma_strict_list(b, step.1, depth, acc.push(step.0));
    }
}

proof fn lemma_strict_dict(b: Seq<u8>, pos: int, depth: nat, acc: Seq<(Seq<u8>, Term)>)
    requires
        parse_dict(b, pos, depth, true, acc) is Ok,
    ensures
        parse_dict(b, pos, depth, false, acc) == parse_dict(b, pos, depth, true, acc),
    decreases depth, 1nat, b.len() - pos,
{
    if b[pos] != END {
        let head = parse_bytes(b, pos)->Ok_0;
        lemma_strict_value(b, head.1, depth);
        let step = parse_value(b, head.1, depth, true)->Ok_0;
        lemma_strict_dict(b, step.1, depth, acc.push((head.0, step.0)));
    }
}

/// What strict mode accepts, the default mode decodes to the same value.
pub proof fn law_strict_agrees(b: Seq<u8>, depth: nat)
    requires
        decode_bytes(b, true, depth) is Ok,
    ensures
        decode_bytes(b, false, depth) == decode_bytes(b, true, depth),
{
    lemma_strict_value(b, 0, depth);
}

/// Round trip: an input that strict mode accepts, that is, a canonical
/// encoding, is what its decoded value encodes to, in whichever mode it was
/// decoded.
pub proof fn law_round_trip(b: Seq<u8>, depth: nat, strict: bool)
    requires
        decode_bytes(b, true, depth) is Ok,
    ensures
        decode_bytes(b, strict, depth) is Ok,
        encode_term(decode_bytes(b, strict, depth)->Ok_0) == b,
{
    law_strict_agrees(b, depth);
    lemma_value_round_trip(b, 0, depth);
    let r = parse_value(b, 0, depth, true)->Ok_0;
    assert(b.subrange(0, r.1) =~= b);
}

} // verus!
