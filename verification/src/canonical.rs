//! Decoding what the encoder wrote: the canonical form of a value, and the
//! proof that the decoder gives it back.

use vstd::prelude::*;
use crate::grammar::{
    decimal, decode_bytes, digits_end, digits_value, encode_bytes, encode_entries,
    encode_integer, encode_items, encode_term, entry_keys, has_key, is_digit, key_order,
    lex_less, lex_less_from, parse_bytes, parse_dict, parse_integer, parse_list, parse_value,
    slot, COLON, DICTIONARY_START, END, INTEGER_START, LIST_START, MINUS, ZERO,
};
use crate::laws::lemma_lex_asymmetric;
use crate::value::{ErrorKind, Term};

verus! {

/// No two entries have the same key.
pub open spec fn distinct_keys(entries: Seq<(Seq<u8>, Term)>) -> bool {
    forall|i: int, j: int|
        0 <= i < j < entries.len() ==> (#[trigger] entries[i]).0 != (#[trigger] entries[j]).0
}

/// The value nests at most `depth` containers, and none of its dictionaries
/// has a key twice.
pub open spec fn admissible(t: Term, depth: nat) -> bool
    decreases t,
{
    match t {
        Term::Integer(_) => true,
        Term::ByteString(_) => true,
        Term::List(items) => depth > 0 && forall|i: int|
            0 <= i < items.len() ==> admissible(#[trigger] items[i], (depth - 1) as nat),
        Term::Dictionary(entries) => depth > 0 && distinct_keys(entries) && forall|i: int|
            0 <= i < entries.len() ==> admissible((#[trigger] entries[i]).1, (depth - 1) as nat),
    }
}

/// The value with the entries of each dictionary in ascending key order.
pub open spec fn canonical(t: Term) -> Term
    decreases t, 0nat,
{
    match t {
        Term::Integer(n) => t,
        Term::ByteString(s) => t,
        Term::List(items) => Term::List(canonical_items(items, items.len())),
        Term::Dictionary(entries) => Term::Dictionary(
            canonical_entries(
                entries,
                key_order(entry_keys(entries), entries.len()),
                entries.len(),
            ),
        ),
    }
}

/// The canonical forms of the first `n` items.
pub open spec fn canonical_items(items: Seq<Term>, n: nat) -> Seq<Term>
    decreases items, n,
{
    if n == 0 || n > items.len() {
        Seq::empty()
    } else {
        canonical_items(items, (n - 1) as nat).push(canonical(items[n - 1]))
    }
}

/// The entries that the first `n` places of `order` name, each with its
/// value in canonical form.
pub open spec fn canonical_entries(entries: Seq<(Seq<u8>, Term)>, order: Seq<int>, n: nat) -> Seq<
    (Seq<u8>, Term),
>
    decreases entries, n,
{
    if n == 0 || n > order.len() {
        Seq::empty()
    } else {
        let i = order[n - 1];
        if 0 <= i < entries.len() {
            canonical_entries(entries, order, (n - 1) as nat).push(
                (entries[i].0, canonical(entries[i].1)),
            )
        } else {
            canonical_entries(entries, order, (n - 1) as nat)
        }
    }
}

/// A decimal form is one digit or more, and starts with `0` only for zero.
pub proof fn lemma_decimal_shape(n: nat)
    ensures
        decimal(n).len() >= 1,
        forall|j: int| 0 <= j < decimal(n).len() ==> is_digit(#[trigger] decimal(n)[j]),
        (decimal(n)[0] == ZERO) == (n == 0),
        n == 0 ==> decimal(n).len() == 1,
    decreases n,
{
    if n >= 10 {
        lemma_decimal_shape(n / 10);
    }
}

/// A stretch of digits with no digit behind it is a whole run.
pub proof fn lemma_digits_run(b: Seq<u8>, s: int, e: int)
    requires
        0 <= s <= e <= b.len(),
        forall|j: int| s <= j < e ==> is_digit(#[trigger] b[j]),
        e < b.len() ==> !is_digit(b[e]),
    ensures
        digits_end(b, s) == e,
    decreases e - s,
{
    if s < e {
        lemma_digits_run(b, s + 1, e);
    }
}

/// The decimal form of `n` spells `n`.
pub proof fn lemma_value_of_decimal(b: Seq<u8>, s: int, n: nat)
    requires
        0 <= s,
        s + decimal(n).len() <= b.len(),
        b.subrange(s, s + decimal(n).len()) == decimal(n),
    ensures
        digits_value(b, s, s + decimal(n).len()) == n,
    decreases n,
{
    let e = s + decimal(n).len();
    lemma_decimal_shape(n);
    assert(b.subrange(s, e)[decimal(n).len() - 1] == b[e - 1]);
    if n >= 10 {
        assert(b.subrange(s, e - 1) =~= decimal(n / 10));
        lemma_value_of_decimal(b, s, n / 10);
    } else {
        assert(digits_value(b, s, s) == 0);
    }
}

/// Where the bytes of `part` stand in `b` from `pos` on, each byte of `b`
/// there is the byte of `part`.
pub proof fn lemma_stands_at(b: Seq<u8>, pos: int, part: Seq<u8>)
    requires
        0 <= pos,
        pos + part.len() <= b.len(),
        b.subrange(pos, pos + part.len()) == part,
    ensures
        forall|j: int| 0 <= j < part.len() ==> b[pos + j] == #[trigger] part[j],
{
    assert forall|j: int| 0 <= j < part.len() implies b[pos + j] == #[trigger] part[j] by {
        assert(b.subrange(pos, pos + part.len())[j] == b[pos + j]);
    }
}

proof fn lemma_parse_encoded_integer(b: Seq<u8>, pos: int, n: i64)
    requires
        0 <= pos,
        pos + encode_integer(n).len() <= b.len(),
        b.subrange(pos, pos + encode_integer(n).len()) == encode_integer(n),
    ensures
        b[pos] == INTEGER_START,
        parse_integer(b, pos) == Ok::<(Term, int), (ErrorKind, int)>(
            (Term::Integer(n), pos + encode_integer(n).len()),
        ),
{
    let enc = encode_integer(n);
    let mag: nat = if n < 0 {
        (-n) as nat
    } else {
        n as nat
    };
    let dec = decimal(mag);
    lemma_decimal_shape(mag);
    lemma_stands_at(b, pos, enc);
    let s = if n < 0 {
        pos + 2
    } else {
        pos + 1
    };
    let e = s + dec.len();
    assert(enc[0] == INTEGER_START);
    assert(enc.len() == (s - pos) + dec.len() + 1);
    assert forall|j: int| 0 <= j < dec.len() implies b[s + j] == dec[j] by {
        assert(enc[s - pos + j] == dec[j]);
    }
    assert(enc[e - pos] == END);
    assert(b[e] == END);
    if n < 0 {
        assert(enc[1] == MINUS);
    } else {
        assert(enc[1] == dec[0]);
    }
    assert(b.subrange(s, e) =~= dec);
    assert forall|j: int| s <= j < e implies is_digit(#[trigger] b[j]) by {
        assert(b[s + (j - s)] == dec[j - s]);
    }
    lemma_digits_run(b, s, e);
    lemma_value_of_decimal(b, s, mag);
}

proof fn lemma_parse_encoded_bytes(b: Seq<u8>, pos: int, s: Seq<u8>)
    requires
        0 <= pos,
        pos + encode_bytes(s).len() <= b.len(),
        b.subrange(pos, pos + encode_bytes(s).len()) == encode_bytes(s),
    ensures
        is_digit(b[pos]),
        parse_bytes(b, pos) == Ok::<(Seq<u8>, int), (ErrorKind, int)>(
            (s, pos + encode_bytes(s).len()),
        ),
{
    let enc = encode_bytes(s);
    let dec = decimal(s.len());
    lemma_decimal_shape(s.len());
    lemma_stands_at(b, pos, enc);
    let e = pos + dec.len();
    assert(enc.len() == dec.len() + 1 + s.len());
    assert forall|j: int| 0 <= j < dec.len() implies b[pos + j] == dec[j] by {
        assert(enc[j] == dec[j]);
    }
    assert(enc[dec.len() as int] == COLON);
    assert(b[e] == COLON);
    assert(b.subrange(pos, e) =~= dec);
    assert forall|j: int| pos <= j < e implies is_digit(#[trigger] b[j]) by {
        assert(b[pos + (j - pos)] == dec[j - pos]);
    }
    lemma_digits_run(b, pos, e);
    lemma_value_of_decimal(b, pos, s.len());
    assert forall|j: int| 0 <= j < s.len() implies b[e + 1 + j] == s[j] by {
        assert(enc[dec.len() + 1 + j] == s[j]);
    }
    assert(b.subrange(e + 1, e + 1 + s.len()) =~= s);
}

/// An encoding starts with the byte that announces its kind.
pub proof fn lemma_first_byte(t: Term)
    ensures
        encode_term(t).len() >= 2,
        match t {
            Term::Integer(_) => encode_term(t)[0] == INTEGER_START,
            Term::ByteString(_) => is_digit(encode_term(t)[0]),
            Term::List(_) => encode_term(t)[0] == LIST_START,
            Term::Dictionary(_) => encode_term(t)[0] == DICTIONARY_START,
        },
{
    match t {
        Term::Integer(n) => {
            if n < 0 {
                lemma_decimal_shape((-n) as nat);
            } else {
                lemma_decimal_shape(n as nat);
            }
        },
        Term::ByteString(s) => {
            lemma_decimal_shape(s.len());
            assert(encode_bytes(s)[0] == decimal(s.len())[0]);
        },
        Term::List(items) => {},
        Term::Dictionary(entries) => {},
    }
}

proof fn lemma_items_prefix(items: Seq<Term>, k: nat, n: nat)
    requires
        k <= n <= items.len(),
    ensures
        encode_items(items, k).len() <= encode_items(items, n).len(),
        encode_items(items, n).subrange(0, encode_items(items, k).len() as int) == encode_items(
            items,
            k,
        ),
    decreases n - k,
{
    if k < n {
        lemma_items_prefix(items, k, (n - 1) as nat);
    }
    assert(encode_items(items, n).subrange(0, encode_items(items, k).len() as int)
        =~= encode_items(items, k));
}

proof fn lemma_entries_prefix(entries: Seq<(Seq<u8>, Term)>, order: Seq<int>, k: nat, n: nat)
    requires
        k <= n <= order.len(),
    ensures
        encode_entries(entries, order, k).len() <= encode_entries(entries, order, n).len(),
        encode_entries(entries, order, n).subrange(
            0,
            encode_entries(entries, order, k).len() as int,
        ) == encode_entries(entries, order, k),
    decreases n - k,
{
    if k < n {
        lemma_entries_prefix(entries, order, k, (n - 1) as nat);
    }
    assert(encode_entries(entries, order, n).subrange(
        0,
        encode_entries(entries, order, k).len() as int,
    ) =~= encode_entries(entries, order, k));
}

/// The places hold each of `0, 1, ..` up to `n` once.
pub open spec fn is_arrangement(order: Seq<int>, n: nat) -> bool {
    &&& order.len() == n
    &&& forall|j: int| 0 <= j < n ==> 0 <= #[trigger] order[j] < n
    &&& forall|i: int, j: int| 0 <= i < j < n ==> #[trigger] order[i] != #[trigger] order[j]
}

/// No key comes before the key in the place before it.
pub open spec fn ordered_by_key(keys: Seq<Seq<u8>>, order: Seq<int>) -> bool {
    forall|i: int, j: int|
        0 <= i && j == i + 1 && j < order.len() ==> !lex_less(
            keys[#[trigger] order[j]],
            keys[#[trigger] order[i]],
        )
}

proof fn lemma_insert_index(s: Seq<int>, p: int, x: int, j: int)
    requires
        0 <= p <= s.len(),
        0 <= j <= s.len(),
    ensures
        s.insert(p, x).len() == s.len() + 1,
        s.insert(p, x)[j] == (if j < p {
            s[j]
        } else if j == p {
            x
        } else {
            s[j - 1]
        }),
{
}

proof fn lemma_slot(keys: Seq<Seq<u8>>, order: Seq<int>, k: Seq<u8>, p: nat)
    requires
        p <= order.len(),
        forall|j: int| 0 <= j < order.len() ==> 0 <= #[trigger] order[j] < keys.len(),
    ensures
        slot(keys, order, k, p) <= p,
        forall|j: int|
            slot(keys, order, k, p) <= j < p ==> lex_less(k, keys[#[trigger] order[j]]),
        slot(keys, order, k, p) > 0 ==> !lex_less(k, keys[order[slot(keys, order, k, p) - 1]]),
    decreases p,
{
    if p > 0 && lex_less(k, keys[order[p - 1]]) {
        lemma_slot(keys, order, k, (p - 1) as nat);
    }
}

/// The encoder's order names every entry once.
pub proof fn lemma_key_order_arrangement(keys: Seq<Seq<u8>>, n: nat)
    requires
        n <= keys.len(),
    ensures
        is_arrangement(key_order(keys, n), n),
    decreases n,
{
    if n > 0 {
        lemma_key_order_arrangement(keys, (n - 1) as nat);
        let before = key_order(keys, (n - 1) as nat);
        lemma_slot(keys, before, keys[n - 1], before.len());
        let p = slot(keys, before, keys[n - 1], before.len()) as int;
        let after = before.insert(p, n - 1);
        assert forall|j: int| 0 <= j < n implies 0 <= #[trigger] after[j] < n by {
            lemma_insert_index(before, p, n - 1, j);
        }
        assert forall|i: int, j: int| 0 <= i < j < n implies #[trigger] after[i]
            != #[trigger] after[j] by {
            lemma_insert_index(before, p, n - 1, i);
            lemma_insert_index(before, p, n - 1, j);
        }
        lemma_insert_index(before, p, n - 1, 0);
    }
}

/// The encoder's order is ascending by key.
pub proof fn lemma_key_order_sorted(keys: Seq<Seq<u8>>, n: nat)
    requires
        n <= keys.len(),
    ensures
        ordered_by_key(keys, key_order(keys, n)),
    decreases n,
{
    if n > 0 {
        lemma_key_order_sorted(keys, (n - 1) as nat);
        lemma_key_order_arrangement(keys, (n - 1) as nat);
        let before = key_order(keys, (n - 1) as nat);
        lemma_slot(keys, before, keys[n - 1], before.len());
        let p = slot(keys, before, keys[n - 1], before.len()) as int;
        let after = before.insert(p, n - 1);
        lemma_insert_index(before, p, n - 1, 0);
        assert forall|i: int, j: int| 0 <= i && j == i + 1 && j < after.len() implies !lex_less(
            keys[#[trigger] after[j]],
            keys[#[trigger] after[i]],
        ) by {
            lemma_insert_index(before, p, n - 1, i);
            lemma_insert_index(before, p, n - 1, j);
            if j < p {
                assert(!lex_less(keys[before[j]], keys[before[i]]));
            } else if j == p {
            } else if i == p {
                assert(lex_less(keys[n - 1], keys[before[p]]));
                lemma_lex_asymmetric(keys[n - 1], keys[before[p]], 0);
            } else {
                assert(!lex_less(keys[before[j - 1]], keys[before[i - 1]]));
            }
        }
    }
}

/// Of two different byte strings, one comes before the other.
pub proof fn lemma_lex_total(a: Seq<u8>, b: Seq<u8>, i: int)
    requires
        0 <= i <= a.len(),
        i <= b.len(),
        forall|j: int| 0 <= j < i ==> a[j] == b[j],
        a != b,
    ensures
        lex_less_from(a, b, i) || lex_less_from(b, a, i),
    decreases a.len() - i,
{
    if i >= a.len() {
        if i >= b.len() {
            assert(a =~= b);
        }
    } else if i < b.len() && a[i] == b[i] {
        lemma_lex_total(a, b, i + 1);
    }
}

proof fn lemma_canonical_entries(entries: Seq<(Seq<u8>, Term)>, order: Seq<int>, k: nat)
    requires
        k <= order.len(),
        forall|j: int| 0 <= j < order.len() ==> 0 <= #[trigger] order[j] < entries.len(),
    ensures
        canonical_entries(entries, order, k).len() == k,
        forall|j: int|
            0 <= j < k ==> (#[trigger] canonical_entries(entries, order, k)[j]).0
                == entries[order[j]].0,
    decreases k,
{
    if k > 0 {
        lemma_canonical_entries(entries, order, (k - 1) as nat);
    }
}

/// Where a list's items stand in `b` from `start` on, item `k` stands behind
/// the items before it.
proof fn lemma_item_placed(b: Seq<u8>, start: int, items: Seq<Term>, k: nat)
    requires
        0 <= start,
        k < items.len(),
        start + encode_items(items, items.len()).len() <= b.len(),
        b.subrange(start, start + encode_items(items, items.len()).len()) == encode_items(
            items,
            items.len(),
        ),
    ensures
        ({
            let here = start + encode_items(items, k).len();
            let enc = encode_term(items[k as int]);
            &&& encode_items(items, k + 1).len() == encode_items(items, k).len() + enc.len()
            &&& here + enc.len() <= start + encode_items(items, items.len()).len()
            &&& b.subrange(here, here + enc.len()) == enc
        }),
{
    let body = encode_items(items, items.len());
    let done = encode_items(items, k).len() as int;
    let here = start + done;
    let enc = encode_term(items[k as int]);
    let upto = encode_items(items, k + 1);
    lemma_items_prefix(items, k + 1, items.len());
    lemma_stands_at(b, start, body);
    assert(upto.len() == done + enc.len());
    assert forall|j: int| 0 <= j < enc.len() implies b[here + j] == enc[j] by {
        assert(body.subrange(0, upto.len() as int)[done + j] == body[done + j]);
        assert(upto[done + j] == enc[j]);
        assert(b[start + (done + j)] == body[done + j]);
    }
    assert(b.subrange(here, here + enc.len()) =~= enc);
}

/// Where a dictionary's entries stand in `b` from `start` on, the entry in
/// place `k` stands behind the entries before it, its key first.
proof fn lemma_entry_placed(
    b: Seq<u8>,
    start: int,
    entries: Seq<(Seq<u8>, Term)>,
    order: Seq<int>,
    k: nat,
)
    requires
        0 <= start,
        k < order.len(),
        0 <= order[k as int] < entries.len(),
        start + encode_entries(entries, order, order.len()).len() <= b.len(),
        b.subrange(start, start + encode_entries(entries, order, order.len()).len())
            == encode_entries(entries, order, order.len()),
    ensures
        ({
            let here = start + encode_entries(entries, order, k).len();
            let head = encode_bytes(entries[order[k as int]].0);
            let tail = encode_term(entries[order[k as int]].1);
            &&& encode_entries(entries, order, k + 1).len() == encode_entries(
                entries,
                order,
                k,
            ).len() + head.len() + tail.len()
            &&& here + head.len() + tail.len() <= start + encode_entries(
                entries,
                order,
                order.len(),
            ).len()
            &&& b.subrange(here, here + head.len()) == head
            &&& b.subrange(here + head.len(), here + head.len() + tail.len()) == tail
        }),
{
    let body = encode_entries(entries, order, order.len());
    let done = encode_entries(entries, order, k).len() as int;
    let here = start + done;
    let i = order[k as int];
    let head = encode_bytes(entries[i].0);
    let tail = encode_term(entries[i].1);
    let upto = encode_entries(entries, order, k + 1);
    lemma_entries_prefix(entries, order, k + 1, order.len());
    lemma_stands_at(b, start, body);
    assert(upto == encode_entries(entries, order, k) + head + tail);
    assert(upto.len() == done + head.len() + tail.len());
    assert forall|j: int| 0 <= j < head.len() implies b[here + j] == head[j] by {
        assert(body.subrange(0, upto.len() as int)[done + j] == body[done + j]);
        assert(upto[done + j] == head[j]);
        assert(b[start + (done + j)] == body[done + j]);
    }
    assert(b.subrange(here, here + head.len()) =~= head);
    let mid = here + head.len();
    assert forall|j: int| 0 <= j < tail.len() implies b[mid + j] == tail[j] by {
        assert(body.subrange(0, upto.len() as int)[done + head.len() + j] == body[done
            + head.len() + j]);
        assert(upto[done + head.len() + j] == tail[j]);
        assert(b[start + (done + head.len() + j)] == body[done + head.len() + j]);
    }
    assert(b.subrange(mid, mid + tail.len()) =~= tail);
}

/// In the encoder's order, the key in place `k` is none of the keys before
/// it and comes after the key just before it.
proof fn lemma_key_accepted(entries: Seq<(Seq<u8>, Term)>, k: nat)
    requires
        k < entries.len(),
        distinct_keys(entries),
    ensures
        ({
            let order = key_order(entry_keys(entries), entries.len());
            let acc = canonical_entries(entries, order, k);
            let key = entries[order[k as int]].0;
            &&& 0 <= order[k as int] < entries.len()
            &&& acc.len() == k
            &&& !has_key(acc, key)
            &&& k > 0 ==> lex_less(acc.last().0, key)
            &&& canonical_entries(entries, order, k + 1) == acc.push(
                (key, canonical(entries[order[k as int]].1)),
            )
        }),
{
    let keys = entry_keys(entries);
    let order = key_order(keys, entries.len());
    let acc = canonical_entries(entries, order, k);
    lemma_key_order_arrangement(keys, entries.len());
    lemma_key_order_sorted(keys, entries.len());
    lemma_canonical_entries(entries, order, k);
    let i = order[k as int];
    let key = entries[i].0;
    assert(!has_key(acc, key)) by {
        assert forall|j: int| 0 <= j < acc.len() implies (#[trigger] acc[j]).0 != key by {
            assert(acc[j].0 == entries[order[j]].0);
            assert(order[j] != order[k as int]);
            if order[j] < i {
                assert(entries[order[j]].0 != entries[i].0);
            } else {
                assert(entries[i].0 != entries[order[j]].0);
            }
        }
    }
    if k > 0 {
        let last = order[k - 1];
        assert(acc[k - 1].0 == entries[order[k - 1]].0);
        assert(!lex_less(keys[order[k as int]], keys[order[k - 1]]));
        assert(last != i);
        if last < i {
            assert(entries[last].0 != entries[i].0);
        } else {
            assert(entries[i].0 != entries[last].0);
        }
        lemma_lex_total(entries[last].0, key, 0);
    }
}

/// Where a container's encoding stands at `pos`, what stands between its
/// opening byte and its closing `e` is its body.
proof fn lemma_body_placed(b: Seq<u8>, pos: int, open: u8, body: Seq<u8>)
    requires
        0 <= pos,
        pos + body.len() + 2 <= b.len(),
        b.subrange(pos, pos + body.len() + 2) == seq![open] + body + seq![END],
    ensures
        b[pos] == open,
        b.subrange(pos + 1, pos + 1 + body.len()) == body,
        b[pos + 1 + body.len()] == END,
{
    let enc = seq![open] + body + seq![END];
    lemma_stands_at(b, pos, enc);
    assert(b[pos + 0] == enc[0]);
    assert forall|j: int| 0 <= j < body.len() implies b[pos + 1 + j] == body[j] by {
        assert(enc[1 + j] == body[j]);
    }
    assert(b.subrange(pos + 1, pos + 1 + body.len()) =~= body);
    assert(enc[body.len() as int + 1] == END);
}

proof fn lemma_parse_encoded(b: Seq<u8>, pos: int, t: Term, depth: nat, strict: bool)
    requires
        0 <= pos,
        pos + encode_term(t).len() <= b.len(),
        b.subrange(pos, pos + encode_term(t).len()) == encode_term(t),
        admissible(t, depth),
    ensures
        parse_value(b, pos, depth, strict) == Ok::<(Term, int), (ErrorKind, int)>(
            (canonical(t), pos + encode_term(t).len()),
        ),
    decreases t, 0nat,
{
    let enc = encode_term(t);
    lemma_first_byte(t);
    lemma_stands_at(b, pos, enc);
    assert(b[pos + 0] == enc[0]);
    match t {
        Term::Integer(n) => {
            lemma_parse_encoded_integer(b, pos, n);
        },
        Term::ByteString(s) => {
            lemma_parse_encoded_bytes(b, pos, s);
        },
        Term::List(items) => {
            lemma_body_placed(b, pos, LIST_START, encode_items(items, items.len()));
            lemma_parse_encoded_items(b, pos + 1, items, 0, (depth - 1) as nat, strict);
        },
        Term::Dictionary(entries) => {
            let order = key_order(entry_keys(entries), entries.len());
            lemma_body_placed(b, pos, DICTIONARY_START, encode_entries(entries, order, entries.len()));
            lemma_parse_encoded_entries(b, pos + 1, entries, 0, (depth - 1) as nat, strict);
        },
    }
}

proof fn lemma_parse_encoded_items(
    b: Seq<u8>,
    start: int,
    items: Seq<Term>,
    k: nat,
    depth: nat,
    strict: bool,
)
    requires
        0 <= start,
        k <= items.len(),
        start + encode_items(items, items.len()).len() < b.len(),
        b.subrange(start, start + encode_items(items, items.len()).len()) == encode_items(
            items,
            items.len(),
        ),
        b[start + encode_items(items, items.len()).len()] == END,
        forall|i: int| 0 <= i < items.len() ==> admissible(#[trigger] items[i], depth),
    ensures
        parse_list(
            b,
            start + encode_items(items, k).len(),
            depth,
            strict,
            canonical_items(items, k),
        ) == Ok::<(Seq<Term>, int), (ErrorKind, int)>(
            (
                canonical_items(items, items.len()),
                start + encode_items(items, items.len()).len() + 1,
            ),
        ),
    decreases items, items.len() - k,
{
    let here = start + encode_items(items, k).len();
    if k < items.len() {
        lemma_item_placed(b, start, items, k);
        lemma_first_byte(items[k as int]);
        lemma_stands_at(b, here, encode_term(items[k as int]));
        assert(b[here + 0] == encode_term(items[k as int])[0]);
        lemma_parse_encoded(b, here, items[k as int], depth, strict);
        lemma_parse_encoded_items(b, start, items, k + 1, depth, strict);
    }
}

proof fn lemma_parse_encoded_entries(
    b: Seq<u8>,
    start: int,
    entries: Seq<(Seq<u8>, Term)>,
    k: nat,
    depth: nat,
    strict: bool,
)
    requires
        0 <= start,
        k <= entries.len(),
        start + encode_entries(
            entries,
            key_order(entry_keys(entries), entries.len()),
            entries.len(),
        ).len() < b.len(),
        b.subrange(
            start,
            start + encode_entries(
                entries,
                key_order(entry_keys(entries), entries.len()),
                entries.len(),
            ).len(),
        ) == encode_entries(entries, key_order(entry_keys(entries), entries.len()), entries.len()),
        b[start + encode_entries(
            entries,
            key_order(entry_keys(entries), entries.len()),
            entries.len(),
        ).len()] == END,
        distinct_keys(entries),
        forall|i: int| 0 <= i < entries.len() ==> admissible((#[trigger] entries[i]).1, depth),
    ensures
        parse_dict(
            b,
            start + encode_entries(
                entries,
                key_order(entry_keys(entries), entries.len()),
                k,
            ).len(),
            depth,
            strict,
            canonical_entries(entries, key_order(entry_keys(entries), entries.len()), k),
        ) == Ok::<(Seq<(Seq<u8>, Term)>, int), (ErrorKind, int)>(
            (
                canonical_entries(
                    entries,
                    key_order(entry_keys(entries), entries.len()),
                    entries.len(),
                ),
                start + encode_entries(
                    entries,
                    key_order(entry_keys(entries), entries.len()),
                    entries.len(),
                ).len() + 1,
            ),
        ),
    decreases entries, entries.len() - k,
{
    let order = key_order(entry_keys(entries), entries.len());
    let here = start + encode_entries(entries, order, k).len();
    lemma_key_order_arrangement(entry_keys(entries), entries.len());
    if k < entries.len() {
        let i = order[k as int];
        lemma_key_accepted(entries, k);
        lemma_entry_placed(b, start, entries, order, k);
        lemma_parse_encoded_bytes(b, here, entries[i].0);
        lemma_parse_encoded(
            b,
            here + encode_bytes(entries[i].0).len(),
            entries[i].1,
            depth,
            strict,
        );
        lemma_parse_encoded_entries(b, start, entries, k + 1, depth, strict);
    }
}

/// Re-encoding: what the encoder writes for a value decodes, in either mode,
/// to that value with the entries of each dictionary in ascending key order.
pub proof fn law_decode_of_encode(t: Term, depth: nat, strict: bool)
    requires
        admissible(t, depth),
    ensures
        decode_bytes(encode_term(t), strict, depth) == Ok::<Term, (ErrorKind, int)>(canonical(t)),
{
    let b = encode_term(t);
    assert(b.subrange(0, b.len() as int) =~= b);
    lemma_parse_encoded(b, 0, t, depth, strict);
}

proof fn lemma_parsed_admissible(b: Seq<u8>, pos: int, depth: nat, strict: bool)
    requires
        parse_value(b, pos, depth, strict) is Ok,
    ensures
        admissible((parse_value(b, pos, depth, strict)->Ok_0).0, depth),
    decreases depth, 0nat, 0nat,
{
    let r = parse_value(b, pos, depth, strict)->Ok_0;
    if b[pos] == INTEGER_START {
    } else if is_digit(b[pos]) {
    } else if b[pos] == LIST_START {
        lemma_parsed_items_admissible(b, pos + 1, (depth - 1) as nat, strict, Seq::empty());
    } else {
        lemma_parsed_entries_admissible(b, pos + 1, (depth - 1) as nat, strict, Seq::empty());
    }
}

proof fn lemma_parsed_items_admissible(
    b: Seq<u8>,
    pos: int,
    depth: nat,
    strict: bool,
    acc: Seq<Term>,
)
    requires
        parse_list(b, pos, depth, strict, acc) is Ok,
        forall|i: int| 0 <= i < acc.len() ==> admissible(#[trigger] acc[i], depth),
    ensures
        ({
            let items = (parse_list(b, pos, depth, strict, acc)->Ok_0).0;
            forall|i: int| 0 <= i < items.len() ==> admissible(#[trigger] items[i], depth)
        }),
    decreases depth, 1nat, b.len() - pos,
{
    if b[pos] != END {
        lemma_parsed_admissible(b, pos, depth, strict);
        let step = parse_value(b, pos, depth, strict)->Ok_0;
        lemma_parsed_items_admissible(b, step.1, depth, strict, acc.push(step.0));
    }
}

proof fn lemma_parsed_entries_admissible(
    b: Seq<u8>,
    pos: int,
    depth: nat,
    strict: bool,
    acc: Seq<(Seq<u8>, Term)>,
)
    requires
        parse_dict(b, pos, depth, strict, acc) is Ok,
        distinct_keys(acc),
        forall|i: int| 0 <= i < acc.len() ==> admissible((#[trigger] acc[i]).1, depth),
    ensures
        ({
            let entries = (parse_dict(b, pos, depth, strict, acc)->Ok_0).0;
            &&& distinct_keys(entries)
            &&& forall|i: int|
                0 <= i < entries.len() ==> admissible((#[trigger] entries[i]).1, depth)
        }),
    decreases depth, 1nat, b.len() - pos,
{
    if b[pos] != END {
        let head = parse_bytes(b, pos)->Ok_0;
        lemma_parsed_admissible(b, head.1, depth, strict);
        let step = parse_value(b, head.1, depth, strict)->Ok_0;
        let next = acc.push((head.0, step.0));
        assert(!has_key(acc, head.0));
        assert forall|i: int, j: int| 0 <= i < j < next.len() implies (#[trigger] next[i]).0 != (
        #[trigger] next[j]).0 by {
            if j < acc.len() {
                assert(next[i] == acc[i] && next[j] == acc[j]);
            } else {
                assert(next[i] == acc[i]);
            }
        }
        lemma_parsed_entries_admissible(b, step.1, depth, strict, next);
    }
}

/// What decodes is sound: the value nests at most as many containers as the
/// decoder allows, and none of its dictionaries has a key twice.
pub proof fn law_decoded_is_admissible(b: Seq<u8>, strict: bool, depth: nat)
    requires
        decode_bytes(b, strict, depth) is Ok,
    ensures
        admissible(decode_bytes(b, strict, depth)->Ok_0, depth),
{
    lemma_parsed_admissible(b, 0, depth, strict);
}

/// None of the value's dictionaries has a key twice.
pub open spec fn well_keyed(t: Term) -> bool
    decreases t,
{
    match t {
        Term::Integer(_) => true,
        Term::ByteString(_) => true,
        Term::List(items) => forall|i: int|
            0 <= i < items.len() ==> well_keyed(#[trigger] items[i]),
        Term::Dictionary(entries) => distinct_keys(entries) && forall|i: int|
            0 <= i < entries.len() ==> well_keyed((#[trigger] entries[i]).1),
    }
}

/// The value nests at most `depth` containers.
pub open spec fn fits(t: Term, depth: nat) -> bool
    decreases t,
{
    match t {
        Term::Integer(_) => true,
        Term::ByteString(_) => true,
        Term::List(items) => depth > 0 && forall|i: int|
            0 <= i < items.len() ==> fits(#[trigger] items[i], (depth - 1) as nat),
        Term::Dictionary(entries) => depth > 0 && forall|i: int|
            0 <= i < entries.len() ==> fits((#[trigger] entries[i]).1, (depth - 1) as nat),
    }
}

/// A value is admissible where its keys are distinct and it fits the depth.
pub proof fn lemma_admissible_parts(t: Term, depth: nat)
    ensures
        admissible(t, depth) == (well_keyed(t) && fits(t, depth)),
    decreases t,
{
    match t {
        Term::Integer(_) => {},
        Term::ByteString(_) => {},
        Term::List(items) => {
            if depth > 0 {
                assert forall|i: int| 0 <= i < items.len() implies admissible(
                    #[trigger] items[i],
                    (depth - 1) as nat,
                ) == (well_keyed(items[i]) && fits(items[i], (depth - 1) as nat)) by {
                    lemma_admissible_parts(items[i], (depth - 1) as nat);
                }
            }
        },
        Term::Dictionary(entries) => {
            if depth > 0 {
                assert forall|i: int| 0 <= i < entries.len() implies admissible(
                    (#[trigger] entries[i]).1,
                    (depth - 1) as nat,
                ) == (well_keyed(entries[i].1) && fits(entries[i].1, (depth - 1) as nat)) by {
                    lemma_admissible_parts(entries[i].1, (depth - 1) as nat);
                }
            }
        },
    }
}

/// The encoder's order names each entry in some place.
pub proof fn lemma_key_order_covers(keys: Seq<Seq<u8>>, n: nat, i: int)
    requires
        n <= keys.len(),
        0 <= i < n,
    ensures
        exists|j: int| 0 <= j < n && #[trigger] key_order(keys, n)[j] == i,
    decreases n,
{
    lemma_key_order_arrangement(keys, (n - 1) as nat);
    let before = key_order(keys, (n - 1) as nat);
    lemma_slot(keys, before, keys[n - 1], before.len());
    let p = slot(keys, before, keys[n - 1], before.len()) as int;
    let after = before.insert(p, n - 1);
    assert(key_order(keys, n) == after);
    if i == n - 1 {
        lemma_insert_index(before, p, n - 1, p);
        assert(key_order(keys, n)[p] == i);
    } else {
        lemma_key_order_covers(keys, (n - 1) as nat, i);
        let j = choose|j: int| 0 <= j < n - 1 && #[trigger] before[j] == i;
        if j < p {
            lemma_insert_index(before, p, n - 1, j);
            assert(key_order(keys, n)[j] == i);
        } else {
            lemma_insert_index(before, p, n - 1, j + 1);
            assert(key_order(keys, n)[j + 1] == i);
        }
    }
}

proof fn lemma_parse_too_deep(b: Seq<u8>, pos: int, t: Term, depth: nat, strict: bool)
    requires
        0 <= pos,
        pos + encode_term(t).len() <= b.len(),
        b.subrange(pos, pos + encode_term(t).len()) == encode_term(t),
        well_keyed(t),
        !fits(t, depth),
    ensures
        parse_value(b, pos, depth, strict) is Err,
        (parse_value(b, pos, depth, strict)->Err_0).0 == ErrorKind::NestingTooDeep,
    decreases t, 0nat,
{
    let enc = encode_term(t);
    lemma_first_byte(t);
    lemma_stands_at(b, pos, enc);
    assert(b[pos + 0] == enc[0]);
    match t {
        Term::Integer(_) => {},
        Term::ByteString(_) => {},
        Term::List(items) => {
            if depth > 0 {
                let bad = choose|i: int|
                    0 <= i < items.len() && !fits(#[trigger] items[i], (depth - 1) as nat);
                lemma_body_placed(b, pos, LIST_START, encode_items(items, items.len()));
                lemma_items_too_deep(b, pos + 1, items, 0, (depth - 1) as nat, strict, bad);
            }
        },
        Term::Dictionary(entries) => {
            if depth > 0 {
                let keys = entry_keys(entries);
                let order = key_order(keys, entries.len());
                let i = choose|i: int|
                    0 <= i < entries.len() && !fits((#[trigger] entries[i]).1, (depth - 1) as nat);
                lemma_key_order_covers(keys, entries.len(), i);
                let bad = choose|j: int| 0 <= j < entries.len() && #[trigger] order[j] == i;
                lemma_body_placed(b, pos, DICTIONARY_START, encode_entries(entries, order, entries.len()));
                lemma_entries_too_deep(b, pos + 1, entries, 0, (depth - 1) as nat, strict, bad);
            }
        },
    }
}

proof fn lemma_items_too_deep(
    b: Seq<u8>,
    start: int,
    items: Seq<Term>,
    k: nat,
    depth: nat,
    strict: bool,
    bad: int,
)
    requires
        0 <= start,
        k <= bad < items.len(),
        start + encode_items(items, items.len()).len() < b.len(),
        b.subrange(start, start + encode_items(items, items.len()).len()) == encode_items(
            items,
            items.len(),
        ),
        forall|i: int| 0 <= i < items.len() ==> well_keyed(#[trigger] items[i]),
        !fits(items[bad], depth),
    ensures
        ({
            let r = parse_list(
                b,
                start + encode_items(items, k).len(),
                depth,
                strict,
                canonical_items(items, k),
            );
            r is Err && (r->Err_0).0 == ErrorKind::NestingTooDeep
        }),
    decreases items, items.len() - k,
{
    let here = start + encode_items(items, k).len();
    let item = items[k as int];
    lemma_item_placed(b, start, items, k);
    lemma_first_byte(item);
    lemma_stands_at(b, here, encode_term(item));
    assert(b[here + 0] == encode_term(item)[0]);
    if fits(item, depth) {
        lemma_admissible_parts(item, depth);
        lemma_parse_encoded(b, here, item, depth, strict);
        lemma_items_too_deep(b, start, items, k + 1, depth, strict, bad);
    } else {
        lemma_parse_too_deep(b, here, item, depth, strict);
    }
}

proof fn lemma_entries_too_deep(
    b: Seq<u8>,
    start: int,
    entries: Seq<(Seq<u8>, Term)>,
    k: nat,
    depth: nat,
    strict: bool,
    bad: int,
)
    requires
        0 <= start,
        k <= bad < entries.len(),
        start + encode_entries(
            entries,
            key_order(entry_keys(entries), entries.len()),
            entries.len(),
        ).len() < b.len(),
        b.subrange(
            start,
            start + encode_entries(
                entries,
                key_order(entry_keys(entries), entries.len()),
                entries.len(),
            ).len(),
        ) == encode_entries(entries, key_order(entry_keys(entries), entries.len()), entries.len()),
        distinct_keys(entries),
        forall|i: int| 0 <= i < entries.len() ==> well_keyed((#[trigger] entries[i]).1),
        0 <= key_order(entry_keys(entries), entries.len())[bad] < entries.len(),
        !fits(entries[key_order(entry_keys(entries), entries.len())[bad]].1, depth),
    ensures
        ({
            let order = key_order(entry_keys(entries), entries.len());
            let r = parse_dict(
                b,
                start + encode_entries(entries, order, k).len(),
                depth,
                strict,
                canonical_entries(entries, order, k),
            );
            r is Err && (r->Err_0).0 == ErrorKind::NestingTooDeep
        }),
    decreases entries, entries.len() - k,
{
    let order = key_order(entry_keys(entries), entries.len());
    let here = start + encode_entries(entries, order, k).len();
    lemma_key_order_arrangement(entry_keys(entries), entries.len());
    let i = order[k as int];
    let item = entries[i].1;
    lemma_key_accepted(entries, k);
    lemma_entry_placed(b, start, entries, order, k);
    lemma_parse_encoded_bytes(b, here, entries[i].0);
    let mid = here + encode_bytes(entries[i].0).len();
    if fits(item, depth) {
        lemma_admissible_parts(item, depth);
        lemma_parse_encoded(b, mid, item, depth, strict);
        lemma_entries_too_deep(b, start, entries, k + 1, depth, strict, bad);
    } else {
        lemma_parse_too_deep(b, mid, item, depth, strict);
    }
}

/// Depth guard: what the encoder writes for a value that nests more than
/// `depth` containers, and has no key twice, is refused as `NestingTooDeep`.
pub proof fn law_too_deep_is_refused(t: Term, depth: nat, strict: bool)
    requires
        well_keyed(t),
        !fits(t, depth),
    ensures
        decode_bytes(encode_term(t), strict, depth) is Err,
        (decode_bytes(encode_term(t), strict, depth)->Err_0).0 == ErrorKind::NestingTooDeep,
{
    let b = encode_term(t);
    assert(b.subrange(0, b.len() as int) =~= b);
    lemma_parse_too_deep(b, 0, t, depth, strict);
}

} // verus!
