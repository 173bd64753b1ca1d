//! The value tree of Bencode, its mathematical model, and the decode errors.

use vstd::prelude::*;
use vstd::slice::slice_to_vec;

verus! {

/// A Bencode value. Byte strings are raw bytes, lists keep their order, and a
/// dictionary keeps its entries in the order in which they were given.
#[derive(Debug, PartialEq, Eq)]
pub enum Value {
    Integer(i64),
    ByteString(Vec<u8>),
    List(Vec<Value>),
    Dictionary(Vec<(Vec<u8>, Value)>),
}

/// The mathematical model of a [`Value`].
pub enum Term {
    Integer(i64),
    ByteString(Seq<u8>),
    List(Seq<Term>),
    Dictionary(Seq<(Seq<u8>, Term)>),
}

impl View for Value {
    type V = Term;

    open spec fn view(&self) -> Term {
        value_term(*self)
    }
}

/// The model of a value: the same tree, with sequences for vectors.
pub open spec fn value_term(v: Value) -> Term
    decreases v, 0nat,
{
    match v {
        Value::Integer(n) => Term::Integer(n),
        Value::ByteString(s) => Term::ByteString(s@),
        Value::List(items) => Term::List(items_terms(items, items.len() as nat)),
        Value::Dictionary(entries) => Term::Dictionary(
            entries_terms(entries, entries.len() as nat),
        ),
    }
}

/// The models of the first `n` items.
pub open spec fn items_terms(items: Vec<Value>, n: nat) -> Seq<Term>
    decreases items, n,
{
    if n == 0 || n > items.len() {
        Seq::empty()
    } else {
        items_terms(items, (n - 1) as nat).push(value_term(items[n - 1]))
    }
}

/// The models of the first `n` entries.
pub open spec fn entries_terms(entries: Vec<(Vec<u8>, Value)>, n: nat) -> Seq<(Seq<u8>, Term)>
    decreases entries, n,
{
    if n == 0 || n > entries.len() {
        Seq::empty()
    } else {
        entries_terms(entries, (n - 1) as nat).push(
            (entries[n - 1].0@, value_term(entries[n - 1].1)),
        )
    }
}

/// The models of a run of list items.
pub open spec fn items_view(items: Seq<Value>) -> Seq<Term> {
    Seq::new(items.len(), |i: int| items[i]@)
}

/// The models of a run of dictionary entries.
pub open spec fn entries_view(entries: Seq<(Vec<u8>, Value)>) -> Seq<(Seq<u8>, Term)> {
    Seq::new(entries.len(), |i: int| (entries[i].0@, entries[i].1@))
}

proof fn lemma_items_terms(items: Vec<Value>, n: nat)
    requires
        n <= items.len(),
    ensures
        items_terms(items, n) == items_view(items@.take(n as int)),
    decreases n,
{
    if n > 0 {
        lemma_items_terms(items, (n - 1) as nat);
        assert(items@.take(n as int - 1) =~= items@.take(n as int).drop_last());
    }
    assert(items_terms(items, n) =~= items_view(items@.take(n as int)));
}

proof fn lemma_entries_terms(entries: Vec<(Vec<u8>, Value)>, n: nat)
    requires
        n <= entries.len(),
    ensures
        entries_terms(entries, n) == entries_view(entries@.take(n as int)),
    decreases n,
{
    if n > 0 {
        lemma_entries_terms(entries, (n - 1) as nat);
        assert(entries@.take(n as int - 1) =~= entries@.take(n as int).drop_last());
    }
    assert(entries_terms(entries, n) =~= entries_view(entries@.take(n as int)));
}

/// A list's model is the models of its items, in order.
pub proof fn lemma_list_view(items: Vec<Value>)
    ensures
        Value::List(items)@ == Term::List(items_view(items@)),
{
    lemma_items_terms(items, items.len() as nat);
    assert(items@.take(items.len() as int) =~= items@);
}

/// A dictionary's model is the models of its entries, in order.
pub proof fn lemma_dictionary_view(entries: Vec<(Vec<u8>, Value)>)
    ensures
        Value::Dictionary(entries)@ == Term::Dictionary(entries_view(entries@)),
{
    lemma_entries_terms(entries, entries.len() as nat);
    assert(entries@.take(entries.len() as int) =~= entries@);
}

impl Clone for Value {
    /// A deep copy.
    fn clone(&self) -> (r: Value)
        ensures
            r@ == self@,
        decreases self,
    {
        match self {
            Value::Integer(n) => Value::Integer(*n),
            Value::ByteString(s) => Value::ByteString(slice_to_vec(s.as_slice())),
            Value::List(items) => {
                let mut out: Vec<Value> = Vec::new();
                let mut i: usize = 0;
                while i < items.len()
                    invariant
                        i <= items.len(),
                        *self == Value::List(*items),
                        out@.len() == i,
                        forall|j: int| 0 <= j < i ==> out@[j]@ == items@[j]@,
                    decreases items.len() - i,
                {
                    proof {
                        assert(self->List_0 == *items);
                        assert(decreases_to!(*self => self->List_0));
                        assert(decreases_to!(*items => items[i as int]));
                    }
                    out.push(items[i].clone());
                    i += 1;
                }
                proof {
                    lemma_list_view(out);
                    lemma_list_view(*items);
                    assert(items_view(out@) =~= items_view(items@));
                }
                Value::List(out)
            },
            Value::Dictionary(entries) => {
                let mut out: Vec<(Vec<u8>, Value)> = Vec::new();
                let mut i: usize = 0;
                while i < entries.len()
                    invariant
                        i <= entries.len(),
                        *self == Value::Dictionary(*entries),
                        out@.len() == i,
                        forall|j: int|
                            0 <= j < i ==> out@[j].0@ == entries@[j].0@ && out@[j].1@
                                == entries@[j].1@,
                    decreases entries.len() - i,
                {
                    proof {
                        assert(self->Dictionary_0 == *entries);
                        assert(decreases_to!(*self => self->Dictionary_0));
                        assert(decreases_to!(*entries => entries[i as int]));
                        assert(decreases_to!(entries[i as int] => entries[i as int].1));
                    }
                    out.push((slice_to_vec(entries[i].0.as_slice()), entries[i].1.clone()));
                    i += 1;
                }
                proof {
                    lemma_dictionary_view(out);
                    lemma_dictionary_view(*entries);
                    assert(entries_view(out@) =~= entries_view(entries@));
                }
                Value::Dictionary(out)
            },
        }
    }
}

/// The kinds of value, as the first byte of an encoding announces them.
#[derive(Clone, Copy, Debug, PartialEq, Eq, Structural)]
pub enum BencodeType {
    Integer,
    String,
    List,
    Dictionary,
}

/// What went wrong while decoding.
#[derive(Clone, Copy, Debug, PartialEq, Eq, Structural)]
pub enum ErrorKind {
    UnexpectedEndOfInput,
    UnexpectedByte,
    InvalidInteger,
    IntegerOverflow,
    InvalidLength,
    InvalidDictionaryKey,
    DuplicateKey,
    UnsortedKeys,
    NestingTooDeep,
    TrailingData,
}

/// A decode failure: its kind and the byte offset at which it was detected.
#[derive(Clone, Copy, Debug, PartialEq, Eq, Structural)]
pub struct DecodeError {
    pub kind: ErrorKind,
    pub offset: usize,
}

} // verus!
