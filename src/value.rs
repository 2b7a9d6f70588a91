//! The decoded value tree.
use vstd::prelude::*;
use core::cmp::Ordering;
use crate::model::{
    Term, dict_insert, dict_insert_all, keys_sorted, lemma_dict_insert_sorted,
    lemma_dict_insert_split, lemma_lex_asymmetric, lemma_lex_irreflexive, lemma_lex_total, lex_lt,
};

verus! {

/// A bencoded value. The decoder, `insert` and `dict_from_entries` keep a
/// dictionary's entries sorted by key, each key once; the encoder sorts the
/// entries of any dictionary.
#[derive(Debug, PartialEq)]
pub enum Value {
    BytesValue(Vec<u8>),
    IntValue(i64),
    ListValue(Vec<Value>),
    DictValue(Vec<(Vec<u8>, Value)>),
}

impl Value {
    /// What the value means.
    pub open spec fn term(&self) -> Term
        decreases self,
    {
        match self {
            Value::BytesValue(b) => Term::Bytes(b@),
            Value::IntValue(i) => Term::Int(*i as int),
            Value::ListValue(l) => Term::List(
                Seq::new(l.len() as nat, |i: int| if 0 <= i < l.len() { l[i].term() } else { Term::Int(0) }),
            ),
            Value::DictValue(d) => Term::Dict(
                Seq::new(
                    d.len() as nat,
                    |i: int| if 0 <= i < d.len() { (d[i].0@, d[i].1.term()) } else { (Seq::empty(), Term::Int(0)) },
                ),
            ),
        }
    }
}

/// What a sequence of values means, element by element.
pub open spec fn list_terms(l: Seq<Value>) -> Seq<Term> {
    Seq::new(l.len(), |i: int| l[i].term())
}

/// What a sequence of dictionary entries means, entry by entry.
pub open spec fn entry_terms(d: Seq<(Vec<u8>, Value)>) -> Seq<(Seq<u8>, Term)> {
    Seq::new(d.len(), |i: int| (d[i].0@, d[i].1.term()))
}

/// The meaning of a list, element by element.
pub proof fn lemma_term_list(l: Vec<Value>)
    ensures
        Value::ListValue(l).term() == Term::List(list_terms(l@)),
{
    match Value::ListValue(l).term() {
        Term::List(s) => assert(s =~= list_terms(l@)),
        _ => {},
    }
}

/// The meaning of a dictionary, entry by entry.
pub proof fn lemma_term_dict(d: Vec<(Vec<u8>, Value)>)
    ensures
        Value::DictValue(d).term() == Term::Dict(entry_terms(d@)),
{
    match Value::DictValue(d).term() {
        Term::Dict(s) => assert(s =~= entry_terms(d@)),
        _ => {},
    }
}

/// Compares two keys byte-wise: `Less` where `a` comes first.
pub fn compare_keys(a: &[u8], b: &[u8]) -> (r: Ordering)
    ensures
        (r == Ordering::Less) == lex_lt(a@, b@),
        (r == Ordering::Equal) == (a@ == b@),
        (r == Ordering::Greater) == lex_lt(b@, a@),
{
    let mut i: usize = 0;
    assert(a@.skip(0) =~= a@);
    assert(b@.skip(0) =~= b@);
    while i < a.len() && i < b.len()
        invariant
            i <= a@.len(),
            i <= b@.len(),
            forall|k: int| 0 <= k < i ==> a@[k] == b@[k],
            lex_lt(a@, b@) == lex_lt(a@.skip(i as int), b@.skip(i as int)),
            lex_lt(b@, a@) == lex_lt(b@.skip(i as int), a@.skip(i as int)),
        decreases a@.len() - i,
    {
        if a[i] != b[i] {
            proof {
                lemma_lex_irreflexive(a@);
                if a[i as int] < b[i as int] {
                    lemma_lex_asymmetric(a@, b@);
                } else {
                    lemma_lex_asymmetric(b@, a@);
                }
            }
            if a[i] < b[i] {
                return Ordering::Less;
            } else {
                return Ordering::Greater;
            }
        }
        assert(a@.skip(i as int).drop_first() =~= a@.skip(i + 1));
        assert(b@.skip(i as int).drop_first() =~= b@.skip(i + 1));
        i = i + 1;
    }
    proof {
        lemma_lex_irreflexive(a@);
        if a@.len() == b@.len() {
            assert(a@ =~= b@);
        }
    }
    if a.len() == b.len() {
        Ordering::Equal
    } else if a.len() < b.len() {
        Ordering::Less
    } else {
        Ordering::Greater
    }
}

/// Puts the entry `(k, v)` into the sorted entries `d`, replacing one with the same key.
pub(crate) fn insert_entry(d: &mut Vec<(Vec<u8>, Value)>, k: Vec<u8>, v: Value)
    ensures
        entry_terms(final(d)@) == dict_insert(entry_terms(old(d)@), k@, v.term()),
{
    let ghost vt = v.term();
    let ghost es = entry_terms(d@);
    let mut i: usize = 0;
    while i < d.len()
        invariant
            i <= d@.len(),
            es == entry_terms(d@),
            forall|j: int| 0 <= j < i ==> lex_lt(#[trigger] es[j].0, k@),
        ensures
            i <= d@.len(),
            forall|j: int| 0 <= j < i ==> lex_lt(#[trigger] es[j].0, k@),
            i < d@.len() ==> !lex_lt(es[i as int].0, k@),
        decreases d@.len() - i,
    {
        if !matches!(compare_keys(d[i].0.as_slice(), k.as_slice()), Ordering::Less) {
            break;
        }
        i = i + 1;
    }
    proof {
        lemma_dict_insert_split(es, k@, vt, i as int);
    }
    if i < d.len() && matches!(compare_keys(d[i].0.as_slice(), k.as_slice()), Ordering::Equal) {
        d.set(i, (k, v));
        assert(entry_terms(d@) =~= es.take(i as int) + dict_insert(es.skip(i as int), k@, vt));
    } else {
        proof {
            if i < d@.len() {
                lemma_lex_total(es[i as int].0, k@);
            }
        }
        d.insert(i, (k, v));
        assert(entry_terms(d@) =~= es.take(i as int) + dict_insert(es.skip(i as int), k@, vt));
    }
}

impl Value {
    /// Sets `key` to `value` in this dictionary, replacing an entry with the same
    /// key and keeping the entries sorted by key.
    pub fn insert(&mut self, key: Vec<u8>, value: Value)
        requires
            *old(self) is DictValue,
        ensures
            *final(self) is DictValue,
            final(self).term() == Term::Dict(
                dict_insert(old(self).term()->Dict_0, key@, value.term()),
            ),
    {
        proof {
            lemma_term_dict(self->DictValue_0);
        }
        match self {
            Value::DictValue(d) => {
                insert_entry(d, key, value);
                proof {
                    lemma_term_dict(*d);
                }
            },
            _ => {},
        }
    }

    /// A dictionary holding `entries`, inserted one after another: the entries
    /// end up sorted by key, and a repeated key keeps its last value.
    pub fn dict_from_entries(entries: Vec<(Vec<u8>, Value)>) -> (r: Value)
        ensures
            r.term() == Term::Dict(dict_insert_all(seq![], entry_terms(entries@))),
            keys_sorted(r.term()->Dict_0),
    {
        let ghost es = entry_terms(entries@);
        let ghost orig = entries@;
        let mut d: Vec<(Vec<u8>, Value)> = Vec::new();
        let mut rest = entries;
        assert(entry_terms(d@) =~= seq![]);
        assert(es.skip(0) =~= es);
        assert(rest@ =~= orig.skip(0));
        while rest.len() > 0
            invariant
                rest@.len() <= orig.len(),
                es == entry_terms(orig),
                rest@ == orig.skip(orig.len() - rest@.len()),
                keys_sorted(entry_terms(d@)),
                dict_insert_all(seq![], es) == dict_insert_all(entry_terms(d@), es.skip(es.len() - rest@.len())),
            decreases rest@.len(),
        {
            let ghost j = orig.len() - rest@.len();
            let ghost before = entry_terms(d@);
            let (k, v) = rest.remove(0);
            proof {
                assert(es.skip(j).drop_first() =~= es.skip(j + 1));
                assert(rest@ =~= orig.skip(j + 1));
                lemma_dict_insert_sorted(before, k@, v.term());
            }
            insert_entry(&mut d, k, v);
        }
        proof {
            lemma_term_dict(d);
        }
        Value::DictValue(d)
    }
}

} // verus!
