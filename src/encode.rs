//! The canonical encoder, and the laws that tie it to the decoder.
use vstd::prelude::*;
use crate::grammar::{COLON, DICT_START, END, INT_START, LIST_START, MINUS, ZERO};
use crate::model::{
    Term, dict_insert, dict_insert_all, keys_sorted, lemma_dict_insert_split,
    lemma_insert_all_map, lemma_insert_all_push, lemma_insert_all_sorted_input, lemma_lex_total,
    lex_lt, map_entry_values,
};
use crate::value::{Value, compare_keys, lemma_term_dict, lemma_term_list};
use core::cmp::Ordering;

verus! {

broadcast use vstd::std_specs::vec::group_vec_axioms, vstd::seq::group_seq_axioms;

/// The decimal digits of `n`, most significant first, without leading zeros.
pub open spec fn nat_digits(n: nat) -> Seq<u8>
    decreases n,
{
    if n < 10 {
        seq![(ZERO + n) as u8]
    } else {
        nat_digits(n / 10).push((ZERO + n % 10) as u8)
    }
}

/// The decimal form of `n`, with `-` for a negative number.
pub open spec fn int_digits(n: int) -> Seq<u8> {
    if n < 0 {
        seq![MINUS] + nat_digits((-n) as nat)
    } else {
        nat_digits(n as nat)
    }
}

/// `<len>:<bytes>`.
pub open spec fn encode_string(b: Seq<u8>) -> Seq<u8> {
    nat_digits(b.len()) + seq![COLON] + b
}

/// The canonical encoding of `t`: a dictionary's entries are written sorted by
/// key, a repeated key keeping its last value.
pub open spec fn encode_term(t: Term) -> Seq<u8>
    decreases t,
{
    match t {
        Term::Int(n) => seq![INT_START] + int_digits(n) + seq![END],
        Term::Bytes(b) => encode_string(b),
        Term::List(l) => seq![LIST_START] + encode_list(l) + seq![END],
        Term::Dict(d) => seq![DICT_START] + concat_entries(dict_insert_all(seq![], encoded_values(d)))
            + seq![END],
    }
}

/// Each entry of `d` with its value encoded.
pub open spec fn encoded_values(d: Seq<(Seq<u8>, Term)>) -> Seq<(Seq<u8>, Seq<u8>)>
    decreases d,
{
    Seq::new(
        d.len(),
        |i: int| if 0 <= i < d.len() { (d[i].0, encode_term(d[i].1)) } else { (Seq::empty(), Seq::empty()) },
    )
}

/// Each entry as its encoded key followed by its encoded value, in the order of `es`.
pub open spec fn concat_entries(es: Seq<(Seq<u8>, Seq<u8>)>) -> Seq<u8>
    decreases es.len(),
{
    if es.len() == 0 {
        seq![]
    } else {
        encode_string(es[0].0) + es[0].1 + concat_entries(es.drop_first())
    }
}

/// The encodings of the elements of `l`, one after another.
pub open spec fn encode_list(l: Seq<Term>) -> Seq<u8>
    decreases l,
{
    if l.len() == 0 {
        seq![]
    } else {
        encode_term(l[0]) + encode_list(l.subrange(1, l.len() as int))
    }
}

/// Each entry of `d` as its encoded key followed by its encoded value, in the
/// order of `d`: the body of the encoding of a dictionary whose keys are sorted.
pub open spec fn encode_entries(d: Seq<(Seq<u8>, Term)>) -> Seq<u8>
    decreases d,
{
    if d.len() == 0 {
        seq![]
    } else {
        encode_string(d[0].0) + encode_term(d[0].1) + encode_entries(d.subrange(1, d.len() as int))
    }
}

proof fn lemma_encode_list_push(a: Seq<Term>, x: Term)
    ensures
        encode_list(a.push(x)) == encode_list(a) + encode_term(x),
    decreases a.len(),
{
    let ax = a.push(x);
    if a.len() == 0 {
        assert(ax.subrange(1, ax.len() as int) =~= Seq::<Term>::empty());
        assert(encode_list(Seq::<Term>::empty()) == Seq::<u8>::empty());
        assert(ax[0] == x);
        assert(encode_list(ax) =~= encode_list(a) + encode_term(x));
    } else {
        let t = a.subrange(1, a.len() as int);
        lemma_encode_list_push(t, x);
        assert(ax.subrange(1, ax.len() as int) =~= t.push(x));
        assert(encode_list(ax) =~= encode_list(a) + encode_term(x));
    }
}

proof fn lemma_concat_entries_push(a: Seq<(Seq<u8>, Seq<u8>)>, x: (Seq<u8>, Seq<u8>))
    ensures
        concat_entries(a.push(x)) == concat_entries(a) + encode_string(x.0) + x.1,
    decreases a.len(),
{
    let ax = a.push(x);
    if a.len() == 0 {
        assert(ax.drop_first() =~= Seq::<(Seq<u8>, Seq<u8>)>::empty());
        assert(concat_entries(Seq::<(Seq<u8>, Seq<u8>)>::empty()) == Seq::<u8>::empty());
        assert(ax[0] == x);
        assert(concat_entries(ax) =~= concat_entries(a) + encode_string(x.0) + x.1);
    } else {
        lemma_concat_entries_push(a.drop_first(), x);
        assert(ax.drop_first() =~= a.drop_first().push(x));
        assert(concat_entries(ax) =~= concat_entries(a) + encode_string(x.0) + x.1);
    }
}

proof fn lemma_concat_encoded(d: Seq<(Seq<u8>, Term)>)
    ensures
        concat_entries(encoded_values(d)) == encode_entries(d),
    decreases d.len(),
{
    if d.len() > 0 {
        let t = d.subrange(1, d.len() as int);
        lemma_concat_encoded(t);
        assert(encoded_values(d).drop_first() =~= encoded_values(t));
    }
}

/// A dictionary whose keys are sorted is written in the order it holds.
pub proof fn lemma_encode_sorted_dict(d: Seq<(Seq<u8>, Term)>)
    requires
        keys_sorted(d),
    ensures
        encode_term(Term::Dict(d)) == seq![DICT_START] + encode_entries(d) + seq![END],
{
    let ev = encoded_values(d);
    assert forall|i: int, j: int| 0 <= i < j < ev.len() implies lex_lt(#[trigger] ev[i].0, #[trigger] ev[j].0) by {
        assert(lex_lt(d[i].0, d[j].0));
    }
    assert(Seq::<(Seq<u8>, Seq<u8>)>::empty() + ev =~= ev);
    lemma_insert_all_sorted_input(Seq::<(Seq<u8>, Seq<u8>)>::empty(), ev);
    lemma_concat_encoded(d);
}

/// Each entry's key with its index.
pub open spec fn key_index(d: Seq<(Vec<u8>, Value)>) -> Seq<(Seq<u8>, int)> {
    Seq::new(d.len(), |i: int| (d[i].0@, i))
}

/// The entries of `d` at the indexes `order`, each key with its index.
pub open spec fn order_view(d: Seq<(Vec<u8>, Value)>, order: Seq<usize>) -> Seq<(Seq<u8>, int)> {
    Seq::new(order.len(), |p: int| (d[order[p] as int].0@, order[p] as int))
}

/// The indexes of the entries of `d` in ascending key order, a repeated key
/// keeping its last entry.
fn sorted_order(d: &Vec<(Vec<u8>, Value)>) -> (order: Vec<usize>)
    ensures
        forall|p: int| 0 <= p < order@.len() ==> (#[trigger] order@[p]) < d@.len(),
        order_view(d@, order@) == dict_insert_all(seq![], key_index(d@)),
{
    let mut order: Vec<usize> = Vec::new();
    let mut i: usize = 0;
    assert(key_index(d@).take(0) =~= Seq::<(Seq<u8>, int)>::empty());
    assert(order_view(d@, order@) =~= Seq::<(Seq<u8>, int)>::empty());
    while i < d.len()
        invariant
            i <= d@.len(),
            forall|p: int| 0 <= p < order@.len() ==> (#[trigger] order@[p]) < i,
            order_view(d@, order@) == dict_insert_all(seq![], key_index(d@).take(i as int)),
        decreases d@.len() - i,
    {
        let ghost ov = order_view(d@, order@);
        let ghost k = d@[i as int].0@;
        let mut p: usize = 0;
        while p < order.len()
            invariant
                p <= order@.len(),
                i < d@.len(),
                forall|q: int| 0 <= q < order@.len() ==> (#[trigger] order@[q]) < i,
                ov == order_view(d@, order@),
                k == d@[i as int].0@,
                forall|q: int| 0 <= q < p ==> lex_lt(#[trigger] ov[q].0, k),
            ensures
                p <= order@.len(),
                forall|q: int| 0 <= q < p ==> lex_lt(#[trigger] ov[q].0, k),
                p < order@.len() ==> !lex_lt(ov[p as int].0, k),
            decreases order@.len() - p,
        {
            if !matches!(compare_keys(d[order[p]].0.as_slice(), d[i].0.as_slice()), Ordering::Less) {
                break;
            }
            p = p + 1;
        }
        proof {
            lemma_dict_insert_split(ov, k, i as int, p as int);
            lemma_insert_all_push(Seq::<(Seq<u8>, int)>::empty(), key_index(d@).take(i as int), (k, i as int));
            assert(key_index(d@).take(i + 1) =~= key_index(d@).take(i as int).push((k, i as int)));
        }
        if p < order.len() && matches!(compare_keys(d[order[p]].0.as_slice(), d[i].0.as_slice()), Ordering::Equal) {
            order.set(p, i);
            assert(order_view(d@, order@) =~= ov.take(p as int) + dict_insert(ov.skip(p as int), k, i as int));
        } else {
            proof {
                if p < order@.len() {
                    lemma_lex_total(ov[p as int].0, k);
                }
            }
            order.insert(p, i);
            assert(order_view(d@, order@) =~= ov.take(p as int) + dict_insert(ov.skip(p as int), k, i as int));
        }
        i = i + 1;
    }
    assert(key_index(d@).take(d@.len() as int) =~= key_index(d@));
    order
}

/// Appends the decimal digits of `n`.
fn write_nat(n: u64, out: &mut Vec<u8>)
    ensures
        final(out)@ == old(out)@ + nat_digits(n as nat),
    decreases n,
{
    if n >= 10 {
        write_nat(n / 10, out);
    }
    let d: u8 = (n % 10) as u8;
    out.push(ZERO + d);
    assert(final(out)@ =~= old(out)@ + nat_digits(n as nat)) by {
        if n >= 10 {
            assert(nat_digits(n as nat) == nat_digits((n / 10) as nat).push((ZERO + d) as u8));
        }
    }
}

/// Appends the decimal form of `n`.
fn write_int(n: i64, out: &mut Vec<u8>)
    ensures
        final(out)@ == old(out)@ + int_digits(n as int),
{
    if n < 0 {
        out.push(MINUS);
        let m: u64 = if n == i64::MIN { 9223372036854775808 } else { (-n) as u64 };
        write_nat(m, out);
        assert(final(out)@ =~= old(out)@ + int_digits(n as int));
    } else {
        write_nat(n as u64, out);
    }
}

/// Appends `<len>:<bytes>`.
fn write_string(b: &[u8], out: &mut Vec<u8>)
    ensures
        final(out)@ == old(out)@ + encode_string(b@),
{
    let ghost start = out@;
    write_nat(b.len() as u64, out);
    out.push(COLON);
    let ghost head = out@;
    let mut i: usize = 0;
    while i < b.len()
        invariant
            i <= b@.len(),
            head == start + nat_digits(b@.len()) + seq![COLON],
            out@ == head + b@.take(i as int),
        decreases b@.len() - i,
    {
        out.push(b[i]);
        assert(b@.take(i + 1) =~= b@.take(i as int).push(b@[i as int]));
        i = i + 1;
    }
    assert(b@.take(b@.len() as int) =~= b@);
    assert(out@ =~= start + encode_string(b@));
}

/// Appends the canonical encoding of `v`.
fn encode_into(v: &Value, out: &mut Vec<u8>)
    ensures
        final(out)@ == old(out)@ + encode_term(v.term()),
    decreases v,
{
    let ghost start = out@;
    match v {
        Value::IntValue(n) => {
            out.push(INT_START);
            write_int(*n, out);
            out.push(END);
            assert(out@ =~= start + encode_term(v.term()));
        },
        Value::BytesValue(b) => {
            write_string(b.as_slice(), out);
        },
        Value::ListValue(l) => {
            proof {
                lemma_term_list(*l);
            }
            let ghost ts = v.term()->List_0;
            out.push(LIST_START);
            let mut i: usize = 0;
            while i < l.len()
                invariant
                    i <= l@.len(),
                    *v == Value::ListValue(*l),
                    ts.len() == l@.len(),
                    forall|k: int| 0 <= k < l@.len() ==> ts[k] == (#[trigger] l@[k]).term(),
                    out@ == start + seq![LIST_START] + encode_list(ts.take(i as int)),
                decreases l@.len() - i,
            {
                proof {
                    vstd::std_specs::vec::axiom_vec_index_decreases(*l, i as int);
                    assert(decreases_to!(*v => v->ListValue_0));
                    assert(decreases_to!(*l => l[i as int]));
                }
                encode_into(&l[i], out);
                proof {
                    lemma_encode_list_push(ts.take(i as int), ts[i as int]);
                    assert(ts.take(i + 1) =~= ts.take(i as int).push(ts[i as int]));
                }
                i = i + 1;
            }
            out.push(END);
            assert(ts.take(ts.len() as int) =~= ts);
            assert(out@ =~= start + encode_term(v.term()));
        },
        Value::DictValue(d) => {
            proof {
                lemma_term_dict(*d);
            }
            let ghost es = v.term()->Dict_0;
            let ghost g = |j: int| encode_term(es[j].1);
            let order = sorted_order(d);
            let ghost sorted = map_entry_values(order_view(d@, order@), g);
            proof {
                assert(map_entry_values(key_index(d@), g) =~= encoded_values(es));
                assert(map_entry_values(Seq::<(Seq<u8>, int)>::empty(), g) =~= Seq::<(Seq<u8>, Seq<u8>)>::empty());
                lemma_insert_all_map(Seq::<(Seq<u8>, int)>::empty(), key_index(d@), g);
                assert(sorted == dict_insert_all(seq![], encoded_values(es)));
            }
            out.push(DICT_START);
            let mut p: usize = 0;
            while p < order.len()
                invariant
                    p <= order@.len(),
                    *v == Value::DictValue(*d),
                    es.len() == d@.len(),
                    forall|k: int| 0 <= k < d@.len() ==> es[k] == ((#[trigger] d@[k]).0@, d@[k].1.term()),
                    forall|q: int| 0 <= q < order@.len() ==> (#[trigger] order@[q]) < d@.len(),
                    sorted == map_entry_values(order_view(d@, order@), g),
                    g == (|j: int| encode_term(es[j].1)),
                    out@ == start + seq![DICT_START] + concat_entries(sorted.take(p as int)),
                decreases order@.len() - p,
            {
                let j = order[p];
                write_string(d[j].0.as_slice(), out);
                proof {
                    vstd::std_specs::vec::axiom_vec_index_decreases(*d, j as int);
                    assert(decreases_to!(*v => v->DictValue_0));
                    assert(decreases_to!(*d => d[j as int]));
                    assert(decreases_to!(d[j as int] => d[j as int].1));
                }
                encode_into(&d[j].1, out);
                proof {
                    lemma_concat_entries_push(sorted.take(p as int), sorted[p as int]);
                    assert(sorted.take(p + 1) =~= sorted.take(p as int).push(sorted[p as int]));
                }
                p = p + 1;
            }
            out.push(END);
            assert(sorted.take(sorted.len() as int) =~= sorted);
            assert(out@ =~= start + encode_term(v.term()));
        },
    }
}

/// The canonical encoding of `v`; dictionary entries come out sorted by key.
pub fn encode(v: &Value) -> (r: Vec<u8>)
    ensures
        r@ == encode_term(v.term()),
{
    let mut out: Vec<u8> = Vec::new();
    encode_into(v, &mut out);
    assert(out@ =~= encode_term(v.term()));
    out
}

} // verus!
