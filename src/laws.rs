//! Laws that relate the decoder and the encoder.
use vstd::prelude::*;
use crate::encode::{
    concat_entries, encode_entries, encode_list, encode_string, encode_term, encoded_values,
    int_digits, lemma_encode_sorted_dict, nat_digits,
};
use crate::error::Error;
use crate::grammar::{
    COLON, DICT_START, END, LIST_START, ZERO, decode_spec, digit_run,
    digits_value, is_digit, leading_zero, parse_entries, parse_int, parse_items, parse_string,
    parse_value,
};
use crate::model::{
    MAX_DEPTH, Term, canonical, dict_insert, dict_insert_all, fits_depth, keys_sorted,
    last_value, lemma_dict_insert_last, lemma_insertion_order, lemma_last_value_map, lex_lt, lookup,
    map_entry_values, utf8_valid,
};
use crate::value::Value;

verus! {

broadcast use vstd::seq::group_seq_axioms;

proof fn lemma_nat_digits(n: nat)
    ensures
        nat_digits(n).len() >= 1,
        forall|i: int| 0 <= i < nat_digits(n).len() ==> is_digit(#[trigger] nat_digits(n)[i]),
        digits_value(nat_digits(n)) == n,
        !leading_zero(nat_digits(n)),
        (nat_digits(n)[0] == ZERO) == (n == 0),
    decreases n,
{
    let nd = nat_digits(n);
    if n < 10 {
        assert(nd.drop_last() =~= Seq::<u8>::empty());
        assert(digits_value(Seq::<u8>::empty()) == 0);
        assert(digits_value(nd) == digits_value(nd.drop_last()) * 10 + (nd.last() - ZERO) as nat);
    } else {
        lemma_nat_digits(n / 10);
        assert(nd.drop_last() =~= nat_digits(n / 10));
        assert(n == (n / 10) * 10 + n % 10) by (nonlinear_arith);
        assert(nd.last() == (ZERO + n % 10) as u8);
        assert(digits_value(nd) == digits_value(nd.drop_last()) * 10 + (nd.last() - ZERO) as nat);
        assert(nd[0] == nat_digits(n / 10)[0]);
    }
}

proof fn lemma_digit_run_prefix(ds: Seq<u8>, rest: Seq<u8>)
    requires
        forall|i: int| 0 <= i < ds.len() ==> is_digit(#[trigger] ds[i]),
        rest.len() > 0,
        !is_digit(rest[0]),
    ensures
        digit_run(ds + rest) == ds.len(),
    decreases ds.len(),
{
    if ds.len() > 0 {
        assert((ds + rest).drop_first() =~= ds.drop_first() + rest);
        lemma_digit_run_prefix(ds.drop_first(), rest);
    } else {
        assert(ds + rest =~= rest);
    }
}

proof fn lemma_parse_string_encode(b: Seq<u8>, rest: Seq<u8>)
    ensures
        parse_string(encode_string(b) + rest) == Ok::<_, Error>((b, rest)),
{
    let nd = nat_digits(b.len());
    let s = encode_string(b) + rest;
    lemma_nat_digits(b.len());
    assert(s =~= nd + (seq![COLON] + b + rest));
    lemma_digit_run_prefix(nd, seq![COLON] + b + rest);
    let n = nd.len() as int;
    assert(s.take(n) =~= nd);
    assert(s.skip(n + 1) =~= b + rest);
    assert((b + rest).take(b.len() as int) =~= b);
    assert((b + rest).skip(b.len() as int) =~= rest);
}

proof fn lemma_encode_term_starts(t: Term)
    ensures
        encode_term(t).len() > 0,
        encode_term(t)[0] != END,
{
    match t {
        Term::Bytes(b) => lemma_nat_digits(b.len()),
        Term::Int(_) => {},
        Term::List(_) => {},
        Term::Dict(_) => {},
    }
}

proof fn lemma_parse_int_encode(n: int, rest: Seq<u8>)
    requires
        i64::MIN <= n <= i64::MAX,
    ensures
        parse_int(int_digits(n) + seq![END] + rest) == Ok::<_, Error>((n, rest)),
{
    let x = int_digits(n) + seq![END] + rest;
    let m: nat = if n < 0 { (-n) as nat } else { n as nat };
    let nd = nat_digits(m);
    lemma_nat_digits(m);
    let t = nd + (seq![END] + rest);
    if n < 0 {
        assert(x.drop_first() =~= t);
    } else {
        assert(x =~= t);
    }
    lemma_digit_run_prefix(nd, seq![END] + rest);
    assert(t.take(nd.len() as int) =~= nd);
    assert(t.skip(nd.len() + 1int) =~= rest);
}

proof fn lemma_parse_value_encode(t: Term, rest: Seq<u8>, depth: nat)
    requires
        canonical(t),
        depth <= MAX_DEPTH,
        fits_depth(t, (MAX_DEPTH - depth) as nat),
    ensures
        parse_value(encode_term(t) + rest, depth) == Ok::<_, Error>((t, rest)),
    decreases t,
{
    let s = encode_term(t) + rest;
    match t {
        Term::Int(n) => {
            assert(s.drop_first() =~= int_digits(n) + seq![END] + rest);
            lemma_parse_int_encode(n, rest);
        },
        Term::Bytes(b) => {
            lemma_nat_digits(b.len());
            lemma_parse_string_encode(b, rest);
        },
        Term::List(l) => {
            assert(s.drop_first() =~= encode_list(l) + seq![END] + rest);
            lemma_parse_items_encode(l, rest, depth + 1, seq![]);
            assert(Seq::<Term>::empty() + l =~= l);
        },
        Term::Dict(d) => {
            lemma_encode_sorted_dict(d);
            assert(s.drop_first() =~= encode_entries(d) + seq![END] + rest);
            lemma_parse_entries_encode(d, rest, depth + 1, seq![]);
            assert(Seq::<(Seq<u8>, Term)>::empty() + d =~= d);
        },
    }
}

proof fn lemma_parse_items_encode(l: Seq<Term>, rest: Seq<u8>, depth: nat, acc: Seq<Term>)
    requires
        depth <= MAX_DEPTH,
        forall|i: int| 0 <= i < l.len() ==> canonical(#[trigger] l[i]),
        forall|i: int| 0 <= i < l.len() ==> fits_depth(#[trigger] l[i], (MAX_DEPTH - depth) as nat),
    ensures
        parse_items(encode_list(l) + seq![END] + rest, depth, acc) == Ok::<_, Error>((acc + l, rest)),
    decreases l,
{
    let s = encode_list(l) + seq![END] + rest;
    if l.len() == 0 {
        assert(s =~= seq![END] + rest);
        assert(s.drop_first() =~= rest);
        assert(acc + l =~= acc);
    } else {
        let tail = l.subrange(1, l.len() as int);
        let r = encode_list(tail) + seq![END] + rest;
        assert(s =~= encode_term(l[0]) + r);
        lemma_encode_term_starts(l[0]);
        lemma_parse_value_encode(l[0], r, depth);
        lemma_parse_items_encode(tail, rest, depth, acc.push(l[0]));
        assert(acc.push(l[0]) + tail =~= acc + l);
    }
}

proof fn lemma_parse_entries_step(
    s: Seq<u8>,
    depth: nat,
    acc: Seq<(Seq<u8>, Term)>,
    k: Seq<u8>,
    v: Term,
    r1: Seq<u8>,
    r2: Seq<u8>,
)
    requires
        s.len() > 0,
        is_digit(s[0]),
        parse_string(s) == Ok::<_, Error>((k, r1)),
        utf8_valid(k),
        r1.len() < s.len(),
        parse_value(r1, depth) == Ok::<_, Error>((v, r2)),
        r2.len() < s.len(),
    ensures
        parse_entries(s, depth, acc) == parse_entries(r2, depth, dict_insert(acc, k, v)),
{
}

proof fn lemma_parse_entries_encode(d: Seq<(Seq<u8>, Term)>, rest: Seq<u8>, depth: nat, acc: Seq<(Seq<u8>, Term)>)
    requires
        depth <= MAX_DEPTH,
        keys_sorted(d),
        forall|i: int| 0 <= i < d.len() ==> utf8_valid(#[trigger] d[i].0) && canonical(d[i].1),
        forall|i: int| 0 <= i < d.len() ==> fits_depth(#[trigger] d[i].1, (MAX_DEPTH - depth) as nat),
        forall|i: int, j: int| 0 <= i < acc.len() && 0 <= j < d.len() ==> lex_lt(#[trigger] acc[i].0, #[trigger] d[j].0),
    ensures
        parse_entries(encode_entries(d) + seq![END] + rest, depth, acc) == Ok::<_, Error>((acc + d, rest)),
    decreases d,
{
    let s = encode_entries(d) + seq![END] + rest;
    if d.len() == 0 {
        assert(s =~= seq![END] + rest);
        assert(s.drop_first() =~= rest);
        assert(acc + d =~= acc);
    } else {
        let k = d[0].0;
        let v = d[0].1;
        let tail = d.subrange(1, d.len() as int);
        let r2 = encode_entries(tail) + seq![END] + rest;
        let r1 = encode_term(v) + r2;
        assert(s =~= encode_string(k) + r1);
        lemma_nat_digits(k.len());
        assert(s[0] == nat_digits(k.len())[0]);
        lemma_parse_string_encode(k, r1);
        lemma_encode_term_starts(v);
        lemma_parse_value_encode(v, r2, depth);
        assert forall|j: int| 0 <= j < acc.len() implies lex_lt(#[trigger] acc[j].0, k) by {
            assert(lex_lt(acc[j].0, d[0].0));
        }
        lemma_dict_insert_last(acc, k, v);
        assert(is_digit(s[0]));
        lemma_parse_entries_step(s, depth, acc, k, v, r1, r2);
        let acc2 = acc.push((k, v));
        assert forall|i: int, j: int| 0 <= i < acc2.len() && 0 <= j < tail.len() implies lex_lt(
            #[trigger] acc2[i].0,
            #[trigger] tail[j].0,
        ) by {
            assert(tail[j] == d[j + 1]);
            if i < acc.len() {
                assert(lex_lt(acc[i].0, d[j + 1].0));
            } else {
                assert(lex_lt(d[0].0, d[j + 1].0));
            }
        }
        assert forall|i: int, j: int| 0 <= i < j < tail.len() implies lex_lt(#[trigger] tail[i].0, #[trigger] tail[j].0) by {
            assert(lex_lt(d[i + 1].0, d[j + 1].0));
        }
        assert(d[0] == (k, v));
        lemma_parse_entries_encode(tail, rest, depth, acc2);
        assert(acc2 + tail =~= acc + d);
    }
}

/// Decoding the canonical encoding of a canonical value gives the value back,
/// and encoding the decoded value again gives the very same bytes. A value
/// nested deeper than `MAX_DEPTH` is refused by the decoder, so it is left out.
pub proof fn lemma_round_trip(v: Value)
    requires
        canonical(v.term()),
        fits_depth(v.term(), MAX_DEPTH as nat),
    ensures
        decode_spec(encode_term(v.term())) == Ok::<_, Error>(v.term()),
        encode_term(decode_spec(encode_term(v.term()))->Ok_0) == encode_term(v.term()),
{
    lemma_parse_value_encode(v.term(), seq![], 0);
    assert(encode_term(v.term()) + Seq::<u8>::empty() =~= encode_term(v.term()));
}

proof fn lemma_deep_lists(s: Seq<u8>, depth: nat)
    requires
        depth <= MAX_DEPTH,
        s.len() > MAX_DEPTH - depth,
        forall|i: int| 0 <= i <= MAX_DEPTH - depth ==> #[trigger] s[i] == LIST_START,
    ensures
        parse_value(s, depth) == Err::<(Term, Seq<u8>), Error>(Error::RecursionLimitExceeded),
    decreases MAX_DEPTH - depth,
{
    if depth < MAX_DEPTH {
        let t = s.drop_first();
        assert forall|i: int| 0 <= i <= MAX_DEPTH - (depth + 1) implies #[trigger] t[i] == LIST_START by {
            assert(t[i] == s[i + 1]);
        }
        lemma_deep_lists(t, depth + 1);
        assert(t[0] == LIST_START);
    }
}

/// Input that opens more than `MAX_DEPTH` nested lists is refused with
/// `RecursionLimitExceeded`, whatever follows.
pub proof fn lemma_nesting_limit(s: Seq<u8>)
    requires
        s.len() > MAX_DEPTH,
        forall|i: int| 0 <= i <= MAX_DEPTH ==> #[trigger] s[i] == LIST_START,
    ensures
        decode_spec(s) == Err::<Term, Error>(Error::RecursionLimitExceeded),
{
    lemma_deep_lists(s, 0);
}

/// Dictionary encoding lists the keys in strictly ascending byte order, whatever
/// the order in which the dictionary holds or received its entries: the
/// encoding of `Dict(d)` writes a sorted sequence of entries that holds, under
/// each key, the value placed last under it in `d`. So two dictionaries that
/// agree on those values encode to the same bytes.
pub proof fn lemma_dict_encoding_order(d1: Seq<(Seq<u8>, Term)>, d2: Seq<(Seq<u8>, Term)>)
    requires
        forall|k: Seq<u8>| last_value(d1, k) == last_value(d2, k),
    ensures
        encode_term(Term::Dict(d1)) == seq![DICT_START] + concat_entries(dict_insert_all(seq![], encoded_values(d1)))
            + seq![END],
        keys_sorted(dict_insert_all(seq![], encoded_values(d1))),
        forall|k: Seq<u8>| #[trigger] lookup(dict_insert_all(seq![], encoded_values(d1)), k) == match last_value(d1, k) {
            Some(t) => Some(encode_term(t)),
            None => None,
        },
        encode_term(Term::Dict(d1)) == encode_term(Term::Dict(d2)),
{
    let f = |t: Term| encode_term(t);
    let e1 = encoded_values(d1);
    let e2 = encoded_values(d2);
    assert(e1 =~= map_entry_values(d1, f));
    assert(e2 =~= map_entry_values(d2, f));
    assert forall|k: Seq<u8>| last_value(e1, k) == last_value(e2, k) by {
        lemma_last_value_map(d1, k, f);
        lemma_last_value_map(d2, k, f);
    }
    assert forall|k: Seq<u8>| #[trigger] last_value(e1, k) == match last_value(d1, k) {
        Some(t) => Some(encode_term(t)),
        None => None,
    } by {
        lemma_last_value_map(d1, k, f);
    }
    lemma_insertion_order(e1, e2);
}

} // verus!
