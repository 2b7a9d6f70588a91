//! The mathematical model of a bencoded document and the facts about it that
//! the decoder and the encoder share.
use vstd::prelude::*;

verus! {

/// The deepest nesting of lists and dictionaries that the decoder accepts.
pub const MAX_DEPTH: usize = 512;

/// A bencoded value as mathematics sees it.
pub enum Term {
    Bytes(Seq<u8>),
    Int(int),
    List(Seq<Term>),
    /// Entries in the order they are kept; canonical dictionaries keep them sorted by key.
    Dict(Seq<(Seq<u8>, Term)>),
}

/// Byte-wise lexicographic order: a proper prefix comes first.
pub open spec fn lex_lt(a: Seq<u8>, b: Seq<u8>) -> bool
    decreases a.len(),
{
    if a.len() == 0 {
        b.len() > 0
    } else if b.len() == 0 {
        false
    } else if a[0] != b[0] {
        a[0] < b[0]
    } else {
        lex_lt(a.drop_first(), b.drop_first())
    }
}

/// The keys of `d` are strictly ascending.
pub open spec fn keys_sorted<V>(d: Seq<(Seq<u8>, V)>) -> bool {
    forall|i: int, j: int| 0 <= i < j < d.len() ==> lex_lt(#[trigger] d[i].0, #[trigger] d[j].0)
}

/// The key `k` appears in `d`.
pub open spec fn has_key<V>(d: Seq<(Seq<u8>, V)>, k: Seq<u8>) -> bool {
    exists|i: int| 0 <= i < d.len() && #[trigger] d[i].0 == k
}

/// Puts `(k, v)` into the sorted entries `d`: an entry with key `k` is replaced,
/// otherwise the new entry goes where the order puts it.
pub open spec fn dict_insert<V>(d: Seq<(Seq<u8>, V)>, k: Seq<u8>, v: V) -> Seq<(Seq<u8>, V)>
    decreases d.len(),
{
    if d.len() == 0 {
        seq![(k, v)]
    } else if d[0].0 == k {
        seq![(k, v)] + d.drop_first()
    } else if lex_lt(k, d[0].0) {
        seq![(k, v)] + d
    } else {
        seq![d[0]] + dict_insert(d.drop_first(), k, v)
    }
}

/// Inserts the entries of `es` one after another into `d`: a later entry with a
/// key wins over an earlier one.
pub open spec fn dict_insert_all<V>(d: Seq<(Seq<u8>, V)>, es: Seq<(Seq<u8>, V)>) -> Seq<(Seq<u8>, V)>
    decreases es.len(),
{
    if es.len() == 0 {
        d
    } else {
        dict_insert_all(dict_insert(d, es[0].0, es[0].1), es.drop_first())
    }
}

/// The first code point of `s` is well-formed UTF-8: its byte count, or 0 where it is not.
pub open spec fn utf8_width(s: Seq<u8>) -> nat {
    let cont = |i: int| i < s.len() && 0x80 <= s[i] <= 0xBF;
    if s.len() == 0 {
        0
    } else if s[0] < 0x80 {
        1
    } else if 0xC2 <= s[0] <= 0xDF {
        if cont(1) { 2 } else { 0 }
    } else if s[0] == 0xE0 {
        if 2 < s.len() && 0xA0 <= s[1] <= 0xBF && cont(2) { 3 } else { 0 }
    } else if (0xE1 <= s[0] <= 0xEC) || (0xEE <= s[0] <= 0xEF) {
        if cont(1) && cont(2) { 3 } else { 0 }
    } else if s[0] == 0xED {
        if 2 < s.len() && 0x80 <= s[1] <= 0x9F && cont(2) { 3 } else { 0 }
    } else if s[0] == 0xF0 {
        if 3 < s.len() && 0x90 <= s[1] <= 0xBF && cont(2) && cont(3) { 4 } else { 0 }
    } else if 0xF1 <= s[0] <= 0xF3 {
        if cont(1) && cont(2) && cont(3) { 4 } else { 0 }
    } else if s[0] == 0xF4 {
        if 3 < s.len() && 0x80 <= s[1] <= 0x8F && cont(2) && cont(3) { 4 } else { 0 }
    } else {
        0
    }
}

/// `s` is well-formed UTF-8 text.
pub open spec fn utf8_valid(s: Seq<u8>) -> bool
    decreases s.len(),
{
    if s.len() == 0 {
        true
    } else {
        let w = utf8_width(s);
        w > 0 && utf8_valid(s.skip(w as int))
    }
}

/// `t` is a value the encoder can write canonically and the decoder reads back:
/// integers fit in 64 bits, dictionary keys are UTF-8 text in strictly ascending order.
pub open spec fn canonical(t: Term) -> bool
    decreases t,
{
    match t {
        Term::Bytes(_) => true,
        Term::Int(n) => i64::MIN <= n <= i64::MAX,
        Term::List(l) => forall|i: int| 0 <= i < l.len() ==> canonical(#[trigger] l[i]),
        Term::Dict(d) => keys_sorted(d) && (forall|i: int|
            0 <= i < d.len() ==> utf8_valid(#[trigger] d[i].0) && canonical(d[i].1)),
    }
}

/// `t` nests lists and dictionaries at most `room` levels deep.
pub open spec fn fits_depth(t: Term, room: nat) -> bool
    decreases t,
{
    match t {
        Term::Bytes(_) => true,
        Term::Int(_) => true,
        Term::List(l) => room > 0 && forall|i: int|
            0 <= i < l.len() ==> fits_depth(#[trigger] l[i], (room - 1) as nat),
        Term::Dict(d) => room > 0 && forall|i: int|
            0 <= i < d.len() ==> fits_depth(#[trigger] d[i].1, (room - 1) as nat),
    }
}

pub proof fn lemma_lex_irreflexive(a: Seq<u8>)
    ensures
        !lex_lt(a, a),
    decreases a.len(),
{
    if a.len() > 0 {
        lemma_lex_irreflexive(a.drop_first());
    }
}

pub proof fn lemma_lex_asymmetric(a: Seq<u8>, b: Seq<u8>)
    requires
        lex_lt(a, b),
    ensures
        !lex_lt(b, a),
    decreases a.len(),
{
    if a.len() > 0 && b.len() > 0 && a[0] == b[0] {
        lemma_lex_asymmetric(a.drop_first(), b.drop_first());
    }
}

pub proof fn lemma_lex_total(a: Seq<u8>, b: Seq<u8>)
    requires
        a != b,
    ensures
        lex_lt(a, b) || lex_lt(b, a),
    decreases a.len(),
{
    if a.len() > 0 && b.len() > 0 && a[0] == b[0] {
        if a.drop_first() == b.drop_first() {
            assert(a =~= seq![a[0]] + a.drop_first());
            assert(b =~= seq![b[0]] + b.drop_first());
        }
        lemma_lex_total(a.drop_first(), b.drop_first());
    } else if a.len() == 0 && b.len() == 0 {
        assert(a =~= b);
    }
}

pub proof fn lemma_lex_transitive(a: Seq<u8>, b: Seq<u8>, c: Seq<u8>)
    requires
        lex_lt(a, b),
        lex_lt(b, c),
    ensures
        lex_lt(a, c),
    decreases a.len(),
{
    if a.len() > 0 && b.len() > 0 && c.len() > 0 && a[0] == b[0] && b[0] == c[0] {
        lemma_lex_transitive(a.drop_first(), b.drop_first(), c.drop_first());
    }
}

/// Inserting past entries whose keys are all below `k` leaves them in front.
pub proof fn lemma_dict_insert_split<V>(d: Seq<(Seq<u8>, V)>, k: Seq<u8>, v: V, i: int)
    requires
        0 <= i <= d.len(),
        forall|j: int| 0 <= j < i ==> lex_lt(#[trigger] d[j].0, k),
    ensures
        dict_insert(d, k, v) == d.take(i) + dict_insert(d.skip(i), k, v),
    decreases i,
{
    if i == 0 {
        assert(d.skip(0) =~= d);
        assert(d.take(0) + dict_insert(d, k, v) =~= dict_insert(d, k, v));
    } else {
        lemma_lex_irreflexive(k);
        lemma_lex_asymmetric(d[0].0, k);
        let t = d.drop_first();
        assert forall|j: int| 0 <= j < i - 1 implies lex_lt(#[trigger] t[j].0, k) by {
            assert(t[j] == d[j + 1]);
        }
        lemma_dict_insert_split(t, k, v, i - 1);
        assert(t.skip(i - 1) =~= d.skip(i));
        assert(seq![d[0]] + t.take(i - 1) =~= d.take(i));
        assert(seq![d[0]] + (t.take(i - 1) + dict_insert(t.skip(i - 1), k, v))
            =~= d.take(i) + dict_insert(d.skip(i), k, v));
    }
}

/// Inserting into sorted entries keeps them sorted.
pub proof fn lemma_dict_insert_sorted<V>(d: Seq<(Seq<u8>, V)>, k: Seq<u8>, v: V)
    requires
        keys_sorted(d),
    ensures
        keys_sorted(dict_insert(d, k, v)),
        forall|i: int| 0 <= i < dict_insert(d, k, v).len() ==>
            (#[trigger] dict_insert(d, k, v)[i]).0 == k || has_key(d, dict_insert(d, k, v)[i].0),
    decreases d.len(),
{
    let r = dict_insert(d, k, v);
    if d.len() == 0 {
    } else if d[0].0 == k {
        assert forall|i: int, j: int| 0 <= i < j < r.len() implies lex_lt(#[trigger] r[i].0, #[trigger] r[j].0) by {
            assert(r[j] == d[j]);
            if i > 0 {
                assert(r[i] == d[i]);
            }
        }
        assert forall|i: int| 0 <= i < r.len() implies (#[trigger] r[i]).0 == k || has_key(d, r[i].0) by {
            if i > 0 {
                assert(r[i] == d[i]);
            }
        }
    } else if lex_lt(k, d[0].0) {
        assert forall|i: int, j: int| 0 <= i < j < r.len() implies lex_lt(#[trigger] r[i].0, #[trigger] r[j].0) by {
            assert(r[j] == d[j - 1]);
            if i > 0 {
                assert(r[i] == d[i - 1]);
            } else if j > 1 {
                lemma_lex_transitive(k, d[0].0, d[j - 1].0);
            }
        }
        assert forall|i: int| 0 <= i < r.len() implies (#[trigger] r[i]).0 == k || has_key(d, r[i].0) by {
            if i > 0 {
                assert(r[i] == d[i - 1]);
            }
        }
    } else {
        let t = d.drop_first();
        assert forall|i: int, j: int| 0 <= i < j < t.len() implies lex_lt(#[trigger] t[i].0, #[trigger] t[j].0) by {
            assert(lex_lt(d[i + 1].0, d[j + 1].0));
        }
        lemma_dict_insert_sorted(t, k, v);
        lemma_lex_total(d[0].0, k);
        let rt = dict_insert(t, k, v);
        assert(r == seq![d[0]] + rt);
        assert forall|i: int| 0 <= i < r.len() implies (#[trigger] r[i]).0 == k || has_key(d, r[i].0) by {
            if i > 0 {
                assert(r[i] == rt[i - 1]);
                if rt[i - 1].0 != k {
                    let w = choose|w: int| 0 <= w < t.len() && #[trigger] t[w].0 == rt[i - 1].0;
                    assert(d[w + 1].0 == rt[i - 1].0);
                }
            } else {
                assert(d[0].0 == r[0].0);
            }
        }
        assert forall|i: int, j: int| 0 <= i < j < r.len() implies lex_lt(#[trigger] r[i].0, #[trigger] r[j].0) by {
            assert(r[j] == rt[j - 1]);
            if i > 0 {
                assert(r[i] == rt[i - 1]);
            } else {
                if rt[j - 1].0 == k {
                } else {
                    let w = choose|w: int| 0 <= w < t.len() && #[trigger] t[w].0 == rt[j - 1].0;
                    assert(d[w + 1].0 == rt[j - 1].0);
                    assert(lex_lt(d[0].0, d[w + 1].0));
                }
            }
        }
    }
}

/// The value under key `k` in the entries `d`, the first such entry.
pub open spec fn lookup<V>(d: Seq<(Seq<u8>, V)>, k: Seq<u8>) -> Option<V>
    decreases d.len(),
{
    if d.len() == 0 {
        None
    } else if d[0].0 == k {
        Some(d[0].1)
    } else {
        lookup(d.drop_first(), k)
    }
}

/// The value inserted last under `k` among the entries `es`.
pub open spec fn last_value<V>(es: Seq<(Seq<u8>, V)>, k: Seq<u8>) -> Option<V>
    decreases es.len(),
{
    if es.len() == 0 {
        None
    } else {
        match last_value(es.drop_first(), k) {
            Some(v) => Some(v),
            None => if es[0].0 == k { Some(es[0].1) } else { None },
        }
    }
}

proof fn lemma_lookup_insert<V>(d: Seq<(Seq<u8>, V)>, k: Seq<u8>, v: V, k2: Seq<u8>)
    ensures
        lookup(dict_insert(d, k, v), k2) == if k2 == k { Some(v) } else { lookup(d, k2) },
    decreases d.len(),
{
    let r = dict_insert(d, k, v);
    if d.len() == 0 {
        assert(r.drop_first() =~= Seq::<(Seq<u8>, V)>::empty());
        assert(lookup(Seq::<(Seq<u8>, V)>::empty(), k2) is None);
        assert(r[0] == (k, v));
    } else if d[0].0 == k {
        assert(r[0] == (k, v));
        assert(r.drop_first() =~= d.drop_first());
    } else if lex_lt(k, d[0].0) {
        assert(r[0] == (k, v));
        assert(r.drop_first() =~= d);
    } else {
        assert(r[0] == d[0]);
        lemma_lookup_insert(d.drop_first(), k, v, k2);
        assert(r.drop_first() =~= dict_insert(d.drop_first(), k, v));
    }
}

proof fn lemma_lookup_insert_all<V>(d: Seq<(Seq<u8>, V)>, es: Seq<(Seq<u8>, V)>, k: Seq<u8>)
    ensures
        lookup(dict_insert_all(d, es), k) == match last_value(es, k) {
            Some(v) => Some(v),
            None => lookup(d, k),
        },
    decreases es.len(),
{
    if es.len() > 0 {
        let d2 = dict_insert(d, es[0].0, es[0].1);
        lemma_lookup_insert_all(d2, es.drop_first(), k);
        lemma_lookup_insert(d, es[0].0, es[0].1, k);
    }
}

proof fn lemma_insert_all_sorted<V>(d: Seq<(Seq<u8>, V)>, es: Seq<(Seq<u8>, V)>)
    requires
        keys_sorted(d),
    ensures
        keys_sorted(dict_insert_all(d, es)),
    decreases es.len(),
{
    if es.len() > 0 {
        lemma_dict_insert_sorted(d, es[0].0, es[0].1);
        lemma_insert_all_sorted(dict_insert(d, es[0].0, es[0].1), es.drop_first());
    }
}

proof fn lemma_lookup_found<V>(d: Seq<(Seq<u8>, V)>, k: Seq<u8>)
    requires
        lookup(d, k) is Some,
    ensures
        exists|i: int| 0 <= i < d.len() && (#[trigger] d[i]).0 == k && lookup(d, k) == Some(d[i].1),
    decreases d.len(),
{
    if d[0].0 != k {
        lemma_lookup_found(d.drop_first(), k);
        let i = choose|i: int| 0 <= i < d.drop_first().len() && (#[trigger] d.drop_first()[i]).0 == k
            && lookup(d.drop_first(), k) == Some(d.drop_first()[i].1);
        assert(d[i + 1] == d.drop_first()[i]);
    } else {
        assert(d[0].0 == k);
    }
}

proof fn lemma_sorted_tail_lacks_head<V>(d: Seq<(Seq<u8>, V)>)
    requires
        keys_sorted(d),
        d.len() > 0,
    ensures
        lookup(d.drop_first(), d[0].0) is None,
{
    if lookup(d.drop_first(), d[0].0) is Some {
        lemma_lookup_found(d.drop_first(), d[0].0);
        let i = choose|i: int| 0 <= i < d.drop_first().len() && (#[trigger] d.drop_first()[i]).0 == d[0].0
            && lookup(d.drop_first(), d[0].0) == Some(d.drop_first()[i].1);
        assert(lex_lt(d[0].0, d[i + 1].0));
        lemma_lex_irreflexive(d[0].0);
    }
}

proof fn lemma_sorted_tail<V>(d: Seq<(Seq<u8>, V)>)
    requires
        keys_sorted(d),
        d.len() > 0,
    ensures
        keys_sorted(d.drop_first()),
{
    let t = d.drop_first();
    assert forall|i: int, j: int| 0 <= i < j < t.len() implies lex_lt(#[trigger] t[i].0, #[trigger] t[j].0) by {
        assert(lex_lt(d[i + 1].0, d[j + 1].0));
    }
}

/// Two sorted entry sequences that hold the same value under every key are equal.
proof fn lemma_sorted_unique<V>(a: Seq<(Seq<u8>, V)>, b: Seq<(Seq<u8>, V)>)
    requires
        keys_sorted(a),
        keys_sorted(b),
        forall|k: Seq<u8>| lookup(a, k) == lookup(b, k),
    ensures
        a == b,
    decreases a.len() + b.len(),
{
    if a.len() == 0 && b.len() == 0 {
        assert(a =~= b);
    } else if a.len() == 0 {
        assert(lookup(b, b[0].0) is Some);
        assert(lookup(a, b[0].0) is None);
    } else if b.len() == 0 {
        assert(lookup(a, a[0].0) is Some);
        assert(lookup(b, a[0].0) is None);
    } else {
        let ka = a[0].0;
        let kb = b[0].0;
        assert(lookup(a, ka) == Some(a[0].1));
        assert(lookup(b, kb) == Some(b[0].1));
        lemma_lookup_found(b, ka);
        lemma_lookup_found(a, kb);
        let j = choose|j: int| 0 <= j < b.len() && (#[trigger] b[j]).0 == ka && lookup(b, ka) == Some(b[j].1);
        let i = choose|i: int| 0 <= i < a.len() && (#[trigger] a[i]).0 == kb && lookup(a, kb) == Some(a[i].1);
        if ka != kb {
            assert(j > 0 && i > 0);
            assert(lex_lt(kb, ka));
            assert(lex_lt(ka, kb));
            lemma_lex_asymmetric(ka, kb);
        }
        assert(a[0] == b[0]);
        lemma_sorted_tail(a);
        lemma_sorted_tail(b);
        lemma_sorted_tail_lacks_head(a);
        lemma_sorted_tail_lacks_head(b);
        assert forall|k: Seq<u8>| lookup(a.drop_first(), k) == lookup(b.drop_first(), k) by {
            if k != ka {
                assert(lookup(a, k) == lookup(a.drop_first(), k));
                assert(lookup(b, k) == lookup(b.drop_first(), k));
            }
        }
        lemma_sorted_unique(a.drop_first(), b.drop_first());
        assert(a =~= seq![a[0]] + a.drop_first());
        assert(b =~= seq![b[0]] + b.drop_first());
    }
}

/// Entries inserted in any order give one sorted dictionary holding, under each
/// key, the value inserted last under it.
pub(crate) proof fn lemma_insertion_order<V>(es1: Seq<(Seq<u8>, V)>, es2: Seq<(Seq<u8>, V)>)
    requires
        forall|k: Seq<u8>| last_value(es1, k) == last_value(es2, k),
    ensures
        keys_sorted(dict_insert_all(seq![], es1)),
        forall|k: Seq<u8>| #[trigger] lookup(dict_insert_all(seq![], es1), k) == last_value(es1, k),
        dict_insert_all(seq![], es1) == dict_insert_all(seq![], es2),
{
    let e = Seq::<(Seq<u8>, V)>::empty();
    lemma_insert_all_sorted(e, es1);
    lemma_insert_all_sorted(e, es2);
    assert forall|k: Seq<u8>| #[trigger] lookup(dict_insert_all(seq![], es1), k) == last_value(es1, k) by {
        lemma_lookup_insert_all(e, es1, k);
    }
    assert forall|k: Seq<u8>| lookup(dict_insert_all(seq![], es1), k) == lookup(dict_insert_all(seq![], es2), k) by {
        lemma_lookup_insert_all(e, es1, k);
        lemma_lookup_insert_all(e, es2, k);
    }
    lemma_sorted_unique(dict_insert_all(e, es1), dict_insert_all(e, es2));
}

/// Inserting a key above every key of `d` appends the entry.
pub proof fn lemma_dict_insert_last<V>(d: Seq<(Seq<u8>, V)>, k: Seq<u8>, v: V)
    requires
        forall|j: int| 0 <= j < d.len() ==> lex_lt(#[trigger] d[j].0, k),
    ensures
        dict_insert(d, k, v) == d.push((k, v)),
{
    lemma_dict_insert_split(d, k, v, d.len() as int);
    assert(d.take(d.len() as int) =~= d);
    assert(d.skip(d.len() as int) =~= Seq::<(Seq<u8>, V)>::empty());
    assert(dict_insert(d, k, v) =~= d.push((k, v)));
}

/// Inserting entries that are already sorted, each above all of `d`, appends them.
pub proof fn lemma_insert_all_sorted_input<V>(d: Seq<(Seq<u8>, V)>, es: Seq<(Seq<u8>, V)>)
    requires
        keys_sorted(d + es),
    ensures
        dict_insert_all(d, es) == d + es,
    decreases es.len(),
{
    if es.len() == 0 {
        assert(d + es =~= d);
    } else {
        let de = d + es;
        assert forall|j: int| 0 <= j < d.len() implies lex_lt(#[trigger] d[j].0, es[0].0) by {
            assert(de[j] == d[j] && de[d.len() as int] == es[0]);
        }
        lemma_dict_insert_last(d, es[0].0, es[0].1);
        assert(d.push(es[0]) + es.drop_first() =~= d + es);
        lemma_insert_all_sorted_input(d.push(es[0]), es.drop_first());
    }
}

/// Inserting one more entry at the end of `es`.
pub proof fn lemma_insert_all_push<V>(d: Seq<(Seq<u8>, V)>, es: Seq<(Seq<u8>, V)>, x: (Seq<u8>, V))
    ensures
        dict_insert_all(d, es.push(x)) == dict_insert(dict_insert_all(d, es), x.0, x.1),
    decreases es.len(),
{
    if es.len() == 0 {
        assert(es.push(x).drop_first() =~= Seq::<(Seq<u8>, V)>::empty());
        assert(es.push(x)[0] == x);
        let d2 = dict_insert(d, x.0, x.1);
        assert(dict_insert_all(d2, Seq::<(Seq<u8>, V)>::empty()) == d2);
    } else {
        assert(es.push(x).drop_first() =~= es.drop_first().push(x));
        lemma_insert_all_push(dict_insert(d, es[0].0, es[0].1), es.drop_first(), x);
    }
}

/// The entries of `d` with `f` applied to each value.
pub open spec fn map_entry_values<V, W>(d: Seq<(Seq<u8>, V)>, f: spec_fn(V) -> W) -> Seq<(Seq<u8>, W)> {
    Seq::new(d.len(), |i: int| (d[i].0, f(d[i].1)))
}

/// Insertion looks at keys only, so it commutes with a map over the values.
pub proof fn lemma_insert_map<V, W>(d: Seq<(Seq<u8>, V)>, k: Seq<u8>, v: V, f: spec_fn(V) -> W)
    ensures
        dict_insert(map_entry_values(d, f), k, f(v)) == map_entry_values(dict_insert(d, k, v), f),
    decreases d.len(),
{
    let md = map_entry_values(d, f);
    if d.len() == 0 {
        assert(dict_insert(md, k, f(v)) =~= map_entry_values(dict_insert(d, k, v), f));
    } else if d[0].0 == k {
        assert(md.drop_first() =~= map_entry_values(d.drop_first(), f));
        assert(dict_insert(md, k, f(v)) =~= map_entry_values(dict_insert(d, k, v), f));
    } else if lex_lt(k, d[0].0) {
        assert(dict_insert(md, k, f(v)) =~= map_entry_values(dict_insert(d, k, v), f));
    } else {
        lemma_insert_map(d.drop_first(), k, v, f);
        assert(md.drop_first() =~= map_entry_values(d.drop_first(), f));
        assert(dict_insert(md, k, f(v)) =~= map_entry_values(dict_insert(d, k, v), f));
    }
}

pub proof fn lemma_insert_all_map<V, W>(d: Seq<(Seq<u8>, V)>, es: Seq<(Seq<u8>, V)>, f: spec_fn(V) -> W)
    ensures
        dict_insert_all(map_entry_values(d, f), map_entry_values(es, f)) == map_entry_values(dict_insert_all(d, es), f),
    decreases es.len(),
{
    if es.len() > 0 {
        lemma_insert_map(d, es[0].0, es[0].1, f);
        assert(map_entry_values(es, f).drop_first() =~= map_entry_values(es.drop_first(), f));
        lemma_insert_all_map(dict_insert(d, es[0].0, es[0].1), es.drop_first(), f);
    } else {
        assert(map_entry_values(es, f) =~= Seq::<(Seq<u8>, W)>::empty());
    }
}

/// The value inserted last under a key, after a map over the values.
pub proof fn lemma_last_value_map<V, W>(es: Seq<(Seq<u8>, V)>, k: Seq<u8>, f: spec_fn(V) -> W)
    ensures
        last_value(map_entry_values(es, f), k) == match last_value(es, k) {
            Some(v) => Some(f(v)),
            None => None,
        },
    decreases es.len(),
{
    if es.len() > 0 {
        assert(map_entry_values(es, f).drop_first() =~= map_entry_values(es.drop_first(), f));
        lemma_last_value_map(es.drop_first(), k, f);
    }
}

} // verus!
