//! The tree decoder: bytes to `Value`, proved to follow the grammar.
use vstd::prelude::*;
use vstd::slice::{slice_subrange, slice_to_vec};
use crate::error::Error;
use crate::grammar::{
    COLON, DICT_START, END, INT_START, LIST_START, MINUS, NINE, ZERO, decode_spec, digit_run,
    digits_value, is_digit, parse_entries, parse_int, parse_items, parse_string,
    parse_value,
};
use crate::model::{MAX_DEPTH, Term, utf8_valid, utf8_width};
use crate::value::{Value, entry_terms, insert_entry, lemma_term_dict, lemma_term_list, list_terms};

verus! {

/// The input from position `p` on.
pub open spec fn suffix(s: Seq<u8>, p: int) -> Seq<u8> {
    s.subrange(p, s.len() as int)
}

proof fn lemma_digits_value_prefix(ds: Seq<u8>, k: int)
    requires
        0 <= k <= ds.len(),
    ensures
        digits_value(ds.take(k)) <= digits_value(ds),
    decreases ds.len(),
{
    if k < ds.len() {
        lemma_digits_value_prefix(ds.drop_last(), k);
        assert(ds.drop_last().take(k) =~= ds.take(k));
    } else {
        assert(ds.take(k) =~= ds);
    }
}

/// The end of the run of digits that starts at `start`.
fn scan_digits(b: &[u8], start: usize) -> (q: usize)
    requires
        start <= b@.len(),
    ensures
        start <= q <= b@.len(),
        q - start == digit_run(suffix(b@, start as int)),
        forall|k: int| start <= k < q ==> is_digit(#[trigger] b@[k]),
        q < b@.len() ==> !is_digit(b@[q as int]),
{
    let mut q: usize = start;
    while q < b.len() && ZERO <= b[q] && b[q] <= NINE
        invariant
            start <= q <= b@.len(),
            forall|k: int| start <= k < q ==> is_digit(#[trigger] b@[k]),
            digit_run(suffix(b@, start as int)) == (q - start) + digit_run(suffix(b@, q as int)),
        decreases b@.len() - q,
    {
        assert(suffix(b@, q as int).drop_first() =~= suffix(b@, q + 1));
        q = q + 1;
    }
    q
}

/// The value of the digits `b[a..q]`, where it is at most `cap`.
fn digits_value_capped(b: &[u8], a: usize, q: usize, cap: u64) -> (r: Option<u64>)
    requires
        a <= q <= b@.len(),
        forall|k: int| a <= k < q ==> is_digit(#[trigger] b@[k]),
    ensures
        match r {
            Some(v) => v == digits_value(b@.subrange(a as int, q as int)) && v <= cap,
            None => digits_value(b@.subrange(a as int, q as int)) > cap,
        },
{
    let mut acc: u64 = 0;
    let mut i: usize = a;
    assert(b@.subrange(a as int, a as int).len() == 0);
    while i < q
        invariant
            a <= i <= q <= b@.len(),
            forall|k: int| a <= k < q ==> is_digit(#[trigger] b@[k]),
            acc == digits_value(b@.subrange(a as int, i as int)),
            acc <= cap,
        decreases q - i,
    {
        let d: u64 = (b[i] - ZERO) as u64;
        let ghost next = b@.subrange(a as int, i + 1);
        assert(next.drop_last() =~= b@.subrange(a as int, i as int));
        assert(digits_value(next) == acc * 10 + d);
        if acc > cap / 10 || d > cap - acc * 10 {
            assert(acc * 10 + d > cap) by (nonlinear_arith)
                requires acc > cap / 10 || (acc <= cap / 10 && d > cap - acc * 10);
            proof {
                lemma_digits_value_prefix(b@.subrange(a as int, q as int), i + 1 - a);
                assert(b@.subrange(a as int, q as int).take(i + 1 - a) =~= next);
            }
            return None;
        }
        acc = acc * 10 + d;
        i = i + 1;
    }
    Some(acc)
}

/// An integer body at `pos`, just after its `i`; on success, the integer and
/// the position after its `e`.
pub(crate) fn parse_int_at(b: &[u8], pos: usize) -> (r: Result<(i64, usize), Error>)
    requires
        pos <= b@.len(),
    ensures
        match r {
            Ok((n, p)) => pos < p <= b@.len() && parse_int(suffix(b@, pos as int)) == Ok::<_, Error>(
                (n as int, suffix(b@, p as int)),
            ),
            Err(e) => parse_int(suffix(b@, pos as int)) == Err::<(int, Seq<u8>), Error>(e),
        },
{
    let neg = pos < b.len() && b[pos] == MINUS;
    let a: usize = if neg { pos + 1 } else { pos };
    let ghost s = suffix(b@, pos as int);
    let ghost t = suffix(b@, a as int);
    assert(t =~= (if neg { s.drop_first() } else { s }));
    let q = scan_digits(b, a);
    if q == a {
        if a == b.len() {
            return Err(Error::UnexpectedEof);
        } else {
            return Err(Error::ExpectedInteger);
        }
    }
    if q == b.len() {
        return Err(Error::UnexpectedEof);
    }
    if b[q] != END {
        return Err(Error::ExpectedIntegerOrEnd);
    }
    assert(t.take(q - a) =~= b@.subrange(a as int, q as int));
    if (q - a > 1 && b[a] == ZERO) || (neg && b[a] == ZERO) {
        return Err(Error::ExpectedInteger);
    }
    let cap: u64 = if neg { 9223372036854775808 } else { 9223372036854775807 };
    assert(t.skip(q - a + 1) =~= suffix(b@, q + 1));
    match digits_value_capped(b, a, q, cap) {
        None => Err(Error::Overflow),
        Some(m) => {
            let n: i64 = if !neg {
                m as i64
            } else if m == 9223372036854775808 {
                i64::MIN
            } else {
                -(m as i64)
            };
            Ok((n, q + 1))
        },
    }
}

/// A byte string at `pos`, from the first digit of its length; on success, the
/// bounds `x..y` of its bytes in `b`.
pub(crate) fn parse_string_at(b: &[u8], pos: usize) -> (r: Result<(usize, usize), Error>)
    requires
        pos <= b@.len(),
    ensures
        match r {
            Ok((x, y)) => pos < x <= y <= b@.len() && parse_string(suffix(b@, pos as int)) == Ok::<_, Error>(
                (b@.subrange(x as int, y as int), suffix(b@, y as int)),
            ),
            Err(e) => parse_string(suffix(b@, pos as int)) == Err::<(Seq<u8>, Seq<u8>), Error>(e),
        },
{
    let ghost s = suffix(b@, pos as int);
    let q = scan_digits(b, pos);
    if q == pos {
        if pos == b.len() {
            return Err(Error::UnexpectedEof);
        } else {
            return Err(Error::ExpectedInteger);
        }
    }
    if q == b.len() {
        return Err(Error::UnexpectedEof);
    }
    assert(s.take(q - pos) =~= b@.subrange(pos as int, q as int));
    if b[q] != COLON || (q - pos > 1 && b[pos] == ZERO) {
        return Err(Error::InvalidLength);
    }
    let x = q + 1;
    let remaining = b.len() - x;
    let ghost rest = s.skip(q - pos + 1);
    assert(rest =~= suffix(b@, x as int));
    match digits_value_capped(b, pos, q, remaining as u64) {
        None => Err(Error::UnexpectedEof),
        Some(n) => {
            let y = x + n as usize;
            assert(rest.take(n as int) =~= b@.subrange(x as int, y as int));
            assert(rest.skip(n as int) =~= suffix(b@, y as int));
            Ok((x, y))
        },
    }
}

/// The length of the UTF-8 sequence at `b[i..y]`, or 0 where it is malformed.
fn utf8_width_at(b: &[u8], i: usize, y: usize) -> (w: usize)
    requires
        i < y <= b@.len(),
    ensures
        w == utf8_width(b@.subrange(i as int, y as int)),
{
    let c0 = b[i];
    let n = y - i;
    let c1 = if n > 1 { b[i + 1] } else { 0 };
    let c2 = if n > 2 { b[i + 2] } else { 0 };
    let c3 = if n > 3 { b[i + 3] } else { 0 };
    let k1 = n > 1 && 0x80 <= c1 && c1 <= 0xBF;
    let k2 = n > 2 && 0x80 <= c2 && c2 <= 0xBF;
    let k3 = n > 3 && 0x80 <= c3 && c3 <= 0xBF;
    if c0 < 0x80 {
        1
    } else if 0xC2 <= c0 && c0 <= 0xDF {
        if k1 { 2 } else { 0 }
    } else if c0 == 0xE0 {
        if n > 2 && 0xA0 <= c1 && c1 <= 0xBF && k2 { 3 } else { 0 }
    } else if (0xE1 <= c0 && c0 <= 0xEC) || (0xEE <= c0 && c0 <= 0xEF) {
        if k1 && k2 { 3 } else { 0 }
    } else if c0 == 0xED {
        if n > 2 && 0x80 <= c1 && c1 <= 0x9F && k2 { 3 } else { 0 }
    } else if c0 == 0xF0 {
        if n > 3 && 0x90 <= c1 && c1 <= 0xBF && k2 && k3 { 4 } else { 0 }
    } else if 0xF1 <= c0 && c0 <= 0xF3 {
        if k1 && k2 && k3 { 4 } else { 0 }
    } else if c0 == 0xF4 {
        if n > 3 && 0x80 <= c1 && c1 <= 0x8F && k2 && k3 { 4 } else { 0 }
    } else {
        0
    }
}

/// Whether `b[x..y]` is well-formed UTF-8.
pub(crate) fn is_utf8(b: &[u8], x: usize, y: usize) -> (r: bool)
    requires
        x <= y <= b@.len(),
    ensures
        r == utf8_valid(b@.subrange(x as int, y as int)),
{
    let mut i: usize = x;
    while i < y
        invariant
            x <= i <= y <= b@.len(),
            utf8_valid(b@.subrange(x as int, y as int)) == utf8_valid(b@.subrange(i as int, y as int)),
        decreases y - i,
    {
        let w = utf8_width_at(b, i, y);
        if w == 0 {
            return false;
        }
        assert(b@.subrange(i as int, y as int).skip(w as int) =~= b@.subrange(i + w, y as int));
        i = i + w;
    }
    true
}

/// One value at `pos`, nested `depth` levels deep; on success, the value and the
/// position after it.
pub(crate) fn parse_value_at(b: &[u8], pos: usize, depth: usize) -> (r: Result<(Value, usize), Error>)
    requires
        pos <= b@.len(),
        depth <= MAX_DEPTH,
    ensures
        match r {
            Ok((v, p)) => pos < p <= b@.len() && parse_value(suffix(b@, pos as int), depth as nat)
                == Ok::<_, Error>((v.term(), suffix(b@, p as int))),
            Err(e) => parse_value(suffix(b@, pos as int), depth as nat) == Err::<(Term, Seq<u8>), Error>(e),
        },
    decreases b@.len() - pos, 0nat,
{
    let ghost s = suffix(b@, pos as int);
    if pos == b.len() {
        return Err(Error::UnexpectedEof);
    }
    let c = b[pos];
    assert(s.drop_first() =~= suffix(b@, pos + 1));
    if c == INT_START {
        match parse_int_at(b, pos + 1) {
            Ok((n, p)) => Ok((Value::IntValue(n), p)),
            Err(e) => Err(e),
        }
    } else if ZERO <= c && c <= NINE {
        match parse_string_at(b, pos) {
            Ok((x, y)) => Ok((Value::BytesValue(slice_to_vec(slice_subrange(b, x, y))), y)),
            Err(e) => Err(e),
        }
    } else if c == LIST_START || c == DICT_START {
        if depth >= MAX_DEPTH {
            Err(Error::RecursionLimitExceeded)
        } else if c == LIST_START {
            match parse_items_at(b, pos + 1, depth + 1) {
                Ok((l, p)) => {
                    proof {
                        lemma_term_list(l);
                    }
                    Ok((Value::ListValue(l), p))
                },
                Err(e) => Err(e),
            }
        } else {
            match parse_entries_at(b, pos + 1, depth + 1) {
                Ok((d, p)) => {
                    proof {
                        lemma_term_dict(d);
                    }
                    Ok((Value::DictValue(d), p))
                },
                Err(e) => Err(e),
            }
        }
    } else {
        Err(Error::SyntaxError)
    }
}

/// The elements of a list from `pos`, just after its `l`; on success, the
/// elements and the position after the list's `e`.
fn parse_items_at(b: &[u8], pos: usize, depth: usize) -> (r: Result<(Vec<Value>, usize), Error>)
    requires
        pos <= b@.len(),
        depth <= MAX_DEPTH,
    ensures
        match r {
            Ok((l, p)) => pos < p <= b@.len() && parse_items(suffix(b@, pos as int), depth as nat, seq![])
                == Ok::<_, Error>((list_terms(l@), suffix(b@, p as int))),
            Err(e) => parse_items(suffix(b@, pos as int), depth as nat, seq![])
                == Err::<(Seq<Term>, Seq<u8>), Error>(e),
        },
    decreases b@.len() - pos, 1nat,
{
    let mut l: Vec<Value> = Vec::new();
    let mut p: usize = pos;
    assert(list_terms(l@) =~= seq![]);
    loop
        invariant
            pos <= p <= b@.len(),
            depth <= MAX_DEPTH,
            parse_items(suffix(b@, p as int), depth as nat, list_terms(l@))
                == parse_items(suffix(b@, pos as int), depth as nat, seq![]),
        decreases b@.len() - p,
    {
        let ghost s = suffix(b@, p as int);
        if p == b.len() {
            return Err(Error::UnexpectedEof);
        }
        if b[p] == END {
            assert(s.drop_first() =~= suffix(b@, p + 1));
            return Ok((l, p + 1));
        }
        match parse_value_at(b, p, depth) {
            Err(e) => {
                return Err(e);
            },
            Ok((v, q)) => {
                let ghost before = list_terms(l@);
                let ghost vt = v.term();
                l.push(v);
                assert(list_terms(l@) =~= before.push(vt));
                p = q;
            },
        }
    }
}

/// The entries of a dictionary from `pos`, just after its `d`; on success, the
/// entries sorted by key and the position after the dictionary's `e`.
fn parse_entries_at(b: &[u8], pos: usize, depth: usize) -> (r: Result<(Vec<(Vec<u8>, Value)>, usize), Error>)
    requires
        pos <= b@.len(),
        depth <= MAX_DEPTH,
    ensures
        match r {
            Ok((d, p)) => pos < p <= b@.len() && parse_entries(suffix(b@, pos as int), depth as nat, seq![])
                == Ok::<_, Error>((entry_terms(d@), suffix(b@, p as int))),
            Err(e) => parse_entries(suffix(b@, pos as int), depth as nat, seq![])
                == Err::<(Seq<(Seq<u8>, Term)>, Seq<u8>), Error>(e),
        },
    decreases b@.len() - pos, 1nat,
{
    let mut d: Vec<(Vec<u8>, Value)> = Vec::new();
    let mut p: usize = pos;
    assert(entry_terms(d@) =~= seq![]);
    loop
        invariant
            pos <= p <= b@.len(),
            depth <= MAX_DEPTH,
            parse_entries(suffix(b@, p as int), depth as nat, entry_terms(d@))
                == parse_entries(suffix(b@, pos as int), depth as nat, seq![]),
        decreases b@.len() - p,
    {
        let ghost s = suffix(b@, p as int);
        if p == b.len() {
            return Err(Error::UnexpectedEof);
        }
        let c = b[p];
        if c == END {
            assert(s.drop_first() =~= suffix(b@, p + 1));
            return Ok((d, p + 1));
        }
        if !(ZERO <= c && c <= NINE) {
            return Err(Error::InvalidKey);
        }
        let (x, y) = match parse_string_at(b, p) {
            Ok(bounds) => bounds,
            Err(e) => {
                return Err(e);
            },
        };
        if !is_utf8(b, x, y) {
            return Err(Error::InvalidKey);
        }
        match parse_value_at(b, y, depth) {
            Err(e) => {
                return Err(e);
            },
            Ok((v, q)) => {
                let key = slice_to_vec(slice_subrange(b, x, y));
                insert_entry(&mut d, key, v);
                p = q;
            },
        }
    }
}

/// Decodes the value at the front of `raw` and hands back the bytes after it.
pub fn bencode_decode(raw: &[u8]) -> (r: Result<(Value, &[u8]), Error>)
    ensures
        match r {
            Ok((v, rest)) => parse_value(raw@, 0) == Ok::<_, Error>((v.term(), rest@)),
            Err(e) => parse_value(raw@, 0) == Err::<(Term, Seq<u8>), Error>(e),
        },
{
    assert(suffix(raw@, 0) =~= raw@);
    match parse_value_at(raw, 0, 0) {
        Ok((v, p)) => Ok((v, slice_subrange(raw, p, raw.len()))),
        Err(e) => Err(e),
    }
}

/// Decodes a whole document: one value, with nothing after it.
pub fn decode(raw: &[u8]) -> (r: Result<Value, Error>)
    ensures
        match r {
            Ok(v) => decode_spec(raw@) == Ok::<_, Error>(v.term()),
            Err(e) => decode_spec(raw@) == Err::<Term, Error>(e),
        },
{
    assert(suffix(raw@, 0) =~= raw@);
    match parse_value_at(raw, 0, 0) {
        Ok((v, p)) => if p == raw.len() {
            Ok(v)
        } else {
            Err(Error::TrailingData)
        },
        Err(e) => Err(e),
    }
}

/// Decodes the integer token `i<digits>e` at the front of `raw`.
pub fn build_int(raw: &[u8]) -> (r: Result<(i64, &[u8]), Error>)
    ensures
        match r {
            Ok((n, rest)) => raw@.len() > 0 && raw@[0] == INT_START && parse_int(raw@.drop_first())
                == Ok::<_, Error>((n as int, rest@)),
            Err(e) => if raw@.len() == 0 {
                e == Error::UnexpectedEof
            } else if raw@[0] != INT_START {
                e == Error::SyntaxError
            } else {
                parse_int(raw@.drop_first()) == Err::<(int, Seq<u8>), Error>(e)
            },
        },
{
    if raw.len() == 0 {
        return Err(Error::UnexpectedEof);
    }
    if raw[0] != INT_START {
        return Err(Error::SyntaxError);
    }
    assert(suffix(raw@, 1) =~= raw@.drop_first());
    match parse_int_at(raw, 1) {
        Ok((n, p)) => Ok((n, slice_subrange(raw, p, raw.len()))),
        Err(e) => Err(e),
    }
}

/// Decodes the byte string token `<len>:<bytes>` at the front of `raw`; the
/// bytes are borrowed from `raw`.
pub fn build_bytes(raw: &[u8]) -> (r: Result<(&[u8], &[u8]), Error>)
    ensures
        match r {
            Ok((bytes, rest)) => parse_string(raw@) == Ok::<_, Error>((bytes@, rest@)),
            Err(e) => parse_string(raw@) == Err::<(Seq<u8>, Seq<u8>), Error>(e),
        },
{
    assert(suffix(raw@, 0) =~= raw@);
    match parse_string_at(raw, 0) {
        Ok((x, y)) => Ok((slice_subrange(raw, x, y), slice_subrange(raw, y, raw.len()))),
        Err(e) => Err(e),
    }
}

/// Decodes the list `l<values>e` at the front of `raw`.
pub fn build_list(raw: &[u8]) -> (r: Result<(Vec<Value>, &[u8]), Error>)
    ensures
        match r {
            Ok((l, rest)) => raw@.len() > 0 && raw@[0] == LIST_START && parse_items(raw@.drop_first(), 1, seq![])
                == Ok::<_, Error>((list_terms(l@), rest@)),
            Err(e) => if raw@.len() == 0 {
                e == Error::UnexpectedEof
            } else if raw@[0] != LIST_START {
                e == Error::SyntaxError
            } else {
                parse_items(raw@.drop_first(), 1, seq![]) == Err::<(Seq<Term>, Seq<u8>), Error>(e)
            },
        },
{
    if raw.len() == 0 {
        return Err(Error::UnexpectedEof);
    }
    if raw[0] != LIST_START {
        return Err(Error::SyntaxError);
    }
    assert(suffix(raw@, 1) =~= raw@.drop_first());
    match parse_items_at(raw, 1, 1) {
        Ok((l, p)) => Ok((l, slice_subrange(raw, p, raw.len()))),
        Err(e) => Err(e),
    }
}

/// Decodes the dictionary `d<key><value>...e` at the front of `raw`; its
/// entries come back sorted by key, a repeated key keeping its last value.
pub fn build_dictionary(raw: &[u8]) -> (r: Result<(Vec<(Vec<u8>, Value)>, &[u8]), Error>)
    ensures
        match r {
            Ok((d, rest)) => raw@.len() > 0 && raw@[0] == DICT_START && parse_entries(raw@.drop_first(), 1, seq![])
                == Ok::<_, Error>((entry_terms(d@), rest@)),
            Err(e) => if raw@.len() == 0 {
                e == Error::UnexpectedEof
            } else if raw@[0] != DICT_START {
                e == Error::SyntaxError
            } else {
                parse_entries(raw@.drop_first(), 1, seq![]) == Err::<(Seq<(Seq<u8>, Term)>, Seq<u8>), Error>(e)
            },
        },
{
    if raw.len() == 0 {
        return Err(Error::UnexpectedEof);
    }
    if raw[0] != DICT_START {
        return Err(Error::SyntaxError);
    }
    assert(suffix(raw@, 1) =~= raw@.drop_first());
    match parse_entries_at(raw, 1, 1) {
        Ok((d, p)) => Ok((d, slice_subrange(raw, p, raw.len()))),
        Err(e) => Err(e),
    }
}

} // verus!
