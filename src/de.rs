//! The pull deserializer: bytes straight into a caller's target shape, by the
//! grammar of the tree decoder, with no intermediate `Value`.
use vstd::prelude::*;
use vstd::slice::{slice_subrange, slice_to_vec};
use core::cmp::Ordering;
use crate::decode::{is_utf8, parse_int_at, parse_string_at, parse_value_at, suffix};
use crate::error::Error;
use crate::grammar::{
    DICT_START, END, INT_START, LIST_START, NINE, ZERO, is_digit, parse_int, parse_string,
    parse_value,
};
use crate::model::{MAX_DEPTH, utf8_valid};
use crate::value::compare_keys;

verus! {

/// What the caller asks for.
pub enum Shape {
    /// An integer in `min..=max`, the range of the requested width.
    Int { min: i64, max: i64 },
    /// A byte string, borrowed from the input.
    Bytes,
    /// A list whose elements all have one shape.
    List(Box<Shape>),
    /// A dictionary read as a record with named fields.
    Record(Vec<Field>),
}

/// A named field of a record.
pub struct Field {
    pub name: Vec<u8>,
    pub shape: Shape,
    /// A required field missing from the input is an error; another one is left empty.
    pub required: bool,
}

/// A value deserialized into a shape; byte strings borrow from the input.
#[derive(Debug, PartialEq)]
pub enum Typed<'de> {
    Int(i64),
    Bytes(&'de [u8]),
    List(Vec<Typed<'de>>),
    /// One slot per declared field, in declaration order.
    Record(Vec<Option<Typed<'de>>>),
}

/// What a `Typed` value means.
pub enum Shaped {
    Int(int),
    Bytes(Seq<u8>),
    List(Seq<Shaped>),
    Record(Seq<Option<Shaped>>),
}

impl<'de> Typed<'de> {
    /// What the value means.
    pub open spec fn shaped(&self) -> Shaped
        decreases self,
    {
        match self {
            Typed::Int(n) => Shaped::Int(*n as int),
            Typed::Bytes(b) => Shaped::Bytes(b@),
            Typed::List(l) => Shaped::List(
                Seq::new(l.len() as nat, |i: int| if 0 <= i < l.len() { l[i].shaped() } else { Shaped::Int(0) }),
            ),
            Typed::Record(r) => Shaped::Record(
                Seq::new(
                    r.len() as nat,
                    |i: int|
                        if 0 <= i < r.len() {
                            match r[i] {
                                Some(t) => Some(t.shaped()),
                                None => None,
                            }
                        } else {
                            None
                        },
                ),
            ),
        }
    }
}

/// What a list of typed values means, element by element.
pub open spec fn shaped_list(l: Seq<Typed>) -> Seq<Shaped> {
    Seq::new(l.len(), |i: int| l[i].shaped())
}

/// What a record slot holds.
pub open spec fn shaped_slot(o: Option<Typed>) -> Option<Shaped> {
    match o {
        Some(t) => Some(t.shaped()),
        None => None,
    }
}

/// What the slots of a record hold, slot by slot.
pub open spec fn shaped_slots(r: Seq<Option<Typed>>) -> Seq<Option<Shaped>> {
    Seq::new(r.len(), |i: int| shaped_slot(r[i]))
}

proof fn lemma_shaped_list<'de>(l: Vec<Typed<'de>>)
    ensures
        Typed::List(l).shaped() == Shaped::List(shaped_list(l@)),
{
    match Typed::List(l).shaped() {
        Shaped::List(s) => assert(s =~= shaped_list(l@)),
        _ => {},
    }
}

proof fn lemma_shaped_record<'de>(r: Vec<Option<Typed<'de>>>)
    ensures
        Typed::Record(r).shaped() == Shaped::Record(shaped_slots(r@)),
{
    match Typed::Record(r).shaped() {
        Shaped::Record(s) => assert(s =~= shaped_slots(r@)),
        _ => {},
    }
}

/// `n` empty slots.
pub open spec fn empty_slots(n: nat) -> Seq<Option<Shaped>> {
    Seq::new(n, |i: int| None)
}

/// The same error; a missing field is compared by its name's bytes.
pub open spec fn same_error(a: Error, b: Error) -> bool {
    match (a, b) {
        (Error::MissingField(x), Error::MissingField(y)) => x@ == y@,
        _ => a == b,
    }
}

/// The first field named `k`, or -1.
pub open spec fn field_index(fields: Seq<Field>, k: Seq<u8>) -> int
    decreases fields.len(),
{
    if fields.len() == 0 {
        -1
    } else if fields[0].name@ == k {
        0
    } else {
        let i = field_index(fields.drop_first(), k);
        if i < 0 { -1 } else { i + 1 }
    }
}

/// The first required field from `i` on whose slot is empty, or -1.
pub open spec fn first_missing(fields: Seq<Field>, slots: Seq<Option<Shaped>>, i: int) -> int
    decreases fields.len() - i,
{
    if i < 0 || i >= fields.len() || i >= slots.len() {
        -1
    } else if fields[i].required && slots[i] is None {
        i
    } else {
        first_missing(fields, slots, i + 1)
    }
}

/// An integer of the given range.
pub open spec fn de_int(s: Seq<u8>, min: i64, max: i64) -> Result<(int, Seq<u8>), Error> {
    if s.len() == 0 {
        Err(Error::UnexpectedEof)
    } else if s[0] != INT_START {
        Err(Error::SyntaxError)
    } else {
        match parse_int(s.drop_first()) {
            Ok((n, rest)) => if min <= n <= max { Ok((n, rest)) } else { Err(Error::Overflow) },
            Err(e) => Err(e),
        }
    }
}

/// A dictionary key: a byte string holding UTF-8 text.
pub open spec fn de_key(s: Seq<u8>) -> Result<(Seq<u8>, Seq<u8>), Error> {
    if s.len() == 0 {
        Err(Error::UnexpectedEof)
    } else if !is_digit(s[0]) {
        Err(Error::InvalidKey)
    } else {
        match parse_string(s) {
            Ok((k, rest)) => if utf8_valid(k) { Ok((k, rest)) } else { Err(Error::InvalidKey) },
            Err(e) => Err(e),
        }
    }
}

/// A container opened by `marker` at nesting `depth`: the input after the marker.
pub open spec fn de_open(s: Seq<u8>, marker: u8, depth: nat) -> Result<Seq<u8>, Error> {
    if s.len() == 0 {
        Err(Error::UnexpectedEof)
    } else if s[0] != marker {
        Err(Error::SyntaxError)
    } else if depth >= MAX_DEPTH {
        Err(Error::RecursionLimitExceeded)
    } else {
        Ok(s.drop_first())
    }
}

/// One value of `shape` at nesting `depth`.
pub open spec fn de_value(s: Seq<u8>, shape: Shape, depth: nat) -> Result<(Shaped, Seq<u8>), Error>
    decreases s.len(), 0nat,
{
    match shape {
        Shape::Int { min, max } => match de_int(s, min, max) {
            Ok((n, rest)) => Ok((Shaped::Int(n), rest)),
            Err(e) => Err(e),
        },
        Shape::Bytes => match parse_string(s) {
            Ok((b, rest)) => Ok((Shaped::Bytes(b), rest)),
            Err(e) => Err(e),
        },
        Shape::List(elem) => match de_open(s, LIST_START, depth) {
            Ok(t) => if t.len() < s.len() {
                match de_items(t, *elem, depth + 1, seq![]) {
                    Ok((l, rest)) => Ok((Shaped::List(l), rest)),
                    Err(e) => Err(e),
                }
            } else {
                Err(Error::SyntaxError)
            },
            Err(e) => Err(e),
        },
        Shape::Record(fields) => match de_open(s, DICT_START, depth) {
            Ok(t) => if t.len() < s.len() {
                match de_fields(t, fields@, depth + 1, empty_slots(fields@.len())) {
                    Ok((r, rest)) => Ok((Shaped::Record(r), rest)),
                    Err(e) => Err(e),
                }
            } else {
                Err(Error::SyntaxError)
            },
            Err(e) => Err(e),
        },
    }
}

/// The elements of a list, each of shape `elem`, appended to `acc`, up to and with the `e`.
pub open spec fn de_items(s: Seq<u8>, elem: Shape, depth: nat, acc: Seq<Shaped>) -> Result<(Seq<Shaped>, Seq<u8>), Error>
    decreases s.len(), 1nat,
{
    if s.len() == 0 {
        Err(Error::UnexpectedEof)
    } else if s[0] == END {
        Ok((acc, s.drop_first()))
    } else {
        match de_value(s, elem, depth) {
            Ok((v, rest)) => if rest.len() < s.len() {
                de_items(rest, elem, depth, acc.push(v))
            } else {
                Err(Error::SyntaxError)
            },
            Err(e) => Err(e),
        }
    }
}

/// The entries of a record into the slots `acc`, up to and with the `e`. A key
/// that names a field fills its slot, a later entry winning; any other entry is
/// read as a value and passed over. At the end a required field left empty is
/// `MissingField`.
pub open spec fn de_fields(s: Seq<u8>, fields: Seq<Field>, depth: nat, acc: Seq<Option<Shaped>>) -> Result<(Seq<Option<Shaped>>, Seq<u8>), Error>
    decreases s.len(), 1nat,
{
    if s.len() == 0 {
        Err(Error::UnexpectedEof)
    } else if s[0] == END {
        let m = first_missing(fields, acc, 0);
        if m >= 0 {
            Err(Error::MissingField(fields[m].name))
        } else {
            Ok((acc, s.drop_first()))
        }
    } else {
        match de_key(s) {
            Ok((k, r1)) => if r1.len() < s.len() {
                let i = field_index(fields, k);
                if i >= 0 {
                    match de_value(r1, fields[i].shape, depth) {
                        Ok((v, r2)) => if r2.len() < s.len() {
                            de_fields(r2, fields, depth, acc.update(i, Some(v)))
                        } else {
                            Err(Error::SyntaxError)
                        },
                        Err(e) => Err(e),
                    }
                } else {
                    match parse_value(r1, depth) {
                        Ok((_, r2)) => if r2.len() < s.len() {
                            de_fields(r2, fields, depth, acc)
                        } else {
                            Err(Error::SyntaxError)
                        },
                        Err(e) => Err(e),
                    }
                }
            } else {
                Err(Error::SyntaxError)
            },
            Err(e) => Err(e),
        }
    }
}

/// A whole input read as `shape`, with nothing after it.
pub open spec fn de_document(s: Seq<u8>, shape: Shape) -> Result<Shaped, Error> {
    match de_value(s, shape, 0) {
        Ok((v, rest)) => if rest.len() == 0 { Ok(v) } else { Err(Error::TrailingData) },
        Err(e) => Err(e),
    }
}

proof fn lemma_field_index(fields: Seq<Field>, k: Seq<u8>, j: int)
    requires
        0 <= j <= fields.len(),
        forall|i: int| 0 <= i < j ==> (#[trigger] fields[i]).name@ != k,
        j == fields.len() || fields[j].name@ == k,
    ensures
        field_index(fields, k) == if j == fields.len() { -1 } else { j },
    decreases j,
{
    if j > 0 {
        let t = fields.drop_first();
        assert forall|i: int| 0 <= i < j - 1 implies (#[trigger] t[i]).name@ != k by {
            assert(t[i] == fields[i + 1]);
        }
        lemma_field_index(t, k, j - 1);
    }
}

/// A value of `shape` at `pos`, nested `depth` levels deep.
fn de_value_at<'de>(b: &'de [u8], pos: usize, shape: &Shape, depth: usize) -> (r: Result<(Typed<'de>, usize), Error>)
    requires
        pos <= b@.len(),
        depth <= MAX_DEPTH,
    ensures
        match r {
            Ok((t, p)) => pos < p <= b@.len() && de_value(suffix(b@, pos as int), *shape, depth as nat)
                == Ok::<_, Error>((t.shaped(), suffix(b@, p as int))),
            Err(e) => de_value(suffix(b@, pos as int), *shape, depth as nat) is Err && same_error(
                de_value(suffix(b@, pos as int), *shape, depth as nat)->Err_0,
                e,
            ),
        },
    decreases b@.len() - pos, 0nat,
{
    let ghost s = suffix(b@, pos as int);
    match shape {
        Shape::Int { min, max } => {
            if pos == b.len() {
                return Err(Error::UnexpectedEof);
            }
            if b[pos] != INT_START {
                return Err(Error::SyntaxError);
            }
            assert(s.drop_first() =~= suffix(b@, pos + 1));
            match parse_int_at(b, pos + 1) {
                Ok((n, p)) => if *min <= n && n <= *max {
                    Ok((Typed::Int(n), p))
                } else {
                    Err(Error::Overflow)
                },
                Err(e) => Err(e),
            }
        },
        Shape::Bytes => match parse_string_at(b, pos) {
            Ok((x, y)) => Ok((Typed::Bytes(slice_subrange(b, x, y)), y)),
            Err(e) => Err(e),
        },
        Shape::List(elem) => {
            if pos == b.len() {
                return Err(Error::UnexpectedEof);
            }
            if b[pos] != LIST_START {
                return Err(Error::SyntaxError);
            }
            if depth >= MAX_DEPTH {
                return Err(Error::RecursionLimitExceeded);
            }
            assert(s.drop_first() =~= suffix(b@, pos + 1));
            match de_items_at(b, pos + 1, &**elem, depth + 1) {
                Ok((l, p)) => {
                    proof {
                        lemma_shaped_list(l);
                    }
                    Ok((Typed::List(l), p))
                },
                Err(e) => Err(e),
            }
        },
        Shape::Record(fields) => {
            if pos == b.len() {
                return Err(Error::UnexpectedEof);
            }
            if b[pos] != DICT_START {
                return Err(Error::SyntaxError);
            }
            if depth >= MAX_DEPTH {
                return Err(Error::RecursionLimitExceeded);
            }
            assert(s.drop_first() =~= suffix(b@, pos + 1));
            match de_fields_at(b, pos + 1, fields, depth + 1) {
                Ok((r, p)) => {
                    proof {
                        lemma_shaped_record(r);
                    }
                    Ok((Typed::Record(r), p))
                },
                Err(e) => Err(e),
            }
        },
    }
}

/// The elements of a list of `elem` from `pos`, just after its `l`.
fn de_items_at<'de>(b: &'de [u8], pos: usize, elem: &Shape, depth: usize) -> (r: Result<(Vec<Typed<'de>>, usize), Error>)
    requires
        pos <= b@.len(),
        depth <= MAX_DEPTH,
    ensures
        match r {
            Ok((l, p)) => pos < p <= b@.len() && de_items(suffix(b@, pos as int), *elem, depth as nat, seq![])
                == Ok::<_, Error>((shaped_list(l@), suffix(b@, p as int))),
            Err(e) => de_items(suffix(b@, pos as int), *elem, depth as nat, seq![]) is Err && same_error(
                de_items(suffix(b@, pos as int), *elem, depth as nat, seq![])->Err_0,
                e,
            ),
        },
    decreases b@.len() - pos, 1nat,
{
    let mut l: Vec<Typed<'de>> = Vec::new();
    let mut p: usize = pos;
    assert(shaped_list(l@) =~= seq![]);
    loop
        invariant
            pos <= p <= b@.len(),
            depth <= MAX_DEPTH,
            de_items(suffix(b@, p as int), *elem, depth as nat, shaped_list(l@))
                == de_items(suffix(b@, pos as int), *elem, depth as nat, seq![]),
        decreases b@.len() - p,
    {
        let ghost s = suffix(b@, p as int);
        if p == b.len() {
            return Err(Error::UnexpectedEof);
        }
        if b[p] == END {
            assert(s.drop_first() =~= suffix(b@, p + 1));
            return Ok((l, p + 1));
        }
        match de_value_at(b, p, elem, depth) {
            Err(e) => {
                return Err(e);
            },
            Ok((v, q)) => {
                let ghost before = shaped_list(l@);
                let ghost vt = v.shaped();
                l.push(v);
                assert(shaped_list(l@) =~= before.push(vt));
                p = q;
            },
        }
    }
}

/// The entries of a record of `fields` from `pos`, just after its `d`.
fn de_fields_at<'de>(b: &'de [u8], pos: usize, fields: &Vec<Field>, depth: usize) -> (r: Result<(Vec<Option<Typed<'de>>>, usize), Error>)
    requires
        pos <= b@.len(),
        depth <= MAX_DEPTH,
    ensures
        match r {
            Ok((slots, p)) => pos < p <= b@.len() && de_fields(
                suffix(b@, pos as int),
                fields@,
                depth as nat,
                empty_slots(fields@.len()),
            ) == Ok::<_, Error>((shaped_slots(slots@), suffix(b@, p as int))),
            Err(e) => de_fields(suffix(b@, pos as int), fields@, depth as nat, empty_slots(fields@.len())) is Err
                && same_error(
                de_fields(suffix(b@, pos as int), fields@, depth as nat, empty_slots(fields@.len()))->Err_0,
                e,
            ),
        },
    decreases b@.len() - pos, 1nat,
{
    let ghost start = de_fields(suffix(b@, pos as int), fields@, depth as nat, empty_slots(fields@.len()));
    let mut slots: Vec<Option<Typed<'de>>> = Vec::new();
    while slots.len() < fields.len()
        invariant
            slots@.len() <= fields@.len(),
            forall|i: int| 0 <= i < slots@.len() ==> (#[trigger] slots@[i]) is None,
        decreases fields@.len() - slots@.len(),
    {
        slots.push(None);
    }
    assert(shaped_slots(slots@) =~= empty_slots(fields@.len()));
    let mut p: usize = pos;
    loop
        invariant
            pos <= p <= b@.len(),
            depth <= MAX_DEPTH,
            slots@.len() == fields@.len(),
            start == de_fields(suffix(b@, pos as int), fields@, depth as nat, empty_slots(fields@.len())),
            de_fields(suffix(b@, p as int), fields@, depth as nat, shaped_slots(slots@)) == start,
        decreases b@.len() - p,
    {
        let ghost s = suffix(b@, p as int);
        let ghost acc = shaped_slots(slots@);
        if p == b.len() {
            return Err(Error::UnexpectedEof);
        }
        let c = b[p];
        if c == END {
            let mut m: usize = 0;
            while m < fields.len()
                invariant
                    m <= fields@.len(),
                    slots@.len() == fields@.len(),
                    acc == shaped_slots(slots@),
                    p < b@.len(),
                    b@[p as int] == END,
                    s == suffix(b@, p as int),
                    start == de_fields(suffix(b@, pos as int), fields@, depth as nat, empty_slots(fields@.len())),
                    de_fields(s, fields@, depth as nat, acc) == start,
                    first_missing(fields@, acc, 0) == first_missing(fields@, acc, m as int),
                decreases fields@.len() - m,
            {
                if fields[m].required && slots[m].is_none() {
                    return Err(Error::MissingField(slice_to_vec(fields[m].name.as_slice())));
                }
                m = m + 1;
            }
            assert(s.drop_first() =~= suffix(b@, p + 1));
            return Ok((slots, p + 1));
        }
        if !(ZERO <= c && c <= NINE) {
            return Err(Error::InvalidKey);
        }
        let (x, y) = match parse_string_at(b, p) {
            Ok(bounds) => bounds,
            Err(e) => {
                return Err(e);
            },
        };
        if !is_utf8(b, x, y) {
            return Err(Error::InvalidKey);
        }
        let key = slice_subrange(b, x, y);
        let mut j: usize = 0;
        while j < fields.len()
            invariant
                j <= fields@.len(),
                x <= y <= b@.len(),
                key@ == b@.subrange(x as int, y as int),
                forall|i: int| 0 <= i < j ==> (#[trigger] fields@[i]).name@ != key@,
            ensures
                j <= fields@.len(),
                forall|i: int| 0 <= i < j ==> (#[trigger] fields@[i]).name@ != key@,
                j == fields@.len() || fields@[j as int].name@ == key@,
            decreases fields@.len() - j,
        {
            if matches!(compare_keys(fields[j].name.as_slice(), key), Ordering::Equal) {
                break;
            }
            j = j + 1;
        }
        proof {
            lemma_field_index(fields@, key@, j as int);
        }
        if j < fields.len() {
            match de_value_at(b, y, &fields[j].shape, depth) {
                Err(e) => {
                    return Err(e);
                },
                Ok((v, q)) => {
                    let ghost vt = v.shaped();
                    slots.set(j, Some(v));
                    assert(shaped_slots(slots@) =~= acc.update(j as int, Some(vt)));
                    p = q;
                },
            }
        } else {
            match parse_value_at(b, y, depth) {
                Err(e) => {
                    return Err(e);
                },
                Ok((_, q)) => {
                    p = q;
                },
            }
        }
    }
}

/// A cursor over the unread input, with the number of lists and dictionaries
/// open at its position.
pub struct Deserializer<'de> {
    input: &'de [u8],
    pos: usize,
    depth: usize,
}

impl<'de> Deserializer<'de> {
    /// The input not read yet.
    pub closed spec fn rest(&self) -> Seq<u8> {
        suffix(self.input@, self.pos as int)
    }

    /// The number of lists and dictionaries opened and not closed.
    pub closed spec fn nesting(&self) -> nat {
        self.depth as nat
    }

    /// The cursor lies within the input and the nesting within the bound.
    pub closed spec fn wf(&self) -> bool {
        self.pos <= self.input@.len() && self.depth <= MAX_DEPTH
    }

    /// A cursor at the start of `input`.
    pub fn from_bytes(input: &'de [u8]) -> (r: Self)
        ensures
            r.wf(),
            r.rest() == input@,
            r.nesting() == 0,
    {
        let r = Deserializer { input, pos: 0, depth: 0 };
        assert(r.rest() =~= input@);
        r
    }

    /// Whether all of the input has been read.
    pub fn is_empty(&self) -> (r: bool)
        requires
            self.wf(),
        ensures
            r == (self.rest().len() == 0),
    {
        self.pos == self.input.len()
    }

    /// The next byte, left unread.
    pub fn peek_char(&self) -> (r: Result<u8, Error>)
        requires
            self.wf(),
        ensures
            r == if self.rest().len() == 0 {
                Err::<u8, Error>(Error::UnexpectedEof)
            } else {
                Ok(self.rest()[0])
            },
    {
        if self.pos < self.input.len() {
            Ok(self.input[self.pos])
        } else {
            Err(Error::UnexpectedEof)
        }
    }

    /// The next byte, read.
    pub fn next_char(&mut self) -> (r: Result<u8, Error>)
        requires
            old(self).wf(),
        ensures
            final(self).wf(),
            final(self).nesting() == old(self).nesting(),
            r == if old(self).rest().len() == 0 {
                Err::<u8, Error>(Error::UnexpectedEof)
            } else {
                Ok(old(self).rest()[0])
            },
            final(self).rest() == if old(self).rest().len() == 0 {
                old(self).rest()
            } else {
                old(self).rest().drop_first()
            },
    {
        if self.pos >= self.input.len() {
            return Err(Error::UnexpectedEof);
        }
        let c = self.input[self.pos];
        assert(suffix(self.input@, self.pos as int).drop_first() =~= suffix(self.input@, self.pos + 1));
        self.pos = self.pos + 1;
        Ok(c)
    }

    /// An integer `i<digits>e` in `min..=max`.
    pub fn parse_signed(&mut self, min: i64, max: i64) -> (r: Result<i64, Error>)
        requires
            old(self).wf(),
        ensures
            final(self).wf(),
            final(self).nesting() == old(self).nesting(),
            match de_int(old(self).rest(), min, max) {
                Ok((n, rest)) => r == Ok::<i64, Error>(n as i64) && final(self).rest() == rest,
                Err(e) => r == Err::<i64, Error>(e),
            },
    {
        let ghost s = self.rest();
        if self.pos == self.input.len() {
            return Err(Error::UnexpectedEof);
        }
        if self.input[self.pos] != INT_START {
            return Err(Error::SyntaxError);
        }
        assert(s.drop_first() =~= suffix(self.input@, self.pos + 1));
        let (n, p) = parse_int_at(self.input, self.pos + 1)?;
        if n < min || n > max {
            return Err(Error::Overflow);
        }
        self.pos = p;
        Ok(n)
    }

    /// A byte string `<len>:<bytes>`, borrowed from the input.
    pub fn parse_bytes(&mut self) -> (r: Result<&'de [u8], Error>)
        requires
            old(self).wf(),
        ensures
            final(self).wf(),
            final(self).nesting() == old(self).nesting(),
            match parse_string(old(self).rest()) {
                Ok((b, rest)) => r is Ok && r->Ok_0@ == b && final(self).rest() == rest,
                Err(e) => r == Err::<&[u8], Error>(e),
            },
    {
        let (x, y) = parse_string_at(self.input, self.pos)?;
        self.pos = y;
        Ok(slice_subrange(self.input, x, y))
    }

    /// A dictionary key: a byte string holding UTF-8 text.
    pub fn parse_key(&mut self) -> (r: Result<&'de [u8], Error>)
        requires
            old(self).wf(),
        ensures
            final(self).wf(),
            final(self).nesting() == old(self).nesting(),
            match de_key(old(self).rest()) {
                Ok((k, rest)) => r is Ok && r->Ok_0@ == k && final(self).rest() == rest,
                Err(e) => r == Err::<&[u8], Error>(e),
            },
    {
        if self.pos == self.input.len() {
            return Err(Error::UnexpectedEof);
        }
        let c = self.input[self.pos];
        if !(ZERO <= c && c <= NINE) {
            return Err(Error::InvalidKey);
        }
        let (x, y) = parse_string_at(self.input, self.pos)?;
        if !is_utf8(self.input, x, y) {
            return Err(Error::InvalidKey);
        }
        self.pos = y;
        Ok(slice_subrange(self.input, x, y))
    }

    fn open(&mut self, marker: u8) -> (r: Result<(), Error>)
        requires
            old(self).wf(),
        ensures
            final(self).wf(),
            match de_open(old(self).rest(), marker, old(self).nesting()) {
                Ok(t) => r is Ok && final(self).rest() == t && final(self).nesting() == old(self).nesting() + 1,
                Err(e) => r == Err::<(), Error>(e) && final(self).nesting() == old(self).nesting(),
            },
    {
        if self.pos == self.input.len() {
            return Err(Error::UnexpectedEof);
        }
        if self.input[self.pos] != marker {
            return Err(Error::SyntaxError);
        }
        if self.depth >= MAX_DEPTH {
            return Err(Error::RecursionLimitExceeded);
        }
        assert(suffix(self.input@, self.pos as int).drop_first() =~= suffix(self.input@, self.pos + 1));
        self.pos = self.pos + 1;
        self.depth = self.depth + 1;
        Ok(())
    }

    /// Reads the `l` that opens a list.
    pub fn begin_list(&mut self) -> (r: Result<(), Error>)
        requires
            old(self).wf(),
        ensures
            final(self).wf(),
            match de_open(old(self).rest(), LIST_START, old(self).nesting()) {
                Ok(t) => r is Ok && final(self).rest() == t && final(self).nesting() == old(self).nesting() + 1,
                Err(e) => r == Err::<(), Error>(e) && final(self).nesting() == old(self).nesting(),
            },
    {
        self.open(LIST_START)
    }

    /// Reads the `d` that opens a dictionary.
    pub fn begin_dict(&mut self) -> (r: Result<(), Error>)
        requires
            old(self).wf(),
        ensures
            final(self).wf(),
            match de_open(old(self).rest(), DICT_START, old(self).nesting()) {
                Ok(t) => r is Ok && final(self).rest() == t && final(self).nesting() == old(self).nesting() + 1,
                Err(e) => r == Err::<(), Error>(e) && final(self).nesting() == old(self).nesting(),
            },
    {
        self.open(DICT_START)
    }

    /// Whether another element or entry follows, by a look at the next byte:
    /// the terminator `e` is left unread.
    pub fn has_next(&self) -> (r: Result<bool, Error>)
        requires
            self.wf(),
        ensures
            r == if self.rest().len() == 0 {
                Err::<bool, Error>(Error::UnexpectedEof)
            } else {
                Ok(self.rest()[0] != END)
            },
    {
        let c = self.peek_char()?;
        Ok(c != END)
    }

    /// Reads the `e` that closes the innermost open list or dictionary.
    pub fn end_container(&mut self) -> (r: Result<(), Error>)
        requires
            old(self).wf(),
            old(self).nesting() > 0,
        ensures
            final(self).wf(),
            old(self).rest().len() == 0 ==> r == Err::<(), Error>(Error::UnexpectedEof),
            old(self).rest().len() > 0 && old(self).rest()[0] != END ==> r == Err::<(), Error>(Error::ExpectedEnd),
            old(self).rest().len() > 0 && old(self).rest()[0] == END ==> r is Ok && final(self).rest()
                == old(self).rest().drop_first() && final(self).nesting() == old(self).nesting() - 1,
    {
        let c = self.next_char()?;
        if c != END {
            return Err(Error::ExpectedEnd);
        }
        self.depth = self.depth - 1;
        Ok(())
    }

    /// Reads one value of any kind and drops it.
    pub fn skip_value(&mut self) -> (r: Result<(), Error>)
        requires
            old(self).wf(),
        ensures
            final(self).wf(),
            final(self).nesting() == old(self).nesting(),
            match parse_value(old(self).rest(), old(self).nesting()) {
                Ok((_, rest)) => r is Ok && final(self).rest() == rest,
                Err(e) => r == Err::<(), Error>(e),
            },
    {
        let (_, p) = parse_value_at(self.input, self.pos, self.depth)?;
        self.pos = p;
        Ok(())
    }

    /// Reads one value of `shape`.
    pub fn deserialize(&mut self, shape: &Shape) -> (r: Result<Typed<'de>, Error>)
        requires
            old(self).wf(),
        ensures
            final(self).wf(),
            final(self).nesting() == old(self).nesting(),
            match de_value(old(self).rest(), *shape, old(self).nesting()) {
                Ok((v, rest)) => r is Ok && r->Ok_0.shaped() == v && final(self).rest() == rest,
                Err(e) => r is Err && same_error(e, r->Err_0),
            },
    {
        let (t, p) = de_value_at(self.input, self.pos, shape, self.depth)?;
        self.pos = p;
        Ok(t)
    }

    /// Succeeds where all of the input has been read.
    pub fn finish(&self) -> (r: Result<(), Error>)
        requires
            self.wf(),
        ensures
            r == if self.rest().len() == 0 {
                Ok::<(), Error>(())
            } else {
                Err(Error::TrailingData)
            },
    {
        if self.pos == self.input.len() {
            Ok(())
        } else {
            Err(Error::TrailingData)
        }
    }
}

/// Reads all of `input` as one value of `shape`.
pub fn from_bytes<'de>(input: &'de [u8], shape: &Shape) -> (r: Result<Typed<'de>, Error>)
    ensures
        match de_document(input@, *shape) {
            Ok(v) => r is Ok && r->Ok_0.shaped() == v,
            Err(e) => r is Err && same_error(e, r->Err_0),
        },
{
    let mut de = Deserializer::from_bytes(input);
    let t = de.deserialize(shape)?;
    de.finish()?;
    Ok(t)
}

} // verus!
