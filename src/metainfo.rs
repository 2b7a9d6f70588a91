//! Torrent metainfo read from a decoded document, and the info-hash: the SHA-1
//! digest of the canonical encoding of the `info` dictionary, in lower-case hex.
use vstd::prelude::*;
use vstd::slice::slice_to_vec;
use vstd::string::StringSliceAdditionalSpecFns;
use core::cmp::Ordering;
use crate::decode::decode;
use crate::encode::{encode, encode_term};
use crate::error::Error;
use crate::grammar::decode_spec;
use crate::model::{Term, lookup};
use crate::value::{Value, compare_keys, lemma_term_dict, lemma_term_list};

verus! {

/// The SHA-1 digest of `b`.
pub uninterp spec fn sha1_of(b: Seq<u8>) -> Seq<u8>;

/// Relies on sha1's `Sha1::digest`: the 20-byte SHA-1 digest of the input.
#[verifier::external_body]
fn sha1_digest(b: &[u8]) -> (r: Vec<u8>)
    ensures
        r@ == sha1_of(b@),
        r@.len() == 20,
{
    <sha1::Sha1 as sha1::Digest>::digest(b).to_vec()
}

/// The lower-case hex digit for `n` below 16.
pub open spec fn hex_digit(n: u8) -> char {
    if n < 10 {
        (('0' as u8) + n) as char
    } else {
        (('a' as u8) + (n - 10)) as char
    }
}

/// Two lower-case hex digits for each byte of `b`, high nibble first.
pub open spec fn lower_hex(b: Seq<u8>) -> Seq<char> {
    Seq::new(2 * b.len(), |i: int| if i % 2 == 0 { hex_digit(b[i / 2] / 16) } else { hex_digit(b[i / 2] % 16) })
}

/// Relies on base16ct's `lower::encode_string`: two lower-case hex digits per
/// byte, high nibble first; it panics above `usize::MAX / 2` bytes.
#[verifier::external_body]
fn hex_lower(b: &[u8]) -> (r: String)
    requires
        b@.len() <= usize::MAX / 2,
    ensures
        r@ == lower_hex(b@),
{
    base16ct::lower::encode_string(b)
}

/// The value under `k` where `t` is a dictionary.
pub open spec fn field(t: Term, k: Seq<u8>) -> Option<Term> {
    match t {
        Term::Dict(d) => lookup(d, k),
        _ => None,
    }
}

/// The byte string under `k`; a value of another kind counts as absent.
pub open spec fn bytes_field(t: Term, k: Seq<u8>) -> Option<Seq<u8>> {
    match field(t, k) {
        Some(Term::Bytes(b)) => Some(b),
        _ => None,
    }
}

/// The integer under `k`; a value of another kind counts as absent.
pub open spec fn int_field(t: Term, k: Seq<u8>) -> Option<int> {
    match field(t, k) {
        Some(Term::Int(n)) => Some(n),
        _ => None,
    }
}

/// `t` as a list of byte strings.
pub open spec fn as_bytes_list(t: Term) -> Option<Seq<Seq<u8>>> {
    match t {
        Term::List(l) => if forall|i: int| 0 <= i < l.len() ==> (#[trigger] l[i]) is Bytes {
            Some(Seq::new(l.len(), |i: int| l[i]->Bytes_0))
        } else {
            None
        },
        _ => None,
    }
}

/// `t` as a list of lists of byte strings.
pub open spec fn as_tiers(t: Term) -> Option<Seq<Seq<Seq<u8>>>> {
    match t {
        Term::List(l) => if forall|i: int| 0 <= i < l.len() ==> as_bytes_list(#[trigger] l[i]) is Some {
            Some(Seq::new(l.len(), |i: int| as_bytes_list(l[i])->Some_0))
        } else {
            None
        },
        _ => None,
    }
}

/// What an optional byte string holds.
pub open spec fn opt_bytes(o: Option<Vec<u8>>) -> Option<Seq<u8>> {
    match o {
        Some(v) => Some(v@),
        None => None,
    }
}

/// What a list of byte strings holds.
pub open spec fn bytes_seqs(l: Seq<Vec<u8>>) -> Seq<Seq<u8>> {
    Seq::new(l.len(), |i: int| l[i]@)
}

/// What a list of lists of byte strings holds.
pub open spec fn tier_seqs(l: Seq<Vec<Vec<u8>>>) -> Seq<Seq<Seq<u8>>> {
    Seq::new(l.len(), |i: int| bytes_seqs(l[i]@))
}

/// What an optional list of tiers holds.
pub open spec fn opt_tiers(o: Option<Vec<Vec<Vec<u8>>>>) -> Option<Seq<Seq<Seq<u8>>>> {
    match o {
        Some(v) => Some(tier_seqs(v@)),
        None => None,
    }
}

impl Value {
    /// The value under `key` in this dictionary; `None` for another kind of value.
    pub fn get(&self, key: &[u8]) -> (r: Option<&Value>)
        ensures
            match field(self.term(), key@) {
                Some(t) => r is Some && r->Some_0.term() == t,
                None => r is None,
            },
    {
        match self {
            Value::DictValue(d) => {
                proof {
                    lemma_term_dict(*d);
                }
                let ghost es = self.term()->Dict_0;
                let mut i: usize = 0;
                assert(es.skip(0) =~= es);
                while i < d.len()
                    invariant
                        i <= d@.len(),
                        self.term() == Term::Dict(es),
                        es.len() == d@.len(),
                        forall|j: int| 0 <= j < d@.len() ==> es[j] == ((#[trigger] d@[j]).0@, d@[j].1.term()),
                        lookup(es, key@) == lookup(es.skip(i as int), key@),
                    decreases d@.len() - i,
                {
                    assert(es.skip(i as int).drop_first() =~= es.skip(i + 1));
                    if matches!(compare_keys(d[i].0.as_slice(), key), Ordering::Equal) {
                        return Some(&d[i].1);
                    }
                    i = i + 1;
                }
                None
            },
            _ => None,
        }
    }

    /// A copy of the byte string under `key`.
    pub fn get_bytes(&self, key: &[u8]) -> (r: Option<Vec<u8>>)
        ensures
            opt_bytes(r) == bytes_field(self.term(), key@),
    {
        match self.get(key) {
            Some(Value::BytesValue(b)) => Some(slice_to_vec(b.as_slice())),
            _ => None,
        }
    }

    /// The integer under `key`.
    pub fn get_int(&self, key: &[u8]) -> (r: Option<i64>)
        ensures
            opt_int(r) == int_field(self.term(), key@),
    {
        match self.get(key) {
            Some(Value::IntValue(n)) => Some(*n),
            _ => None,
        }
    }

    /// A copy of this list of byte strings.
    pub fn to_bytes_list(&self) -> (r: Option<Vec<Vec<u8>>>)
        ensures
            match as_bytes_list(self.term()) {
                Some(s) => r is Some && bytes_seqs(r->Some_0@) == s,
                None => r is None,
            },
    {
        match self {
            Value::ListValue(l) => {
                proof {
                    lemma_term_list(*l);
                }
                let ghost ts = self.term()->List_0;
                let mut out: Vec<Vec<u8>> = Vec::new();
                let mut i: usize = 0;
                while i < l.len()
                    invariant
                        i <= l@.len(),
                        self.term() == Term::List(ts),
                        ts.len() == l@.len(),
                        forall|j: int| 0 <= j < l@.len() ==> ts[j] == (#[trigger] l@[j]).term(),
                        out@.len() == i,
                        forall|j: int| 0 <= j < i ==> (#[trigger] ts[j]) is Bytes && out@[j]@ == ts[j]->Bytes_0,
                    decreases l@.len() - i,
                {
                    match &l[i] {
                        Value::BytesValue(b) => {
                            out.push(slice_to_vec(b.as_slice()));
                        },
                        _ => {
                            assert(!(ts[i as int] is Bytes));
                            return None;
                        },
                    }
                    i = i + 1;
                }
                assert(bytes_seqs(out@) =~= Seq::new(ts.len(), |j: int| ts[j]->Bytes_0));
                Some(out)
            },
            _ => None,
        }
    }

    /// A copy of this list of lists of byte strings.
    pub fn to_tiers(&self) -> (r: Option<Vec<Vec<Vec<u8>>>>)
        ensures
            opt_tiers(r) == as_tiers(self.term()),
    {
        match self {
            Value::ListValue(l) => {
                proof {
                    lemma_term_list(*l);
                }
                let ghost ts = self.term()->List_0;
                let mut out: Vec<Vec<Vec<u8>>> = Vec::new();
                let mut i: usize = 0;
                while i < l.len()
                    invariant
                        i <= l@.len(),
                        self.term() == Term::List(ts),
                        ts.len() == l@.len(),
                        forall|j: int| 0 <= j < l@.len() ==> ts[j] == (#[trigger] l@[j]).term(),
                        out@.len() == i,
                        forall|j: int| 0 <= j < i ==> as_bytes_list(#[trigger] ts[j]) is Some
                            && bytes_seqs(out@[j]@) == as_bytes_list(ts[j])->Some_0,
                    decreases l@.len() - i,
                {
                    match l[i].to_bytes_list() {
                        Some(tier) => {
                            out.push(tier);
                        },
                        None => {
                            return None;
                        },
                    }
                    i = i + 1;
                }
                assert(tier_seqs(out@) =~= Seq::new(ts.len(), |j: int| as_bytes_list(ts[j])->Some_0));
                Some(out)
            },
            _ => None,
        }
    }
}

/// The info-hash: the SHA-1 digest of the canonical encoding of `info`, in
/// lower-case hex.
pub fn info_hash(info: &Value) -> (r: String)
    ensures
        r@ == lower_hex(sha1_of(encode_term(info.term()))),
{
    let bytes = encode(info);
    let digest = sha1_digest(bytes.as_slice());
    hex_lower(digest.as_slice())
}

/// A node of the distributed hash table: host and port.
pub struct Node(pub Vec<u8>, pub i64);

/// One file of a multi-file torrent.
pub struct File {
    pub path: Vec<Vec<u8>>,
    pub length: i64,
    pub md5sum: Option<Vec<u8>>,
}

/// The `info` dictionary of a torrent.
pub struct Info {
    pub pieces: Vec<u8>,
    pub piece_length: i64,
    pub private: Option<i64>,
    /// Empty where the dictionary has no name.
    pub name: Vec<u8>,
    pub length: Option<i64>,
    pub md5sum: Option<Vec<u8>>,
    pub files: Option<Vec<File>>,
    /// The info-hash, in lower-case hex.
    pub root_hash: Option<String>,
}

/// Torrent metainfo.
pub struct Torrent {
    pub info: Info,
    pub announce: Option<Vec<u8>>,
    pub nodes: Option<Vec<Node>>,
    pub encoding: Option<Vec<u8>>,
    pub announce_list: Option<Vec<Vec<Vec<u8>>>>,
    pub creation_date: Option<i64>,
    pub comment: Option<Vec<u8>>,
    pub created_by: Option<Vec<u8>>,
}

/// What an optional integer holds.
pub open spec fn opt_int(o: Option<i64>) -> Option<int> {
    match o {
        Some(n) => Some(n as int),
        None => None,
    }
}

/// `t` as a file: a dictionary with a path (a list of byte strings) and a
/// length, and perhaps an md5sum.
pub open spec fn as_file(t: Term) -> Option<(Seq<Seq<u8>>, int, Option<Seq<u8>>)> {
    match field(t, "path".spec_bytes()) {
        Some(p) => if as_bytes_list(p) is Some && int_field(t, "length".spec_bytes()) is Some {
            Some((
                as_bytes_list(p)->Some_0,
                int_field(t, "length".spec_bytes())->Some_0,
                bytes_field(t, "md5sum".spec_bytes()),
            ))
        } else {
            None
        },
        None => None,
    }
}

/// `t` as a list of files.
pub open spec fn as_files(t: Term) -> Option<Seq<(Seq<Seq<u8>>, int, Option<Seq<u8>>)>> {
    match t {
        Term::List(l) => if forall|i: int| 0 <= i < l.len() ==> as_file(#[trigger] l[i]) is Some {
            Some(Seq::new(l.len(), |i: int| as_file(l[i])->Some_0))
        } else {
            None
        },
        _ => None,
    }
}

/// `t` as a node: a list of a host and a port.
pub open spec fn as_node(t: Term) -> Option<(Seq<u8>, int)> {
    match t {
        Term::List(l) => if l.len() == 2 && l[0] is Bytes && l[1] is Int {
            Some((l[0]->Bytes_0, l[1]->Int_0))
        } else {
            None
        },
        _ => None,
    }
}

/// `t` as a list of nodes.
pub open spec fn as_nodes(t: Term) -> Option<Seq<(Seq<u8>, int)>> {
    match t {
        Term::List(l) => if forall|i: int| 0 <= i < l.len() ==> as_node(#[trigger] l[i]) is Some {
            Some(Seq::new(l.len(), |i: int| as_node(l[i])->Some_0))
        } else {
            None
        },
        _ => None,
    }
}

/// What a file holds: its path, length and md5sum.
pub open spec fn file_view(f: File) -> (Seq<Seq<u8>>, int, Option<Seq<u8>>) {
    (bytes_seqs(f.path@), f.length as int, opt_bytes(f.md5sum))
}

/// What an optional list of files holds.
pub open spec fn opt_files(o: Option<Vec<File>>) -> Option<Seq<(Seq<Seq<u8>>, int, Option<Seq<u8>>)>> {
    match o {
        Some(v) => Some(Seq::new(v@.len(), |i: int| file_view(v@[i]))),
        None => None,
    }
}

/// What an optional list of nodes holds.
pub open spec fn opt_nodes(o: Option<Vec<Node>>) -> Option<Seq<(Seq<u8>, int)>> {
    match o {
        Some(v) => Some(Seq::new(v@.len(), |i: int| (v@[i].0@, v@[i].1 as int))),
        None => None,
    }
}

/// The value under `k`, read by `as_files`; absent where it is not a list of files.
pub open spec fn files_field(t: Term, k: Seq<u8>) -> Option<Seq<(Seq<Seq<u8>>, int, Option<Seq<u8>>)>> {
    match field(t, k) {
        Some(x) => as_files(x),
        None => None,
    }
}

/// The value under `k`, read by `as_nodes`.
pub open spec fn nodes_field(t: Term, k: Seq<u8>) -> Option<Seq<(Seq<u8>, int)>> {
    match field(t, k) {
        Some(x) => as_nodes(x),
        None => None,
    }
}

/// The value under `k`, read by `as_tiers`.
pub open spec fn tiers_field(t: Term, k: Seq<u8>) -> Option<Seq<Seq<Seq<u8>>>> {
    match field(t, k) {
        Some(x) => as_tiers(x),
        None => None,
    }
}

/// The first required field that a metainfo document `root` lacks.
pub open spec fn missing_field(root: Term) -> Option<Seq<u8>> {
    let info = field(root, "info".spec_bytes());
    if !(info is Some && info->Some_0 is Dict) {
        Some("info".spec_bytes())
    } else if int_field(info->Some_0, "piece length".spec_bytes()) is None {
        Some("piece length".spec_bytes())
    } else if bytes_field(info->Some_0, "pieces".spec_bytes()) is None {
        Some("pieces".spec_bytes())
    } else {
        None
    }
}

/// `i` holds what the info dictionary `t` holds, and its info-hash.
pub open spec fn info_matches(i: Info, t: Term) -> bool {
    &&& i.pieces@ == bytes_field(t, "pieces".spec_bytes())->Some_0
    &&& i.piece_length as int == int_field(t, "piece length".spec_bytes())->Some_0
    &&& opt_int(i.private) == int_field(t, "private".spec_bytes())
    &&& i.name@ == match bytes_field(t, "name".spec_bytes()) {
        Some(b) => b,
        None => Seq::empty(),
    }
    &&& opt_int(i.length) == int_field(t, "length".spec_bytes())
    &&& opt_bytes(i.md5sum) == bytes_field(t, "md5sum".spec_bytes())
    &&& opt_files(i.files) == files_field(t, "files".spec_bytes())
    &&& i.root_hash is Some && i.root_hash->Some_0@ == lower_hex(sha1_of(encode_term(t)))
}

/// `tr` holds what the metainfo document `root` holds.
pub open spec fn torrent_matches(tr: Torrent, root: Term) -> bool {
    &&& info_matches(tr.info, field(root, "info".spec_bytes())->Some_0)
    &&& opt_bytes(tr.announce) == bytes_field(root, "announce".spec_bytes())
    &&& opt_nodes(tr.nodes) == nodes_field(root, "nodes".spec_bytes())
    &&& opt_bytes(tr.encoding) == bytes_field(root, "encoding".spec_bytes())
    &&& opt_tiers(tr.announce_list) == tiers_field(root, "announce-list".spec_bytes())
    &&& opt_int(tr.creation_date) == int_field(root, "creation date".spec_bytes())
    &&& opt_bytes(tr.comment) == bytes_field(root, "comment".spec_bytes())
    &&& opt_bytes(tr.created_by) == bytes_field(root, "created by".spec_bytes())
}

/// The first URL of the first tier.
pub open spec fn first_url(tiers: Seq<Seq<Seq<u8>>>) -> Option<Seq<u8>> {
    if tiers.len() > 0 && tiers[0].len() > 0 {
        Some(tiers[0][0])
    } else {
        None
    }
}

impl Value {
    /// This dictionary read as a file.
    pub fn to_file(&self) -> (r: Option<File>)
        ensures
            match as_file(self.term()) {
                Some(f) => r is Some && file_view(r->Some_0) == f,
                None => r is None,
            },
    {
        let path = match self.get("path".as_bytes()) {
            Some(p) => p.to_bytes_list(),
            None => None,
        };
        let length = self.get_int("length".as_bytes());
        match (path, length) {
            (Some(path), Some(length)) => Some(File { path, length, md5sum: self.get_bytes("md5sum".as_bytes()) }),
            _ => None,
        }
    }

    /// This list read as files.
    pub fn to_files(&self) -> (r: Option<Vec<File>>)
        ensures
            opt_files(r) == as_files(self.term()),
    {
        match self {
            Value::ListValue(l) => {
                proof {
                    lemma_term_list(*l);
                }
                let ghost ts = self.term()->List_0;
                let mut out: Vec<File> = Vec::new();
                let mut i: usize = 0;
                while i < l.len()
                    invariant
                        i <= l@.len(),
                        self.term() == Term::List(ts),
                        ts.len() == l@.len(),
                        forall|j: int| 0 <= j < l@.len() ==> ts[j] == (#[trigger] l@[j]).term(),
                        out@.len() == i,
                        forall|j: int| 0 <= j < i ==> as_file(#[trigger] ts[j]) is Some
                            && file_view(out@[j]) == as_file(ts[j])->Some_0,
                    decreases l@.len() - i,
                {
                    match l[i].to_file() {
                        Some(f) => {
                            out.push(f);
                        },
                        None => {
                            return None;
                        },
                    }
                    i = i + 1;
                }
                assert(Seq::new(out@.len(), |j: int| file_view(out@[j])) =~= Seq::new(
                    ts.len(),
                    |j: int| as_file(ts[j])->Some_0,
                ));
                Some(out)
            },
            _ => None,
        }
    }

    /// This list read as a node.
    pub fn to_node(&self) -> (r: Option<Node>)
        ensures
            match as_node(self.term()) {
                Some(n) => r is Some && r->Some_0.0@ == n.0 && r->Some_0.1 as int == n.1,
                None => r is None,
            },
    {
        match self {
            Value::ListValue(l) => {
                proof {
                    lemma_term_list(*l);
                }
                if l.len() != 2 {
                    return None;
                }
                match (&l[0], &l[1]) {
                    (Value::BytesValue(host), Value::IntValue(port)) => Some(Node(slice_to_vec(host.as_slice()), *port)),
                    _ => None,
                }
            },
            _ => None,
        }
    }

    /// This list read as nodes.
    pub fn to_nodes(&self) -> (r: Option<Vec<Node>>)
        ensures
            opt_nodes(r) == as_nodes(self.term()),
    {
        match self {
            Value::ListValue(l) => {
                proof {
                    lemma_term_list(*l);
                }
                let ghost ts = self.term()->List_0;
                let mut out: Vec<Node> = Vec::new();
                let mut i: usize = 0;
                while i < l.len()
                    invariant
                        i <= l@.len(),
                        self.term() == Term::List(ts),
                        ts.len() == l@.len(),
                        forall|j: int| 0 <= j < l@.len() ==> ts[j] == (#[trigger] l@[j]).term(),
                        out@.len() == i,
                        forall|j: int| 0 <= j < i ==> as_node(#[trigger] ts[j]) is Some
                            && (out@[j].0@, out@[j].1 as int) == as_node(ts[j])->Some_0,
                    decreases l@.len() - i,
                {
                    match l[i].to_node() {
                        Some(n) => {
                            out.push(n);
                        },
                        None => {
                            return None;
                        },
                    }
                    i = i + 1;
                }
                assert(Seq::new(out@.len(), |j: int| (out@[j].0@, out@[j].1 as int)) =~= Seq::new(
                    ts.len(),
                    |j: int| as_node(ts[j])->Some_0,
                ));
                Some(out)
            },
            _ => None,
        }
    }
}

/// Reads the info dictionary `info`; a missing `piece length` or `pieces` is `MissingField`.
fn read_info(info: &Value) -> (r: Result<Info, Error>)
    requires
        info.term() is Dict,
    ensures
        int_field(info.term(), "piece length".spec_bytes()) is None ==> r is Err && r->Err_0 is MissingField
            && r->Err_0->MissingField_0@ == "piece length".spec_bytes(),
        int_field(info.term(), "piece length".spec_bytes()) is Some && bytes_field(info.term(), "pieces".spec_bytes()) is None
            ==> r is Err && r->Err_0 is MissingField && r->Err_0->MissingField_0@ == "pieces".spec_bytes(),
        int_field(info.term(), "piece length".spec_bytes()) is Some && bytes_field(info.term(), "pieces".spec_bytes()) is Some
            ==> r is Ok && info_matches(r->Ok_0, info.term()),
{
    let piece_length = match info.get_int("piece length".as_bytes()) {
        Some(n) => n,
        None => {
            return Err(Error::MissingField(slice_to_vec("piece length".as_bytes())));
        },
    };
    let pieces = match info.get_bytes("pieces".as_bytes()) {
        Some(b) => b,
        None => {
            return Err(Error::MissingField(slice_to_vec("pieces".as_bytes())));
        },
    };
    let name = match info.get_bytes("name".as_bytes()) {
        Some(b) => b,
        None => Vec::new(),
    };
    let files = match info.get("files".as_bytes()) {
        Some(f) => f.to_files(),
        None => None,
    };
    Ok(Info {
        pieces,
        piece_length,
        private: info.get_int("private".as_bytes()),
        name,
        length: info.get_int("length".as_bytes()),
        md5sum: info.get_bytes("md5sum".as_bytes()),
        files,
        root_hash: Some(info_hash(info)),
    })
}

/// Decodes a metainfo document and reads the torrent from it; the info-hash
/// is taken over the `info` dictionary as the document holds it.
pub fn decode_torrent(metainfo: &[u8]) -> (r: Result<Torrent, Error>)
    ensures
        match decode_spec(metainfo@) {
            Err(e) => r == Err::<Torrent, Error>(e),
            Ok(root) => match missing_field(root) {
                Some(n) => r is Err && r->Err_0 is MissingField && r->Err_0->MissingField_0@ == n,
                None => r is Ok && torrent_matches(r->Ok_0, root),
            },
        },
{
    let root = decode(metainfo)?;
    let info_value = match root.get("info".as_bytes()) {
        Some(v) => v,
        None => {
            return Err(Error::MissingField(slice_to_vec("info".as_bytes())));
        },
    };
    if !matches!(info_value, Value::DictValue(_)) {
        return Err(Error::MissingField(slice_to_vec("info".as_bytes())));
    }
    let info = read_info(info_value)?;
    let announce_list = match root.get("announce-list".as_bytes()) {
        Some(v) => v.to_tiers(),
        None => None,
    };
    let nodes = match root.get("nodes".as_bytes()) {
        Some(v) => v.to_nodes(),
        None => None,
    };
    Ok(Torrent {
        info,
        announce: root.get_bytes("announce".as_bytes()),
        nodes,
        encoding: root.get_bytes("encoding".as_bytes()),
        announce_list,
        creation_date: root.get_int("creation date".as_bytes()),
        comment: root.get_bytes("comment".as_bytes()),
        created_by: root.get_bytes("created by".as_bytes()),
    })
}

/// The first URL of the first tier of `urls`.
pub fn announce_list_first(urls: &Vec<Vec<Vec<u8>>>) -> (r: Option<Vec<u8>>)
    ensures
        opt_bytes(r) == first_url(tier_seqs(urls@)),
{
    if urls.len() > 0 && urls[0].len() > 0 {
        Some(slice_to_vec(urls[0][0].as_slice()))
    } else {
        None
    }
}

impl Torrent {
    /// The tracker to announce to: `announce` where present, else the first URL
    /// of the first tier of `announce-list`.
    pub fn announce(&self) -> (r: Option<Vec<u8>>)
        ensures
            opt_bytes(r) == match opt_bytes(self.announce) {
                Some(a) => Some(a),
                None => match opt_tiers(self.announce_list) {
                    Some(tiers) => first_url(tiers),
                    None => None,
                },
            },
    {
        match &self.announce {
            Some(url) => Some(slice_to_vec(url.as_slice())),
            None => match &self.announce_list {
                Some(urls) => announce_list_first(urls),
                None => None,
            },
        }
    }
}

} // verus!
