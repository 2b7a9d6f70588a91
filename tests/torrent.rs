use bencode::{Error, Value, announce_list_first, decode, decode_torrent, info_hash};

fn metainfo() -> Vec<u8> {
    let mut m = Vec::new();
    m.extend_from_slice(b"d8:announce20:http://tracker/a/b/c13:announce-listll5:url-1el5:url-2ee");
    m.extend_from_slice(b"13:creation datei1577836800e4:info");
    m.extend_from_slice(b"d6:lengthi5e4:name4:test12:piece lengthi16384e6:pieces20:");
    m.extend_from_slice(&[b'a'; 20]);
    m.extend_from_slice(b"e5:nodesll4:hosti6881eeee");
    m
}

#[test]
fn reads_a_torrent() {
    let t = decode_torrent(&metainfo()).unwrap();
    assert_eq!(t.announce, Some(b"http://tracker/a/b/c".to_vec()));
    assert_eq!(t.announce_list, Some(vec![vec![b"url-1".to_vec()], vec![b"url-2".to_vec()]]));
    assert_eq!(t.creation_date, Some(1577836800));
    assert_eq!(t.comment, None);
    assert_eq!(t.info.name, b"test".to_vec());
    assert_eq!(t.info.piece_length, 16384);
    assert_eq!(t.info.length, Some(5));
    assert_eq!(t.info.pieces, vec![b'a'; 20]);
    assert!(t.info.files.is_none());
    let nodes = t.nodes.unwrap();
    assert_eq!(nodes.len(), 1);
    assert_eq!(nodes[0].0, b"host".to_vec());
    assert_eq!(nodes[0].1, 6881);
    assert_eq!(
        t.info.root_hash,
        Some("c51a652658874d442e871ff7c284c828051b7c36".to_string())
    );
}

#[test]
fn info_hash_is_taken_over_canonical_bytes() {
    let empty = decode(b"de").unwrap();
    assert_eq!(info_hash(&empty), "600ccd1b71569232d01d110bc63e906beab04d8c");
    let unsorted = decode(b"d4:name4:test6:lengthi5e12:piece lengthi16384e6:pieces20:aaaaaaaaaaaaaaaaaaaae").unwrap();
    assert_eq!(info_hash(&unsorted), "c51a652658874d442e871ff7c284c828051b7c36");
}

#[test]
fn reads_multi_file_torrents() {
    let mut m = Vec::new();
    m.extend_from_slice(b"d4:infod5:filesld6:lengthi3e4:pathl1:a1:beee4:name3:dir");
    m.extend_from_slice(b"12:piece lengthi1e6:pieces0:ee");
    let t = decode_torrent(&m).unwrap();
    assert_eq!(t.announce(), None);
    let files = t.info.files.unwrap();
    assert_eq!(files.len(), 1);
    assert_eq!(files[0].path, vec![b"a".to_vec(), b"b".to_vec()]);
    assert_eq!(files[0].length, 3);
    assert_eq!(files[0].md5sum, None);
}

#[test]
fn missing_fields_are_named() {
    assert_eq!(decode_torrent(b"de").err(), Some(Error::MissingField(b"info".to_vec())));
    assert_eq!(decode_torrent(b"i1e").err(), Some(Error::MissingField(b"info".to_vec())));
    assert_eq!(
        decode_torrent(b"d4:infod6:pieces0:ee").err(),
        Some(Error::MissingField(b"piece length".to_vec()))
    );
    assert_eq!(
        decode_torrent(b"d4:infod12:piece lengthi1eee").err(),
        Some(Error::MissingField(b"pieces".to_vec()))
    );
    assert_eq!(decode_torrent(b"d4:info").err(), Some(Error::UnexpectedEof));
}

#[test]
fn announce_prefers_the_announce_field() {
    let t = decode_torrent(&metainfo()).unwrap();
    assert_eq!(t.announce(), Some(b"http://tracker/a/b/c".to_vec()));
    let mut m = Vec::new();
    m.extend_from_slice(b"d13:announce-listll5:url-1ee4:infod12:piece lengthi1e6:pieces0:ee");
    let t = decode_torrent(&m).unwrap();
    assert_eq!(t.announce(), Some(b"url-1".to_vec()));
}

#[test]
fn announce_list_first_takes_the_first_url() {
    assert_eq!(
        announce_list_first(&vec![vec![b"x".to_vec(), b"y".to_vec()], vec![b"z".to_vec()]]),
        Some(b"x".to_vec())
    );
    assert_eq!(announce_list_first(&vec![]), None);
    assert_eq!(announce_list_first(&vec![vec![]]), None);
}

#[test]
fn lookup_finds_dictionary_entries() {
    let v = decode(b"d1:ai1e1:b2:xye").unwrap();
    assert_eq!(v.get(b"a"), Some(&Value::IntValue(1)));
    assert_eq!(v.get_bytes(b"b"), Some(b"xy".to_vec()));
    assert_eq!(v.get_int(b"b"), None);
    assert_eq!(v.get(b"c"), None);
}
