use bloom_search::filter::build_filter;
use bloom_search::ranking::search;
use bloom_search::storage::{decode, encode, DeserializationError};
use bloom_search::table::FilterTable;
use bloomfilter::Bloom;

fn words(ws: &[&str]) -> Vec<String> {
    ws.iter().map(|w| w.to_string()).collect()
}

fn table_of(docs: &[(&str, &[&str])]) -> FilterTable {
    let mut t = FilterTable::new();
    for (id, ws) in docs {
        t.add(id.to_string(), build_filter(&words(ws), 256, &[9u8; 32])).unwrap();
    }
    t
}

fn entry(id: &[u8], filter: &[u8]) -> Vec<u8> {
    let mut b = Vec::new();
    b.extend_from_slice(&(id.len() as u64).to_le_bytes());
    b.extend_from_slice(id);
    b.extend_from_slice(&(filter.len() as u64).to_le_bytes());
    b.extend_from_slice(filter);
    b
}

fn blob(entries: &[Vec<u8>]) -> Vec<u8> {
    let mut b = (entries.len() as u64).to_le_bytes().to_vec();
    for e in entries {
        b.extend_from_slice(e);
    }
    b
}

fn filter_bytes(ws: &[&str]) -> Vec<u8> {
    build_filter(&words(ws), 16, &[1u8; 32]).to_bytes()
}

#[test]
fn round_trip_keeps_every_document_and_score() {
    let docs: &[(&str, &[&str])] = &[
        ("a/one.txt", &["rust", "search"]),
        ("b/two.txt", &["search", "index"]),
        ("c/ünï.txt", &["bloom"]),
    ];
    let t = table_of(docs);
    let bytes = encode(&t);
    let back = decode(&bytes).unwrap();
    assert_eq!(back.len(), 3);
    for (i, (id, ws)) in docs.iter().enumerate() {
        assert_eq!(back.doc(i).id, *id);
        for w in ws.iter() {
            assert!(back.doc(i).filter.check(&w.to_string()));
        }
        let q = ws.join(" ");
        let r = search(&back, &q);
        assert!(r.contains(&format!("[\"{}\",{}]", id, ws.len())));
    }
    assert_eq!(search(&back, "search rust"), search(&t, "search rust"));
}

#[test]
fn empty_table_round_trip() {
    let bytes = encode(&FilterTable::new());
    assert_eq!(bytes, vec![0u8; 8]);
    assert_eq!(decode(&bytes).unwrap().len(), 0);
}

#[test]
fn truncated_blob_is_refused() {
    let t = table_of(&[("docA", &["rust"]), ("docB", &["index"])]);
    let bytes = encode(&t);
    for n in 0..bytes.len() {
        assert_eq!(decode(&bytes[..n]).err(), Some(DeserializationError), "prefix {}", n);
    }
    assert!(decode(&bytes).is_ok());
}

#[test]
fn trailing_bytes_are_refused() {
    let t = table_of(&[("docA", &["rust"])]);
    let mut bytes = encode(&t);
    bytes.push(0);
    assert_eq!(decode(&bytes).err(), Some(DeserializationError));
}

#[test]
fn invalid_identifier_is_refused() {
    let good = blob(&[entry(b"ok", &filter_bytes(&["x"]))]);
    assert!(decode(&good).is_ok());
    let bad = blob(&[entry(&[0xff, 0xfe], &filter_bytes(&["x"]))]);
    assert_eq!(decode(&bad).err(), Some(DeserializationError));
}

#[test]
fn invalid_filter_is_refused() {
    let mut wrong_version = filter_bytes(&["x"]);
    wrong_version[0] = 2;
    assert_eq!(decode(&blob(&[entry(b"d", &wrong_version)])).err(), Some(DeserializationError));
    let mut no_hashes = filter_bytes(&["x"]);
    no_hashes[9..13].copy_from_slice(&[0, 0, 0, 0]);
    assert_eq!(decode(&blob(&[entry(b"d", &no_hashes)])).err(), Some(DeserializationError));
    let mut short = filter_bytes(&["x"]);
    short.pop();
    assert_eq!(decode(&blob(&[entry(b"d", &short)])).err(), Some(DeserializationError));
}

#[test]
fn empty_filter_is_refused() {
    let header = filter_bytes(&["x"])[..45].to_vec();
    let mut header = header;
    header[1..9].copy_from_slice(&0u64.to_le_bytes());
    assert!(Bloom::<String>::from_bytes(header.clone()).is_ok());
    assert_eq!(decode(&blob(&[entry(b"d", &header)])).err(), Some(DeserializationError));
}

#[test]
fn duplicate_identifier_is_refused() {
    let f = filter_bytes(&["x"]);
    let dup = blob(&[entry(b"d", &f), entry(b"d", &f)]);
    assert_eq!(decode(&dup).err(), Some(DeserializationError));
    let distinct = blob(&[entry(b"d", &f), entry(b"e", &f)]);
    assert_eq!(decode(&distinct).unwrap().len(), 2);
}

#[test]
fn count_beyond_entries_is_refused() {
    let f = filter_bytes(&["x"]);
    let mut b = blob(&[entry(b"d", &f)]);
    b[0] = 2;
    assert_eq!(decode(&b).err(), Some(DeserializationError));
    let mut huge = blob(&[]);
    huge[7] = 0xff;
    assert_eq!(decode(&huge).err(), Some(DeserializationError));
}
