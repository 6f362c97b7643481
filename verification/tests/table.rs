use includedir::Compression;
use includedir::Files;
use includedir::FilesError;

fn entry(key: &str, c: Compression, data: &[u8]) -> (String, Compression, Vec<u8>) {
    (key.to_string(), c, data.to_vec())
}

#[test]
fn from_entries_builds_a_table() {
    let files = Files::from_entries(vec![
        entry("a", Compression::Plain, b"alpha"),
        entry("b", Compression::Plain, b"beta"),
    ]);
    assert!(files.is_available("a"));
    assert!(files.is_available("b"));
    assert_eq!(files.get("a").unwrap(), b"alpha");
    assert_eq!(files.get("b").unwrap(), b"beta");
    assert_eq!(files.get_raw("a").unwrap(), (Compression::Plain, b"alpha".to_vec()));
}

#[test]
fn from_entries_later_binding_wins() {
    let files = Files::from_entries(vec![
        entry("k", Compression::Plain, b"old"),
        entry("k", Compression::Plain, b"new"),
    ]);
    assert_eq!(files.get("k").unwrap(), b"new");
}

#[test]
fn mislabeled_gzip_payload_surfaces_decode_failure() {
    let files = Files::from_entries(vec![entry("bad", Compression::Gzip, b"not gzip")]);
    assert!(files.is_available("bad"));
    assert_eq!(files.get("bad"), Err(FilesError::DecodeFailure));
    let mut reader = files.read("bad").unwrap();
    assert_eq!(reader.read_chunk(4), Err(FilesError::DecodeFailure));
    assert_eq!(reader.read_to_end(), Err(FilesError::DecodeFailure));
}

#[test]
fn file_names_is_restartable_and_exact() {
    let files = Files::from_entries(vec![
        entry("x", Compression::Plain, b"1"),
        entry("y", Compression::Plain, b"2"),
    ]);
    for _ in 0..2 {
        let mut it = files.file_names();
        let mut names = Vec::new();
        while let Some(n) = it.next() {
            names.push(n);
        }
        names.sort();
        assert_eq!(names, vec!["x", "y"]);
    }
    let mut it = files.file_names();
    assert!(it.next().is_some());
    assert!(it.next().is_some());
    assert!(it.next().is_none());
    assert!(it.next().is_none());
}

#[test]
fn plain_payload_is_stored_verbatim() {
    let files = Files::from_entries(vec![entry("p", Compression::Plain, b"bytes \x00\xff")]);
    let (tag, raw) = files.get_raw("p").unwrap();
    assert_eq!(tag, Compression::Plain);
    assert_eq!(raw, b"bytes \x00\xff".to_vec());
    assert_eq!(files.get("p").unwrap(), b"bytes \x00\xff".to_vec());
}
