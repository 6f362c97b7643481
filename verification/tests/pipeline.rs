use includedir::Compression;
use includedir::DirEntry;
use includedir::FilesError;
use includedir::start;

fn dir_file(path: &str, data: &[u8]) -> DirEntry {
    DirEntry { path: path.to_string(), is_dir: false, data: data.to_vec() }
}

fn dir_node(path: &str) -> DirEntry {
    DirEntry { path: path.to_string(), is_dir: true, data: Vec::new() }
}

fn collect_names(files: &includedir::Files) -> Vec<String> {
    let mut it = files.file_names();
    let mut names = Vec::new();
    while let Some(n) = it.next() {
        names.push(n);
    }
    names
}

#[test]
fn test() {
    let entries = vec![
        dir_node("data"),
        dir_file("data/foo", b"foo\r\n"),
        dir_file("data/empty", b""),
        dir_node("data/inner"),
        dir_file("data/inner/boom", b"boom\r\n"),
    ];
    let files = start("FILES", "")
        .dir(&entries, Compression::Gzip)
        .build(&Vec::new());

    assert_eq!(
        files.get("data/foo").expect("data/foo not present"),
        &[102, 111, 111, 13, 10]
    );

    let mut names = collect_names(&files);
    names.sort();
    assert_eq!(names, vec!["data/empty", "data/foo", "data/inner/boom"]);

    assert_eq!(
        files.get("data/inner/boom").unwrap(),
        &[98, 111, 111, 109, 13, 10]
    );
    assert_eq!(files.get("data/foo").unwrap(), &[102, 111, 111, 13, 10]);
    assert_eq!(files.get("data/empty").unwrap(), &[] as &[u8]);
}

#[test]
fn plain_round_trip() {
    let files = start("FILES", "")
        .file("a.txt", &b"hello".to_vec(), Compression::Plain)
        .build(&Vec::new());
    assert_eq!(files.get("a.txt").unwrap(), b"hello");
}

#[test]
fn gzip_raw_differs_from_content() {
    let content = b"foo foo foo foo foo foo".to_vec();
    let files = start("FILES", "")
        .file("f", &content, Compression::Gzip)
        .build(&Vec::new());
    let (tag, raw) = files.get_raw("f").unwrap();
    assert_eq!(tag, Compression::Gzip);
    assert_ne!(raw, content);
    assert_eq!(files.get("f").unwrap(), content);
}

#[test]
fn empty_file_gzip_round_trip() {
    let files = start("FILES", "")
        .file("empty", &Vec::new(), Compression::Gzip)
        .build(&Vec::new());
    assert_eq!(files.get("empty").unwrap(), Vec::<u8>::new());
}

#[test]
fn filter_excludes_matching_suffix() {
    let files = start("FILES", "")
        .file("a/foo", &b"x".to_vec(), Compression::Gzip)
        .file("a/bar", &b"y".to_vec(), Compression::Gzip)
        .build(&vec!["foo".to_string()]);
    assert!(!files.is_available("a/foo"));
    assert!(files.is_available("a/bar"));
    let names = collect_names(&files);
    assert_eq!(names, vec!["a/bar"]);
}

#[test]
fn filter_matching_nothing_excludes_nothing() {
    let files = start("FILES", "")
        .file("a/foo", &b"x".to_vec(), Compression::Gzip)
        .file("a/bar", &b"y".to_vec(), Compression::Gzip)
        .build(&vec!["zzz".to_string()]);
    assert!(files.is_available("a/foo"));
    assert!(files.is_available("a/bar"));
}

#[test]
fn filter_matches_resolved_manifest_path() {
    let files = start("FILES", "m")
        .file("f.txt", &b"x".to_vec(), Compression::Gzip)
        .build(&vec!["m/f.txt".to_string()]);
    assert!(!files.is_available("f.txt"));
}

#[test]
fn keys_are_slash_normalized() {
    let files = start("FILES", "")
        .file("a\\b", &b"z".to_vec(), Compression::Gzip)
        .build(&Vec::new());
    assert!(files.is_available("a/b"));
    assert!(files.is_available("a\\b"));
    assert_eq!(files.get("a/b").unwrap(), b"z");
    assert_eq!(files.get("a\\b").unwrap(), b"z");
    assert!(!files.is_available("a.b"));
}

#[test]
fn later_add_replaces_earlier_key() {
    let files = start("FILES", "")
        .file("k", &b"first".to_vec(), Compression::Gzip)
        .file("k", &b"second".to_vec(), Compression::Gzip)
        .build(&Vec::new());
    assert_eq!(files.get("k").unwrap(), b"second");
    assert_eq!(collect_names(&files).len(), 1);
}

#[test]
fn add_dir_skips_directories() {
    let entries = vec![dir_node("d"), dir_file("d/x", b"1"), dir_node("d/e")];
    let files = start("FILES", "").dir(&entries, Compression::Gzip).build(&Vec::new());
    let names = collect_names(&files);
    assert_eq!(names, vec!["d/x"]);
    assert!(!files.is_available("d"));
    assert!(!files.is_available("d/e"));
}

#[test]
fn missing_key_is_not_found() {
    let files = start("FILES", "").build(&Vec::new());
    assert_eq!(files.get("nope"), Err(FilesError::NotFound));
    assert_eq!(files.get_raw("nope"), Err(FilesError::NotFound));
    assert!(files.read("nope").is_err());
    assert!(!files.is_available("nope"));
}

#[test]
fn read_streams_decoded_bytes() {
    let files = start("FILES", "")
        .file("r", &b"stream me\r\n".to_vec(), Compression::Gzip)
        .build(&Vec::new());
    let mut reader = files.read("r").unwrap();
    assert_eq!(reader.compression(), Compression::Gzip);
    assert_eq!(reader.read_to_end().unwrap(), b"stream me\r\n");
}

#[test]
fn read_in_chunks() {
    let files = start("FILES", "")
        .file("c", &b"abcdefgh".to_vec(), Compression::Gzip)
        .build(&Vec::new());
    let mut reader = files.read("c").unwrap();
    assert_eq!(reader.read_chunk(3).unwrap(), b"abc");
    assert_eq!(reader.read_chunk(3).unwrap(), b"def");
    assert_eq!(reader.read_to_end().unwrap(), b"gh");
    assert_eq!(reader.read_chunk(3).unwrap(), b"");
    assert_eq!(reader.read_to_end().unwrap(), b"");
}

#[test]
fn as_key_replaces_backslashes() {
    assert_eq!(includedir::as_key("a\\b/c"), "a/b/c");
    assert_eq!(includedir::as_key(""), "");
    assert_eq!(includedir::as_key("plain/path"), "plain/path");
}
