use pack_rs::ident::header_matches;
use pack_rs::ident::is_pack_file;
use pack_rs::pack::build_archive;
use pack_rs::pack::SourceEntry;
use pack_rs::KIND_FILE;

const MAGIC: [u8; 16] = [
    0x53, 0x51, 0x4c, 0x69, 0x74, 0x65, 0x20, 0x66, 0x6f, 0x72, 0x6d, 0x61, 0x74, 0x20, 0x33, 0x00,
];

// The filesystem half of the identifier (statting the file and reading its
// first bytes) lives outside the library; these tests hand the library what
// a caller would have seen of each fixture file.
fn make_empty_file(path: &str) {
    // opening a database and writing nothing leaves a zero-byte file
    let conn = rusqlite::Connection::open(path).unwrap();
    drop(conn);
}

fn make_notpack(path: &str) {
    let conn = rusqlite::Connection::open(path).unwrap();
    conn.execute(
        "CREATE TABLE IF NOT EXISTS zebra (id INTEGER PRIMARY KEY, stripe TEXT)",
        (),
    )
    .unwrap();
    conn.execute("INSERT INTO zebra (stripe) VALUES ('wide')", ())
        .unwrap();
    drop(conn);
}

fn make_pack(path: &str) {
    let entries = vec![SourceEntry {
        path: String::from("hello.txt"),
        kind: KIND_FILE,
        parent: 0,
        data: b"hello\n".to_vec(),
    }];
    build_archive(path, &entries).unwrap();
}

#[test]
fn test_is_pack_file() -> Result<(), pack_rs::Error> {
    make_empty_file("/tmp/pack-rs-empty-file");
    make_notpack("/tmp/pack-rs-notpack.db3");
    make_pack("/tmp/pack-rs-pack.db3");
    assert!(!is_pack_file("/tmp/pack-rs-empty-file", true, 0, &[])?);
    assert!(!is_pack_file("/tmp/pack-rs-notpack.db3", true, 4096, &MAGIC)?);
    assert!(is_pack_file("/tmp/pack-rs-pack.db3", true, 4096, &MAGIC)?);
    Ok(())
}

#[test]
fn identifier_negatives() {
    // an empty file, a random file, and a store file with a different
    // schema all come back false, never an error
    make_empty_file("/tmp/pack-rs-ident-empty");
    assert_eq!(is_pack_file("/tmp/pack-rs-ident-empty", true, 0, &[]).unwrap(), false);

    // a "random" kilobyte: the header is not the store magic, so the file
    // itself is never even opened
    let mut random = [0u8; 16];
    let mut x: u32 = 0x12345678;
    for b in random.iter_mut() {
        x = x.wrapping_mul(1103515245).wrapping_add(12345);
        *b = (x >> 16) as u8;
    }
    assert_eq!(
        is_pack_file("/tmp/pack-rs-no-such-file", true, 1024, &random).unwrap(),
        false
    );

    make_notpack("/tmp/pack-rs-ident-notpack.db3");
    assert_eq!(
        is_pack_file("/tmp/pack-rs-ident-notpack.db3", true, 4096, &MAGIC).unwrap(),
        false
    );
}

#[test]
fn identifier_rejects_non_regular_and_short() {
    // a directory (not a regular file) and a too-short file are rejected
    // without touching the store
    assert_eq!(is_pack_file("target", false, 4096, &MAGIC).unwrap(), false);
    assert_eq!(is_pack_file("/tmp/pack-rs-short", true, 16, &MAGIC).unwrap(), false);
}

#[test]
fn header_matching_is_exact() {
    assert!(header_matches(&MAGIC));
    let mut off = MAGIC;
    off[15] = 1;
    assert!(!header_matches(&off));
    assert!(!header_matches(&MAGIC[..15]));
    assert!(!header_matches(b"SQLite format 3\0\0"));
}
