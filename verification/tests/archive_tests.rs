use std::collections::HashMap;

use pack_rs::pack::build_archive;
use pack_rs::pack::PackBuilder;
use pack_rs::pack::SourceEntry;
use pack_rs::unpack::PackReader;
use pack_rs::unpack::WriteAction;
use pack_rs::BUNDLE_SIZE;
use pack_rs::KIND_DIRECTORY;
use pack_rs::KIND_FILE;
use pack_rs::KIND_SYMLINK;

// What extraction does with a plan, over an in-memory tree: seek to the
// offset (zero-extending a shorter file) and write the bytes. Symlink
// targets land under the same map, keyed by path.
fn apply_plan(fs: &mut HashMap<String, Vec<u8>>, plan: &[WriteAction]) {
    for act in plan {
        let file = fs.entry(act.path.clone()).or_insert_with(Vec::new);
        let pos = act.itempos as usize;
        if file.len() < pos {
            file.resize(pos, 0);
        }
        let end = pos + act.bytes.len();
        if file.len() < end {
            file.resize(end, 0);
        }
        file[pos..end].copy_from_slice(&act.bytes);
    }
}

fn content_rows(path: &str) -> Vec<(i64, i64)> {
    let conn = rusqlite::Connection::open(path).unwrap();
    let mut stmt = conn
        .prepare("SELECT id, length(value) FROM content ORDER BY id")
        .unwrap();
    let rows = stmt
        .query_map([], |row| Ok((row.get(0)?, row.get(1)?)))
        .unwrap();
    rows.collect::<Result<Vec<_>, _>>().unwrap()
}

fn slice_rows(path: &str) -> Vec<(i64, i64, i64, i64, i64)> {
    let conn = rusqlite::Connection::open(path).unwrap();
    let mut stmt = conn
        .prepare("SELECT item, itempos, content, contentpos, size FROM itemcontent ORDER BY id")
        .unwrap();
    let rows = stmt
        .query_map([], |row| {
            Ok((row.get(0)?, row.get(1)?, row.get(2)?, row.get(3)?, row.get(4)?))
        })
        .unwrap();
    rows.collect::<Result<Vec<_>, _>>().unwrap()
}

#[test]
fn small_tree() {
    // a/hello.txt (6 bytes) and a/sub/empty.txt (0 bytes)
    let pack = "/tmp/pack-rs-s1.db3";
    let mut b = PackBuilder::new().unwrap();
    let a = b.add_directory("a", 0).unwrap();
    b.add_file("a/hello.txt", a, b"hello\n").unwrap();
    let sub = b.add_directory("a/sub", a).unwrap();
    b.add_file("a/sub/empty.txt", sub, b"").unwrap();
    b.finish(pack).unwrap();

    // one content row; four item rows; the empty file has one zero slice
    assert_eq!(content_rows(pack).len(), 1);
    let reader = PackReader::new(pack).unwrap();
    let entries = reader.entries().unwrap();
    let names: Vec<String> = entries.iter().map(|e| e.name.clone()).collect();
    assert_eq!(names, vec!["a/", "a/hello.txt", "a/sub/", "a/sub/empty.txt"]);

    let slices = slice_rows(pack);
    assert_eq!(slices.len(), 2);
    assert_eq!(slices[0], (2, 0, 1, 0, 6));
    assert_eq!(slices[1], (4, 0, 1, 6, 0));

    let plan = reader.extract_all().unwrap();
    let mut fs: HashMap<String, Vec<u8>> = HashMap::new();
    apply_plan(&mut fs, &plan);
    assert_eq!(fs.get("a/hello.txt").unwrap(), b"hello\n");
    assert_eq!(fs.get("a/sub/empty.txt").unwrap(), b"");
}

fn pattern(len: usize) -> Vec<u8> {
    let mut data = Vec::with_capacity(len);
    for i in 0..len {
        data.push((i % 251) as u8);
    }
    data
}

#[test]
fn split_file() {
    // a 20,000,000 byte file splits into a full bundle and a tail
    let pack = "/tmp/pack-rs-s2.db3";
    let data = pattern(20_000_000);
    let mut b = PackBuilder::new().unwrap();
    b.add_file("big.bin", 0, &data).unwrap();
    b.finish(pack).unwrap();

    assert_eq!(content_rows(pack).len(), 2);
    let slices = slice_rows(pack);
    assert_eq!(slices.len(), 2);
    assert_eq!(slices[0], (1, 0, 1, 0, 16777216));
    assert_eq!(slices[1], (1, 16777216, 2, 0, 3222784));

    let reader = PackReader::new(pack).unwrap();
    let plan = reader.extract_all().unwrap();
    let mut fs: HashMap<String, Vec<u8>> = HashMap::new();
    apply_plan(&mut fs, &plan);
    assert_eq!(fs.get("big.bin").unwrap(), &data);
}

#[test]
fn bundle_packing() {
    // ten files of 2,000,000 bytes each land in two bundles: eight whole
    // files plus the head of the ninth fill the first
    let pack = "/tmp/pack-rs-s3.db3";
    let data = pattern(2_000_000);
    let mut b = PackBuilder::new().unwrap();
    for i in 0..10 {
        let name = format!("f{}", i);
        b.add_file(&name, 0, &data).unwrap();
    }
    b.finish(pack).unwrap();

    assert_eq!(content_rows(pack).len(), 2);
    let slices = slice_rows(pack);
    assert_eq!(slices.len(), 11);
    for i in 0..8 {
        assert_eq!(slices[i], (i as i64 + 1, 0, 1, 2_000_000 * i as i64, 2_000_000));
    }
    assert_eq!(slices[8], (9, 0, 1, 16_000_000, 777_216));
    assert_eq!(slices[9], (9, 777_216, 2, 0, 1_222_784));
    assert_eq!(slices[10], (10, 0, 2, 1_222_784, 2_000_000));

    // bundle bound: the sizes within each bundle sum to at most the capacity
    let mut sums: HashMap<i64, i64> = HashMap::new();
    for (_, _, content, _, size) in &slices {
        *sums.entry(*content).or_insert(0) += size;
    }
    for (_, sum) in &sums {
        assert!(*sum <= BUNDLE_SIZE as i64);
    }

    let reader = PackReader::new(pack).unwrap();
    let plan = reader.extract_all().unwrap();
    let mut fs: HashMap<String, Vec<u8>> = HashMap::new();
    apply_plan(&mut fs, &plan);
    for i in 0..10 {
        assert_eq!(fs.get(&format!("f{}", i)).unwrap(), &data);
    }
}

#[test]
fn symlink_round_trip() {
    // the raw target bytes survive, non-UTF-8 byte included
    let pack = "/tmp/pack-rs-s4.db3";
    let target: Vec<u8> = vec![0x2e, 0x2e, 0x2f, 0x74, 0xff, 0x74];
    let mut b = PackBuilder::new().unwrap();
    b.add_symlink("link", 0, &target).unwrap();
    b.finish(pack).unwrap();

    let reader = PackReader::new(pack).unwrap();
    let plan = reader.extract_all().unwrap();
    assert_eq!(plan.len(), 1);
    assert_eq!(plan[0].kind, KIND_SYMLINK);
    assert_eq!(plan[0].path, "link");
    assert_eq!(plan[0].bytes, target);
}

#[test]
fn path_escape() {
    // an adversarial archive whose item is named ../../etc/passwd writes
    // only under etc/passwd
    let pack = "/tmp/pack-rs-s5.db3";
    let conn = rusqlite::Connection::open(pack).unwrap();
    conn.execute_batch(
        "DROP TABLE IF EXISTS item; DROP TABLE IF EXISTS content; DROP TABLE IF EXISTS itemcontent; CREATE TABLE item (id INTEGER PRIMARY KEY, parent INTEGER, kind INTEGER, name TEXT NOT NULL); CREATE TABLE content (id INTEGER PRIMARY KEY, value BLOB); CREATE TABLE itemcontent (id INTEGER PRIMARY KEY, item INTEGER, itempos INTEGER, content INTEGER, contentpos INTEGER, size INTEGER)",
    )
    .unwrap();
    conn.execute(
        "INSERT INTO item (parent, kind, name) VALUES (0, 0, '../../etc/passwd')",
        (),
    )
    .unwrap();
    let blob = zstd::stream::encode_all(&b"secret"[..], 0).unwrap();
    conn.execute("INSERT INTO content (value) VALUES (?1)", [&blob]).unwrap();
    conn.execute(
        "INSERT INTO itemcontent (item, itempos, content, contentpos, size) VALUES (1, 0, 1, 0, 6)",
        (),
    )
    .unwrap();
    drop(conn);

    let reader = PackReader::new(pack).unwrap();
    let plan = reader.extract_all().unwrap();
    assert_eq!(plan.len(), 1);
    assert_eq!(plan[0].path, "etc/passwd");
    assert_eq!(plan[0].bytes, b"secret");
}

#[test]
fn round_trip_mixed_tree() {
    // files, an empty file, nested directories and a symlink all come back
    // bit for bit
    let pack = "/tmp/pack-rs-round.db3";
    let big = pattern(17_000_000);
    let mut b = PackBuilder::new().unwrap();
    let top = b.add_directory("top", 0).unwrap();
    b.add_file("top/one.txt", top, b"one").unwrap();
    let nested = b.add_directory("top/nested", top).unwrap();
    b.add_file("top/nested/empty", nested, b"").unwrap();
    b.add_file("top/nested/big.bin", nested, &big).unwrap();
    b.add_symlink("top/link", top, b"nested/empty").unwrap();
    b.add_file("last", 0, b"tail").unwrap();
    b.finish(pack).unwrap();

    let reader = PackReader::new(pack).unwrap();
    let plan = reader.extract_all().unwrap();
    let mut fs: HashMap<String, Vec<u8>> = HashMap::new();
    apply_plan(&mut fs, &plan);
    assert_eq!(fs.get("top/one.txt").unwrap(), b"one");
    assert_eq!(fs.get("top/nested/empty").unwrap(), b"");
    assert_eq!(fs.get("top/nested/big.bin").unwrap(), &big);
    assert_eq!(fs.get("top/link").unwrap(), b"nested/empty");
    assert_eq!(fs.get("last").unwrap(), b"tail");
    assert_eq!(fs.len(), 5);
}

#[test]
fn extraction_is_idempotent() {
    // applying the same plan a second time changes nothing
    let pack = "/tmp/pack-rs-idem.db3";
    let entries = vec![
        SourceEntry {
            path: String::from("d"),
            kind: KIND_DIRECTORY,
            parent: 0,
            data: Vec::new(),
        },
        SourceEntry {
            path: String::from("d/f"),
            kind: KIND_FILE,
            parent: 1,
            data: pattern(100_000),
        },
    ];
    assert_eq!(build_archive(pack, &entries).unwrap(), 1);

    let reader = PackReader::new(pack).unwrap();
    let plan = reader.extract_all().unwrap();
    let mut fs: HashMap<String, Vec<u8>> = HashMap::new();
    apply_plan(&mut fs, &plan);
    let once = fs.clone();
    apply_plan(&mut fs, &plan);
    assert_eq!(fs, once);
}

#[test]
fn bundles_are_really_compressed() {
    // the stored blob is a codec frame over the bundle, not the raw bytes
    let pack = "/tmp/pack-rs-comp.db3";
    let mut b = PackBuilder::new().unwrap();
    b.add_file("zeros", 0, &vec![0u8; 1_000_000]).unwrap();
    b.finish(pack).unwrap();

    let rows = content_rows(pack);
    assert_eq!(rows.len(), 1);
    // far smaller than the input, and starting with the codec's magic
    assert!(rows[0].1 < 100_000);
    let conn = rusqlite::Connection::open(pack).unwrap();
    let head: Vec<u8> = conn
        .query_row("SELECT substr(value, 1, 4) FROM content WHERE id = 1", [], |row| row.get(0))
        .unwrap();
    assert_eq!(head, vec![0x28, 0xb5, 0x2f, 0xfd]);
}

#[test]
fn build_archive_counts_files() {
    let pack = "/tmp/pack-rs-count.db3";
    let entries = vec![
        SourceEntry {
            path: String::from("d"),
            kind: KIND_DIRECTORY,
            parent: 0,
            data: Vec::new(),
        },
        SourceEntry {
            path: String::from("d/a"),
            kind: KIND_FILE,
            parent: 1,
            data: b"a".to_vec(),
        },
        SourceEntry {
            path: String::from("d/b"),
            kind: KIND_FILE,
            parent: 1,
            data: b"b".to_vec(),
        },
        SourceEntry {
            path: String::from("d/l"),
            kind: KIND_SYMLINK,
            parent: 1,
            data: b"a".to_vec(),
        },
    ];
    assert_eq!(build_archive(pack, &entries).unwrap(), 2);
}

#[test]
fn rejects_bad_parents() {
    let mut b = PackBuilder::new().unwrap();
    // parent 5 does not exist
    assert!(matches!(b.add_directory("d", 5), Err(pack_rs::Error::Database)));
    let f = b.add_file("f", 0, b"x").unwrap();
    // a file is not a directory, so it cannot be a parent
    assert!(matches!(b.add_file("f/child", f, b"y"), Err(pack_rs::Error::Database)));
    // a refused call changes nothing: the build can still go on
    b.add_file("g", 0, b"z").unwrap();
    b.finish("/tmp/pack-rs-badparent.db3").unwrap();
}

#[test]
fn store_errors_are_surfaced() {
    // a destination that cannot be written reports the store's error
    let mut b = PackBuilder::new().unwrap();
    b.add_file("f", 0, b"x").unwrap();
    let r = b.finish("/tmp/no-such-dir-pack-rs/out.db3");
    assert!(matches!(r, Err(pack_rs::Error::SQLError(_))));
}

#[test]
fn corrupt_bundle_reports_codec_error() {
    // a blob that is not a codec frame makes extraction fail, not crash
    let pack = "/tmp/pack-rs-corrupt.db3";
    let conn = rusqlite::Connection::open(pack).unwrap();
    conn.execute_batch(
        "DROP TABLE IF EXISTS item; DROP TABLE IF EXISTS content; DROP TABLE IF EXISTS itemcontent; CREATE TABLE item (id INTEGER PRIMARY KEY, parent INTEGER, kind INTEGER, name TEXT NOT NULL); CREATE TABLE content (id INTEGER PRIMARY KEY, value BLOB); CREATE TABLE itemcontent (id INTEGER PRIMARY KEY, item INTEGER, itempos INTEGER, content INTEGER, contentpos INTEGER, size INTEGER)",
    )
    .unwrap();
    conn.execute("INSERT INTO item (parent, kind, name) VALUES (0, 0, 'f')", ())
        .unwrap();
    conn.execute("INSERT INTO content (value) VALUES (x'00010203')", ())
        .unwrap();
    conn.execute(
        "INSERT INTO itemcontent (item, itempos, content, contentpos, size) VALUES (1, 0, 1, 0, 4)",
        (),
    )
    .unwrap();
    drop(conn);
    let reader = PackReader::new(pack).unwrap();
    assert!(matches!(reader.extract_all(), Err(pack_rs::Error::IOError(_))));
}

#[test]
fn oversized_slice_is_refused() {
    // a slice that points past its bundle's decompressed end is malformed
    let pack = "/tmp/pack-rs-oversize.db3";
    let conn = rusqlite::Connection::open(pack).unwrap();
    conn.execute_batch(
        "DROP TABLE IF EXISTS item; DROP TABLE IF EXISTS content; DROP TABLE IF EXISTS itemcontent; CREATE TABLE item (id INTEGER PRIMARY KEY, parent INTEGER, kind INTEGER, name TEXT NOT NULL); CREATE TABLE content (id INTEGER PRIMARY KEY, value BLOB); CREATE TABLE itemcontent (id INTEGER PRIMARY KEY, item INTEGER, itempos INTEGER, content INTEGER, contentpos INTEGER, size INTEGER)",
    )
    .unwrap();
    conn.execute("INSERT INTO item (parent, kind, name) VALUES (0, 0, 'f')", ())
        .unwrap();
    let blob = zstd::stream::encode_all(&b"ab"[..], 0).unwrap();
    conn.execute("INSERT INTO content (value) VALUES (?1)", [&blob]).unwrap();
    conn.execute(
        "INSERT INTO itemcontent (item, itempos, content, contentpos, size) VALUES (1, 0, 1, 0, 99)",
        (),
    )
    .unwrap();
    drop(conn);
    let reader = PackReader::new(pack).unwrap();
    assert!(matches!(reader.extract_all(), Err(pack_rs::Error::Database)));
}

#[test]
fn empty_file_without_slices_still_appears() {
    // a foreign archive may record an empty file with no slice rows at all;
    // the plan still creates it
    let pack = "/tmp/pack-rs-noslice.db3";
    let conn = rusqlite::Connection::open(pack).unwrap();
    conn.execute_batch(
        "DROP TABLE IF EXISTS item; DROP TABLE IF EXISTS content; DROP TABLE IF EXISTS itemcontent; CREATE TABLE item (id INTEGER PRIMARY KEY, parent INTEGER, kind INTEGER, name TEXT NOT NULL); CREATE TABLE content (id INTEGER PRIMARY KEY, value BLOB); CREATE TABLE itemcontent (id INTEGER PRIMARY KEY, item INTEGER, itempos INTEGER, content INTEGER, contentpos INTEGER, size INTEGER)",
    )
    .unwrap();
    conn.execute("INSERT INTO item (parent, kind, name) VALUES (0, 0, 'hollow')", ())
        .unwrap();
    drop(conn);

    let reader = PackReader::new(pack).unwrap();
    let plan = reader.extract_all().unwrap();
    assert_eq!(plan.len(), 1);
    assert_eq!(plan[0].path, "hollow");
    assert_eq!(plan[0].kind, KIND_FILE);
    assert!(plan[0].bytes.is_empty());
}

#[test]
fn list_entries_of_archive() {
    let pack = "/tmp/pack-rs-list.db3";
    let entries_in = vec![
        SourceEntry {
            path: String::from("docs"),
            kind: KIND_DIRECTORY,
            parent: 0,
            data: Vec::new(),
        },
        SourceEntry {
            path: String::from("docs/readme"),
            kind: KIND_FILE,
            parent: 1,
            data: b"hi".to_vec(),
        },
    ];
    build_archive(pack, &entries_in).unwrap();
    let reader = PackReader::new(pack).unwrap();
    let got = reader.entries().unwrap();
    assert_eq!(got.len(), 2);
    assert_eq!(got[0].name, "docs/");
    assert_eq!(got[0].kind, KIND_DIRECTORY);
    assert_eq!(got[1].name, "docs/readme");
    assert_eq!(got[1].kind, KIND_FILE);
    assert_eq!(got[1].parent, got[0].id);
}

#[test]
fn build_archive_rejects_unknown_kind() {
    let entries = vec![SourceEntry {
        path: String::from("odd"),
        kind: 7,
        parent: 0,
        data: Vec::new(),
    }];
    assert!(matches!(
        build_archive("/tmp/pack-rs-badkind.db3", &entries),
        Err(pack_rs::Error::Database)
    ));
}
