use pack_rs::path::get_file_name;
use pack_rs::path::sanitize_path;

#[test]
fn test_sanitize_path() -> Result<(), pack_rs::Error> {
    let result = sanitize_path("/etc")?;
    assert_eq!(result, "etc");

    let result = sanitize_path("src/lib.rs")?;
    assert_eq!(result, "src/lib.rs");

    let result = sanitize_path("/usr/../src/./lib.rs")?;
    assert_eq!(result, "usr/src/lib.rs");
    Ok(())
}

#[test]
fn sanitize_path_edge_cases() {
    assert_eq!(sanitize_path("").unwrap(), "");
    assert_eq!(sanitize_path("/").unwrap(), "");
    assert_eq!(sanitize_path(".").unwrap(), "");
    assert_eq!(sanitize_path("..").unwrap(), "");
    assert_eq!(sanitize_path("a//b").unwrap(), "a/b");
    assert_eq!(sanitize_path("a/b/").unwrap(), "a/b");
    assert_eq!(sanitize_path("../../etc/passwd").unwrap(), "etc/passwd");
    assert_eq!(sanitize_path("foo/../bar").unwrap(), "foo/bar");
    assert_eq!(sanitize_path("..hidden/...").unwrap(), "..hidden/...");
}

#[test]
fn file_name_of_plain_paths() {
    assert_eq!(get_file_name("foo/bar.txt"), "bar.txt");
    assert_eq!(get_file_name("bar.txt"), "bar.txt");
    assert_eq!(get_file_name("a/b/"), "b");
    assert_eq!(get_file_name("/etc"), "etc");
    assert_eq!(get_file_name("a/./b"), "b");
}

#[test]
fn file_name_of_odd_paths() {
    // paths whose last meaningful part is a parent marker, or that have no
    // meaningful part at all, come back whole
    assert_eq!(get_file_name("foo/.."), "foo/..");
    assert_eq!(get_file_name("/"), "/");
    assert_eq!(get_file_name(""), "");
    assert_eq!(get_file_name("."), ".");
    assert_eq!(get_file_name("../"), "../");
}
