use omegat_core::file_util::{compile_file_mask, compute_relative_path, file_mask_matches, get_backup_filename, get_unique_names, is_relative};

fn names(v: &[&str]) -> Vec<String> {
    v.iter().map(|s| s.to_string()).collect()
}

#[test]
fn unique_names_match_java() {
    assert_eq!(
        get_unique_names(&names(&["/foo/foo.txt", "/foo/bar.txt", "/bar/baz.txt"])),
        vec!["foo.txt", "bar.txt", "baz.txt"]
    );
    assert_eq!(
        get_unique_names(&names(&["/foo/foo.txt", "/foo/bar.txt", "/bar/bar.txt"])),
        vec!["foo.txt", "foo/bar.txt", "bar/bar.txt"]
    );
    assert_eq!(
        get_unique_names(&names(&["foo/", "bar/boo/../baz", "/buz/baz", "/baz//baz"])),
        vec!["foo", "bar/baz", "buz/baz", "baz/baz"]
    );
    assert_eq!(
        get_unique_names(&names(&["//foo", "../foo"])),
        vec!["//foo", "../foo"]
    );
}

#[test]
fn single_name_is_its_last_segment() {
    assert_eq!(get_unique_names(&names(&["/a/b/c.txt"])), vec!["c.txt"]);
    assert!(get_unique_names(&[]).is_empty());
}

#[test]
fn backup_name_carries_utc_minute_stamp() {
    assert_eq!(get_backup_filename("/tmp/proj/file.tmx", 0), "file.tmx.197001010000.bak");
    assert_eq!(
        get_backup_filename("/tmp/proj/file.tmx", 1_700_000_000_000),
        "file.tmx.202311142213.bak"
    );
    assert_eq!(get_backup_filename("/", 0), "file.197001010000.bak");
    assert_eq!(get_backup_filename("x", -5), "x.197001010000.bak");
}

#[test]
fn relative_path_under_root() {
    assert_eq!(compute_relative_path("/root/p", "/root/p/a/b.txt"), Ok("a/b.txt".to_string()));
    assert_eq!(compute_relative_path("/root/p", "/root/p"), Ok(String::new()));
    assert_eq!(
        compute_relative_path("/root/p", "/other/b.txt"),
        Err("not under root".to_string())
    );
}

#[test]
fn relative_matches_java() {
    assert!(!is_relative("C:\\zz"));
    assert!(!is_relative("z:/zz"));
    assert!(!is_relative("c:\\zz"));
    assert!(is_relative("1:/zz"));
    assert!(!is_relative("/zz"));
    assert!(!is_relative("\\zz"));
    assert!(is_relative("zz/"));
}

#[test]
fn compile_mask_java_sample() {
    assert_eq!(compile_file_mask("Ab1-&*/**"), r"(?:|.*/)Ab1\-\&[^/]*(?:|/.*)");
    assert!(file_mask_matches("*.txt", "/foo.txt"));
    assert!(file_mask_matches("*.txt", "/bar/foo.txt"));
    assert!(!file_mask_matches("*.txt", "/foo.txty"));
    assert!(file_mask_matches("/*.txt", "/foo.txt"));
    assert!(!file_mask_matches("/*.txt", "/bar/foo.txt"));
    assert!(file_mask_matches("**/test/**", "test"));
    assert!(!file_mask_matches("**/test/**", "/foo/tests/bar"));
    assert!(!file_mask_matches("foo/**/bar", "foobar"));
}
