use path_clean::{clean, clean_internal, clean_path_text, PathClean};
use std::path::PathBuf;

#[test]
fn test_empty_path_is_current_dir() {
    assert_eq!(clean(""), ".");
}

#[test]
fn test_clean_paths_dont_change() {
    let tests = vec![(".", "."), ("..", ".."), ("/", "/")];

    for test in tests {
        assert_eq!(clean(test.0), test.1);
    }
}

#[test]
fn test_replace_multiple_slashes() {
    let tests = vec![
        ("/", "/"),
        ("//", "/"),
        ("///", "/"),
        (".//", "."),
        ("//..", "/"),
        ("..//", ".."),
        ("/..//", "/"),
        ("/.//./", "/"),
        ("././/./", "."),
        ("path//to///thing", "path/to/thing"),
        ("/path//to///thing", "/path/to/thing"),
    ];

    for test in tests {
        assert_eq!(clean(test.0), test.1);
    }
}

#[test]
fn test_eliminate_current_dir() {
    let tests = vec![
        ("./", "."),
        ("/./", "/"),
        ("./test", "test"),
        ("./test/./path", "test/path"),
        ("/test/./path/", "/test/path"),
        ("test/path/.", "test/path"),
    ];

    for test in tests {
        assert_eq!(clean(test.0), test.1);
    }
}

#[test]
fn test_eliminate_parent_dir() {
    let tests = vec![
        ("/..", "/"),
        ("/../test", "/test"),
        ("test/..", "."),
        ("test/path/..", "test"),
        ("test/../path", "path"),
        ("/test/../path", "/path"),
        ("test/path/../../", "."),
        ("test/path/../../..", ".."),
        ("/test/path/../../..", "/"),
        ("/test/path/../../../..", "/"),
        ("test/path/../../../..", "../.."),
        ("test/path/../../another/path", "another/path"),
        ("test/path/../../another/path/..", "another"),
        ("../test", "../test"),
        ("../test/", "../test"),
        ("../test/path", "../test/path"),
        ("../test/..", ".."),
    ];

    for test in tests {
        assert_eq!(clean(test.0), test.1);
    }
}

#[test]
fn test_pathbuf_trait() {
    assert_eq!(
        PathBuf::from("/test/../path/").clean(),
        PathBuf::from("/path")
    );
}

const SAMPLES: [&str; 24] = [
    "",
    ".",
    "..",
    "/",
    "//",
    "a//b/./c/..",
    "/../../x/./y//",
    "../../x",
    "a/../../..",
    "./a/b/../../../c",
    "...",
    "/.../..",
    ".a/..b/c.",
    "a/b/c/../../../../d",
    "//a//..//..//b",
    "x/./././y/..",
    "/a/b/../../..",
    "../a/../b/..",
    "héllo/./wörld/..",
    "a/",
    "/a/",
    "..a/b..",
    "a/..",
    "../../..",
];

#[test]
fn cleaning_twice_changes_nothing() {
    for p in SAMPLES {
        let once = clean(p);
        assert_eq!(clean(&once), once, "input {:?}", p);
    }
}

#[test]
fn result_is_never_empty() {
    for p in SAMPLES {
        assert!(!clean(p).is_empty(), "input {:?}", p);
    }
}

#[test]
fn result_has_no_redundancy() {
    for p in SAMPLES {
        let c = clean(p);
        assert!(!c.contains("//"), "input {:?}", p);
        if c != "." {
            assert!(c.split('/').all(|s| s != "."), "input {:?}", p);
        }
        if c.ends_with('/') {
            assert_eq!(c, "/");
        }
    }
}

#[test]
fn rootedness_is_kept() {
    for p in SAMPLES {
        assert_eq!(clean(p).starts_with('/'), p.starts_with('/'), "input {:?}", p);
    }
}

#[test]
fn root_absorbs_ascent() {
    assert_eq!(clean("/.."), "/");
    assert_eq!(clean("/../../.."), "/");
    assert_eq!(clean("/../../../a/.."), "/");
    assert_eq!(clean("/a/../../b"), "/b");
}

#[test]
fn relative_ascent_is_kept_and_accumulates() {
    assert_eq!(clean("../test"), "../test");
    assert_eq!(clean("../test/.."), "..");
    assert_eq!(clean("../../x"), "../../x");
    assert_eq!(clean("a/../.."), "..");
    assert_eq!(clean("a/../../.."), "../..");
    assert_eq!(clean("../a/../../b"), "../../b");
}

#[test]
fn literal_scenarios() {
    let tests = vec![
        ("", "."),
        (".", "."),
        ("..", ".."),
        ("/", "/"),
        ("//", "/"),
        ("///", "/"),
        (".//", "."),
        ("path//to///thing", "path/to/thing"),
        ("./test/./path", "test/path"),
        ("/test/./path/", "/test/path"),
        ("test/path/../../", "."),
        ("test/path/../../..", ".."),
        ("/test/path/../../..", "/"),
        ("test/path/../../../..", "../.."),
        ("test/path/../../another/path/..", "another"),
    ];
    for test in tests {
        assert_eq!(clean(test.0), test.1);
    }
}

#[test]
fn dotted_names_are_ordinary_segments() {
    assert_eq!(clean("..."), "...");
    assert_eq!(clean(".a/..b/c."), ".a/..b/c.");
    assert_eq!(clean("/.../.."), "/");
    assert_eq!(clean("..a/b../.."), "..a");
}

#[test]
fn long_segments_are_erased_whole() {
    let long = "x".repeat(300);
    let other = "y".repeat(200);
    let p = format!("{}/{}/..", long, other);
    assert_eq!(clean(&p), long);
    let q = format!("/{}/{}/../..", long, other);
    assert_eq!(clean(&q), "/");
    let r = format!("../{}/..", long);
    assert_eq!(clean(&r), "..");
}

#[test]
fn non_ascii_content_passes_through() {
    assert_eq!(clean("héllo/./wörld/.."), "héllo");
    assert_eq!(clean("/日本//語/./"), "/日本/語");
    assert_eq!(clean("ü"), "ü");
}

#[test]
fn clean_internal_on_characters() {
    let p: Vec<char> = "a//b/../c/.".chars().collect();
    let expected: Vec<char> = "a/c".chars().collect();
    assert_eq!(clean_internal(&p), expected);
    assert_eq!(clean_internal(&[]), vec!['.']);
    let root: Vec<char> = "/..".chars().collect();
    assert_eq!(clean_internal(&root), vec!['/']);
}

#[test]
fn undecodable_path_text_counts_as_empty() {
    assert_eq!(clean_path_text(None), ".");
    assert_eq!(clean_path_text(Some("a//b/")), "a/b");
}

#[test]
fn pathbuf_clean_keeps_relative_ascent() {
    assert_eq!(PathBuf::from("../a/./b/..").clean(), PathBuf::from("../a"));
    assert_eq!(PathBuf::from("").clean(), PathBuf::from("."));
}
