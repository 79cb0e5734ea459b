use transfer_core::paths::{
    ancestor, file_name, join_path, number_path, parent, parse, render_all, safe_relative,
    separator, starts_with, strip_prefix, with_extension, Component, System,
};
use transfer_core::text::{comes_before, contains, replace_text, take_chars, to_decimal, trim};

const UNIX: System = System::Unix;
const WINDOWS: System = System::Windows;

fn name(s: &str) -> Component {
    Component::Name(s.to_string())
}

#[test]
fn each_system_reads_paths_its_own_way() {
    for sys in [UNIX, WINDOWS] {
        assert_eq!(parse("/a//./b/", sys), vec![Component::Root, name("a"), name("b")]);
        assert_eq!(parse("./a", sys), vec![Component::CurDir, name("a")]);
        assert_eq!(parse("../a", sys), vec![Component::ParentDir, name("a")]);
    }
    assert_eq!(
        parse(r"C:\x/y", WINDOWS),
        vec![Component::Drive('C'), Component::Root, name("x"), name("y")]
    );
    assert_eq!(parse(r"C:\x/y", UNIX), vec![name(r"C:\x"), name("y")]);
    assert_eq!(parse("C:x", WINDOWS), vec![Component::Drive('C'), name("x")]);
    assert_eq!(
        parse(r"\\srv\share/f.txt", WINDOWS),
        vec![
            Component::Share("srv".to_string(), "share".to_string()),
            Component::Root,
            name("f.txt")
        ]
    );
    assert_eq!(parse(r"\\srv\share/f.txt", UNIX), vec![name(r"\\srv\share"), name("f.txt")]);
    assert_eq!(parse(r"\a", WINDOWS), vec![Component::Root, name("a")]);
    assert_eq!(parse(r"\a", UNIX), vec![name(r"\a")]);
    assert_eq!((separator(UNIX), separator(WINDOWS)), ('/', '\\'));
}

#[test]
fn rendered_paths_read_back() {
    for sys in [UNIX, WINDOWS] {
        for p in ["/a/b", "a/b", "/", r"C:\a\b", "C:a", r"\\srv\share\a", "../x", "./x"] {
            assert_eq!(parse(&render_all(&parse(p, sys), sys), sys), parse(p, sys), "{p}");
        }
    }
    assert_eq!(render_all(&parse("c:/a//b", WINDOWS), WINDOWS), r"C:\a\b");
}

#[test]
fn joining() {
    assert_eq!(join_path("/d", "a/b", UNIX), "/d/a/b");
    assert_eq!(join_path("/d/", "a", UNIX), "/d/a");
    assert_eq!(join_path("/d", "/x", UNIX), "/x");
    assert_eq!(join_path("/d", r"a\b", UNIX), r"/d/a\b");
    assert_eq!(join_path(r"C:\d", "a", UNIX), r"C:\d/a");
    assert_eq!(join_path(r"C:\d", "a", WINDOWS), r"C:\d\a");
    assert_eq!(join_path(r"C:\d", "a/b", WINDOWS), r"C:\d\a/b");
    assert_eq!(join_path(r"C:\d", r"\x", WINDOWS), r"C:\x");
    assert_eq!(join_path(r"C:\d", r"D:\x", WINDOWS), r"D:\x");
    assert_eq!(join_path(r"\\srv\share\d", "a", WINDOWS), r"\\srv\share\d\a");
    assert_eq!(join_path(r"\\srv\share\d", r"\x", WINDOWS), r"\\srv\share\x");
}

#[test]
fn safe_paths_stay_below() {
    for sys in [UNIX, WINDOWS] {
        assert!(safe_relative("a/b", sys));
        assert!(!safe_relative("a/../b", sys));
        assert!(!safe_relative("C:/a", sys));
        assert!(starts_with(&join_path("/d", "a/b", sys), "/d", sys));
        assert!(!starts_with("/dx/a", "/d", sys));
    }
    assert!(!safe_relative(r"a\..\b", WINDOWS));
    assert!(safe_relative(r"a\..\b", UNIX));
    assert!(starts_with(&join_path("/d", r"a\..\b", UNIX), "/d", UNIX));
    assert!(!safe_relative(r"\\srv\share", WINDOWS));
    assert!(safe_relative(r"\\srv\share", UNIX));
}

#[test]
fn prefixes() {
    assert_eq!(strip_prefix("/d/a/b", "/d", UNIX).as_deref(), Some("a/b"));
    assert_eq!(strip_prefix("/d", "/d", UNIX).as_deref(), Some(""));
    assert_eq!(strip_prefix("/e/a", "/d", UNIX), None);
    assert_eq!(strip_prefix(r"C:\d\a", "c:/d", WINDOWS).as_deref(), Some("a"));
    assert_eq!(strip_prefix(r"C:\d\a", "c:/d", UNIX), None);
}

#[test]
fn names_and_parents() {
    for sys in [UNIX, WINDOWS] {
        assert_eq!(file_name("/d/a.txt", sys).as_deref(), Some("a.txt"));
        assert_eq!(file_name("/d/..", sys).as_deref(), None);
        assert_eq!(parent("/", sys), None);
        assert_eq!(ancestor("/a", 5, sys), None);
    }
    assert_eq!(parent("/d/a", UNIX).as_deref(), Some("/d"));
    assert_eq!(parent("C:/d/a", WINDOWS).as_deref(), Some(r"C:\d"));
    assert_eq!(ancestor("/a/b/c", 2, UNIX).as_deref(), Some("/a"));
    assert_eq!(file_name(r"d\a", UNIX).as_deref(), Some(r"d\a"));
    assert_eq!(file_name(r"d\a", WINDOWS).as_deref(), Some("a"));
}

#[test]
fn numbered_names() {
    assert_eq!(number_path("/d/a.txt", "file", 1, UNIX), "/d/a (1).txt");
    assert_eq!(number_path("/d/a", "file", 2, UNIX), "/d/a (2)");
    assert_eq!(number_path("/d/.hidden", "file", 3, UNIX), "/d/.hidden (3)");
    assert_eq!(number_path("/d/a.tar.gz", "file", 1, UNIX), "/d/a.tar (1).gz");
    assert_eq!(number_path(r"C:\d\a.txt", "file", 1, WINDOWS), r"C:\d\a (1).txt");
}

#[test]
fn extensions() {
    assert_eq!(with_extension("/d/a.txt", "ltuploading", UNIX), "/d/a.ltuploading");
    assert_eq!(with_extension("/d/a", "ltuploading", UNIX), "/d/a.ltuploading");
    assert_eq!(with_extension(r"d.x\a", "ltuploading", UNIX), "d.ltuploading");
    assert_eq!(with_extension(r"d.x\a", "ltuploading", WINDOWS), r"d.x\a.ltuploading");
}

#[test]
fn texts() {
    assert_eq!(trim(" \t你好 \u{3000}"), "你好");
    assert_eq!(to_decimal(u64::MAX), "18446744073709551615");
    assert_eq!(take_chars("你好吗", 2), "你好");
    assert_eq!(replace_text("aXXbXX", "XX", "-"), "a-b-");
    assert!(contains("abc", "bc"));
    assert!(!contains("abc", "ca"));
    assert!(comes_before("a", "b"));
    assert!(comes_before("a", "ab"));
    assert!(!comes_before("b", "b"));
}

#[test]
fn files_on_a_share_have_names() {
    assert_eq!(file_name(r"\\srv\share\f.txt", WINDOWS).as_deref(), Some("f.txt"));
    assert_eq!(file_name(r"\\srv\f.txt", WINDOWS), None);
    assert_eq!(
        parent(r"\\srv\share\d\f.txt", WINDOWS).as_deref(),
        Some(r"\\srv\share\d")
    );
    assert_eq!(parent(r"\\srv\share", WINDOWS), None);
    assert_eq!(
        number_path(r"\\srv\share\f.txt", "file", 1, WINDOWS),
        r"\\srv\share\f (1).txt"
    );
    assert!(starts_with(r"\\srv\share\f.txt", r"\\srv\share", WINDOWS));
    assert!(!starts_with(r"\\srv\share2\f.txt", r"\\srv\share", WINDOWS));
}
