//! The string and path helpers the coordinator and the driver build on.

use rustc_plugin::paths::basename;
use rustc_plugin::paths::file_stem;
use rustc_plugin::paths::is_ancestor;
use rustc_plugin::paths::parent_dir;
use rustc_plugin::strutil::find_char;
use rustc_plugin::strutil::rfind_char;
use rustc_plugin::strutil::split_on_char;
use rustc_plugin::strutil::split_whitespace_str;
use rustc_plugin::strutil::starts_with_str;
use rustc_plugin::strutil::str_eq;
use rustc_plugin::range::ByteRange;
use rustc_plugin::range::BytePos;
use rustc_plugin::range::Filename;
use rustc_plugin::range::RangeContext;
use rustc_plugin::test_utils::parse_ranges;
use rustc_plugin::test_utils::CompileBuilder;
use rustc_plugin::test_utils::ParseRangesError;

#[test]
fn character_search() {
    assert_eq!(find_char("a=b=c", '='), Some(1));
    assert_eq!(rfind_char("a=b=c", '='), Some(3));
    assert_eq!(find_char("abc", '='), None);
}

#[test]
fn string_comparison() {
    assert!(str_eq("abc", "abc"));
    assert!(!str_eq("abc", "abd"));
    assert!(!str_eq("abc", "ab"));
    assert!(starts_with_str("--sysroot=/x", "--sysroot"));
    assert!(!starts_with_str("--sys", "--sysroot"));
}

#[test]
fn splitting() {
    assert_eq!(split_on_char("a,b,,c", ','), vec!["a", "b", "", "c"]);
    assert_eq!(split_on_char("", ','), vec![""]);
    assert_eq!(split_whitespace_str("  a  b\tc "), vec!["a", "b", "c"]);
    assert_eq!(split_whitespace_str("   "), Vec::<String>::new());
}

#[test]
fn path_parts() {
    assert_eq!(basename("/a/b/c.rs"), "c.rs");
    assert_eq!(file_stem("/a/b/c.rs"), "c");
    assert_eq!(file_stem("/usr/bin/rustc"), "rustc");
    assert_eq!(file_stem("rustc.exe"), "rustc");
    assert_eq!(file_stem(".hidden"), ".hidden");
    assert_eq!(parent_dir("/a/b/c.rs"), "/a/b");
    assert_eq!(parent_dir("/c.rs"), "/");
    assert_eq!(parent_dir("c.rs"), "");
}

#[test]
fn ancestry() {
    assert!(is_ancestor("/a/b", "/a/b/c.rs"));
    assert!(is_ancestor("/a/b", "/a/b"));
    assert!(!is_ancestor("/a/b", "/a/bc.rs"));
    assert!(!is_ancestor("/a/b/c.rs", "/a/b"));
}

#[test]
fn compile_builder_accumulates_arguments() {
    let b = CompileBuilder::new(String::from("fn main() {}"));
    assert_eq!(b.input, "fn main() {}");
    assert_eq!(b.arguments, Vec::<String>::new());
    let b = b.with_args(vec![String::from("--edition=2021")]);
    let b = b.with_args(vec![String::from("-Zmir-opt-level=0")]);
    assert_eq!(b.input, "fn main() {}");
    assert_eq!(
        b.arguments,
        vec![String::from("--edition=2021"), String::from("-Zmir-opt-level=0")]
    );
}

#[test]
fn test_parse_ranges() {
    let mut ctx = RangeContext::new();
    let filename = Filename(String::from("dummy.rs")).intern(&mut ctx);
    let s = "`[`[f]`oo]`";
    let delims = vec![(String::from("`["), String::from("]`"))];
    let (clean, ranges) = parse_ranges(s, &delims, filename).unwrap();
    assert_eq!(clean, "foo");
    assert_eq!(
        ranges[0],
        vec![
            ByteRange { start: BytePos(0), end: BytePos(1), filename },
            ByteRange { start: BytePos(0), end: BytePos(3), filename },
        ]
    );
}

#[test]
fn parse_ranges_rejects_stray_delimiters() {
    let mut ctx = RangeContext::new();
    let filename = Filename(String::from("dummy.rs")).intern(&mut ctx);
    let delims = vec![(String::from("`["), String::from("]`"))];
    assert_eq!(
        parse_ranges("foo]`", &delims, filename),
        Err(ParseRangesError::UnmatchedClose)
    );
    assert_eq!(
        parse_ranges("`[foo", &delims, filename),
        Err(ParseRangesError::Unclosed)
    );
}
