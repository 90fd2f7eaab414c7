//! Source ranges, file-name interning, and the borrow-mode ordering.

use rustc_plugin::mutability::Mutability::Mut;
use rustc_plugin::mutability::Mutability::Not;
use rustc_plugin::mutability::MutabilityExt;
use rustc_plugin::range::ByteRange;
use rustc_plugin::range::BytePos;
use rustc_plugin::range::CharByteMapping;
use rustc_plugin::range::CharPos;
use rustc_plugin::range::Filename;
use rustc_plugin::range::FilenameIndex;
use rustc_plugin::range::RangeContext;

#[test]
fn test_mutability() {
    let truth_table = [
        (Not, Not, true),
        (Not, Mut, true),
        (Mut, Not, false),
        (Mut, Mut, true),
    ];
    for (l, r, v) in truth_table {
        assert_eq!(l.is_permissive_as(r), v);
    }
}

#[test]
fn substr_extracts_the_byte_range() {
    let mut ctx = RangeContext::new();
    let filename = Filename(String::from("dummy.rs")).intern(&mut ctx);
    let range = ByteRange { start: BytePos(4), end: BytePos(8), filename };
    assert_eq!(range.substr("fn main() {}"), "ain(");
    let empty = ByteRange { start: BytePos(2), end: BytePos(2), filename };
    assert_eq!(empty.substr("fn main() {}"), "");
}

#[test]
fn byte_and_char_positions_translate_both_ways() {
    // The file `fn main() {\n  let x = "🦀";\n}\n`: the emoji sits at
    // line 1, column 11, and at byte offset 23; it encodes in 4 bytes.
    let lines = vec![
        String::from("fn main() {"),
        String::from("  let x = \"\u{1F980}\";"),
        String::from("}"),
    ];
    let mapping = CharByteMapping::build(&lines);
    assert_eq!(mapping.byte_to_char(BytePos(23)), CharPos { line: 1, column: 11 });
    assert_eq!(mapping.byte_to_char(BytePos(27)), CharPos { line: 1, column: 12 });
    assert_eq!(mapping.char_to_byte(CharPos { line: 1, column: 11 }), BytePos(23));
    assert_eq!(mapping.char_to_byte(CharPos { line: 0, column: 0 }), BytePos(0));
    assert_eq!(mapping.char_to_byte(CharPos { line: 2, column: 1 }), BytePos(31));
}

#[test]
fn interning_is_idempotent() {
    let mut ctx = RangeContext::new();
    let a = Filename(String::from("src/lib.rs")).intern(&mut ctx);
    let b = Filename(String::from("src/main.rs")).intern(&mut ctx);
    let a_again = Filename(String::from("src/lib.rs")).intern(&mut ctx);
    assert_eq!(a, FilenameIndex(0));
    assert_eq!(b, FilenameIndex(1));
    assert_eq!(a_again, a);
    assert_eq!(ctx.len(), 2);
    assert_eq!(ctx.lookup(a).0, "src/lib.rs");
    assert_eq!(ctx.lookup(b).0, "src/main.rs");
}
