//! Source ranges shared with tools outside the compiler.
//!
//! The compiler describes source code in byte offsets; most editors use
//! line/column character positions. These types carry both forms as
//! plain values, and a [`RangeContext`] interns file names so a range
//! can refer to its file by a small index.

use vstd::prelude::*;

use vstd::pervasive::unreached;
use vstd::string::is_ascii;
use crate::strutil::str_eq;

verus! {

/// An interned file name: an index into a [`RangeContext`].
#[derive(Clone, Copy, Debug, PartialEq, Eq, Hash, PartialOrd, Ord, Structural)]
pub struct FilenameIndex(pub usize);

/// A file's path.
#[derive(Clone, Debug, PartialEq, Eq, Hash)]
pub struct Filename(pub String);

/// A byte offset into a file.
#[derive(Clone, Copy, Debug, PartialEq, Eq, Hash, PartialOrd, Ord, Structural)]
pub struct BytePos(pub usize);

/// A zero-based line and column, the coordinate system editors use; it
/// is robust to the choice of line endings.
#[derive(Clone, Copy, Debug, PartialEq, Eq, Hash, PartialOrd, Ord, Structural)]
pub struct CharPos {
    pub line: usize,
    pub column: usize,
}

/// A half-open byte range within one file.
#[derive(Clone, Copy, Debug, PartialEq, Eq, Hash, Structural)]
pub struct ByteRange {
    pub start: BytePos,
    pub end: BytePos,
    pub filename: FilenameIndex,
}

/// A half-open character range within one file.
#[derive(Clone, Copy, Debug, PartialEq, Eq, Hash, Structural)]
pub struct CharRange {
    pub start: CharPos,
    pub end: CharPos,
    pub filename: FilenameIndex,
}

/// A function named from outside: by its qualified path, or by a range
/// of code inside it.
pub enum FunctionIdentifier {
    Qpath(String),
    Range(CharRange),
}

impl ByteRange {
    /// The text of this range within `s`. Byte offsets and character
    /// offsets agree on ASCII text, which is what the range arithmetic
    /// here assumes.
    pub fn substr(&self, s: &str) -> (r: String)
        requires
            is_ascii(s),
            self.start.0 <= self.end.0 <= s@.len(),
        ensures
            r@ == s@.subrange(self.start.0 as int, self.end.0 as int),
    {
        s.substring_ascii(self.start.0, self.end.0).to_owned()
    }
}

/// The interning table for file names, passed explicitly to whatever
/// needs it and scoped to one analysis run.
pub struct RangeContext {
    filenames: Vec<Filename>,
}

impl RangeContext {
    /// The interned paths, in interning order.
    pub closed spec fn names(self) -> Seq<Seq<char>> {
        Seq::new(self.filenames@.len(), |i: int| self.filenames@[i].0@)
    }

    /// An empty context.
    pub fn new() -> (r: Self)
        ensures
            r.names() == Seq::<Seq<char>>::empty(),
    {
        let r = RangeContext { filenames: Vec::new() };
        proof {
            assert(r.names() =~= Seq::<Seq<char>>::empty());
        }
        r
    }

    /// How many distinct file names are interned.
    pub fn len(&self) -> (n: usize)
        ensures
            n == self.names().len(),
    {
        self.filenames.len()
    }

    /// The path interned at `index`.
    pub fn lookup(&self, index: FilenameIndex) -> (r: &Filename)
        requires
            index.0 < self.names().len(),
        ensures
            r.0@ == self.names()[index.0 as int],
    {
        &self.filenames[index.0]
    }
}

impl Filename {
    /// Interns this file name: returns the index it already has, or
    /// appends it and returns the new index.
    #[verifier::loop_isolation(false)]
    pub fn intern(self, ctx: &mut RangeContext) -> (r: FilenameIndex)
        ensures
            r.0 < final(ctx).names().len(),
            final(ctx).names()[r.0 as int] == self.0@,
            forall|j: int| 0 <= j < r.0 ==> final(ctx).names()[j] != self.0@,
            (exists|i: int| 0 <= i < old(ctx).names().len() && old(ctx).names()[i] == self.0@)
                ==> *final(ctx) == *old(ctx),
            !(exists|i: int| 0 <= i < old(ctx).names().len() && old(ctx).names()[i] == self.0@)
                ==> final(ctx).names() == old(ctx).names().push(self.0@) && r.0 == old(
                ctx,
            ).names().len(),
    {
        let n = ctx.filenames.len();
        let mut i: usize = 0;
        while i < n
            invariant
                0 <= i <= n,
                forall|j: int| 0 <= j < i ==> ctx.names()[j] != self.0@,
            decreases n - i,
        {
            if str_eq(ctx.filenames[i].0.as_str(), self.0.as_str()) {
                proof {
                    assert(ctx.names()[i as int] == self.0@);
                }
                return FilenameIndex(i);
            }
            i += 1;
        }
        let ghost old_names = ctx.names();
        ctx.filenames.push(self);
        proof {
            assert(ctx.names() =~= old_names.push(ctx.names()[n as int]));
        }
        FilenameIndex(n)
    }
}

/// Number of bytes in the UTF-8 encoding of `c`.
pub open spec fn spec_len_utf8(c: char) -> int {
    if (c as int) < 0x80 {
        1
    } else if (c as int) < 0x800 {
        2
    } else if (c as int) < 0x10000 {
        3
    } else {
        4
    }
}

pub fn len_utf8(c: char) -> (r: usize)
    ensures
        r == spec_len_utf8(c),
{
    let u = c as u32;
    if u < 0x80 {
        1
    } else if u < 0x800 {
        2
    } else if u < 0x10000 {
        3
    } else {
        4
    }
}

/// Number of bytes in the UTF-8 encoding of `s`.
pub open spec fn spec_byte_len(s: Seq<char>) -> int
    decreases s.len(),
{
    if s.len() == 0 {
        0
    } else {
        spec_len_utf8(s[0]) + spec_byte_len(s.skip(1))
    }
}

proof fn lemma_byte_len_nonneg(s: Seq<char>)
    ensures
        spec_byte_len(s) >= 0,
    decreases s.len(),
{
    if s.len() != 0 {
        lemma_byte_len_nonneg(s.skip(1));
    }
}

proof fn lemma_byte_len_push(s: Seq<char>, c: char)
    ensures
        spec_byte_len(s.push(c)) == spec_byte_len(s) + spec_len_utf8(c),
    decreases s.len(),
{
    let p = s.push(c);
    if s.len() == 0 {
        assert(p[0] == c);
        assert(p.skip(1) =~= Seq::<char>::empty());
        assert(spec_byte_len(p.skip(1)) == 0);
    } else {
        assert(p[0] == s[0]);
        assert(p.skip(1) =~= s.skip(1).push(c));
        lemma_byte_len_push(s.skip(1), c);
    }
}

/// The byte offset of line `l` in a file whose lines (without their
/// terminators) are `lines`, each line ending in a one-byte terminator.
pub open spec fn spec_line_start(lines: Seq<Seq<char>>, l: int) -> int
    decreases l,
{
    if l <= 0 {
        0
    } else {
        spec_line_start(lines, l - 1) + spec_byte_len(lines[l - 1]) + 1
    }
}

proof fn lemma_line_start_mono(lines: Seq<Seq<char>>, a: int, b: int)
    requires
        0 <= a <= b,
    ensures
        spec_line_start(lines, a) <= spec_line_start(lines, b),
    decreases b - a,
{
    if a < b {
        lemma_line_start_mono(lines, a, b - 1);
        lemma_byte_len_nonneg(lines[b - 1]);
    }
}

/// The byte offset of column `c` of line `l`.
pub open spec fn spec_byte_of(lines: Seq<Seq<char>>, l: int, c: int) -> int {
    spec_line_start(lines, l) + spec_byte_len(lines[l].take(c))
}

/// `(l, c)` names a character of line `l`, or the position just past
/// its last character.
pub open spec fn valid_pos(lines: Seq<Seq<char>>, l: int, c: int) -> bool {
    0 <= l < lines.len() && 0 <= c <= lines[l].len()
}

/// The entry for line `l`, column `c` stands in the table.
pub open spec fn has_entry(
    entries: Seq<(BytePos, CharPos)>,
    lines: Seq<Seq<char>>,
    l: int,
    c: int,
) -> bool {
    exists|k: int|
        0 <= k < entries.len() && (#[trigger] entries[k]).1.line == l && entries[k].1.column == c
            && entries[k].0.0 == spec_byte_of(lines, l, c)
}

/// Entries already present keep serving their positions when the table
/// grows at the end.
proof fn lemma_entries_grow(
    before: Seq<(BytePos, CharPos)>,
    after: Seq<(BytePos, CharPos)>,
    lines: Seq<Seq<char>>,
    line: int,
)
    requires
        before.len() <= after.len(),
        forall|k: int| 0 <= k < before.len() ==> after[k] == before[k],
        forall|l: int, c: int|
            valid_pos(lines, l, c) && l < line ==> has_entry(before, lines, l, c),
    ensures
        forall|l: int, c: int| valid_pos(lines, l, c) && l < line ==> has_entry(after, lines, l, c),
{
    assert forall|l: int, c: int|
        valid_pos(lines, l, c) && l < line implies has_entry(after, lines, l, c) by {
        let k = choose|k: int|
            0 <= k < before.len() && (#[trigger] before[k]).1.line == l && before[k].1.column == c
                && before[k].0.0 == spec_byte_of(lines, l, c);
        assert(after[k] == before[k]);
    }
}

/// The bidirectional table between byte offsets and line/column
/// positions of one file, built once and then consulted in both
/// directions.
pub struct CharByteMapping {
    entries: Vec<(BytePos, CharPos)>,
    lines: Ghost<Seq<Seq<char>>>,
}

impl CharByteMapping {
    /// The lines the table was built from.
    pub closed spec fn lines(self) -> Seq<Seq<char>> {
        self.lines@
    }

    /// Every entry translates a valid position correctly, and every
    /// valid position has its entry.
    pub closed spec fn wf(self) -> bool {
        &&& forall|k: int|
            0 <= k < self.entries@.len() ==> {
                let e = #[trigger] self.entries@[k];
                valid_pos(self.lines@, e.1.line as int, e.1.column as int) && e.0.0
                    == spec_byte_of(self.lines@, e.1.line as int, e.1.column as int)
            }
        &&& forall|l: int, c: int|
            valid_pos(self.lines@, l, c) ==> has_entry(self.entries@, self.lines@, l, c)
    }

    /// Builds the table for a file given as its lines, without their
    /// line terminators; each line is taken to end in one terminator
    /// byte.
    #[verifier::loop_isolation(false)]
    pub fn build(lines: &Vec<String>) -> (r: CharByteMapping)
        requires
            spec_line_start(lines.deep_view(), lines.deep_view().len() as int) <= usize::MAX,
        ensures
            r.wf(),
            r.lines() == lines.deep_view(),
    {
        let ghost lv = lines.deep_view();
        let mut entries: Vec<(BytePos, CharPos)> = Vec::new();
        let n = lines.len();
        let mut line: usize = 0;
        let mut bpos: usize = 0;
        while line < n
            invariant
                0 <= line <= n,
                n == lv.len(),
                bpos == spec_line_start(lv, line as int),
                forall|k: int|
                    0 <= k < entries@.len() ==> {
                        let e = #[trigger] entries@[k];
                        valid_pos(lv, e.1.line as int, e.1.column as int) && e.0.0 == spec_byte_of(
                            lv,
                            e.1.line as int,
                            e.1.column as int,
                        )
                    },
                forall|l: int, c: int|
                    valid_pos(lv, l, c) && l < line ==> has_entry(entries@, lv, l, c),
            decreases n - line,
        {
            let s: &str = lines[line].as_str();
            let len = s.unicode_len();
            let mut col: usize = 0;
            let mut here: usize = bpos;
            proof {
                assert(lv[line as int].take(0) =~= Seq::<char>::empty());
                lemma_line_start_mono(lv, line as int + 1, lv.len() as int);
                lemma_byte_len_nonneg(lv[line as int]);
            }
            while col < len
                invariant
                    0 <= col <= len,
                    len == lv[line as int].len(),
                    here == spec_byte_of(lv, line as int, col as int),
                    forall|k: int|
                        0 <= k < entries@.len() ==> {
                            let e = #[trigger] entries@[k];
                            valid_pos(lv, e.1.line as int, e.1.column as int) && e.0.0
                                == spec_byte_of(lv, e.1.line as int, e.1.column as int)
                        },
                    forall|l: int, c: int|
                        valid_pos(lv, l, c) && l < line ==> has_entry(entries@, lv, l, c),
                    forall|c: int| 0 <= c < col ==> has_entry(entries@, lv, line as int, c),
                decreases len - col,
            {
                let ghost before = entries@;
                entries.push((BytePos(here), CharPos { line, column: col }));
                proof {
                    assert(entries@[before.len() as int]
                        == (BytePos(here), CharPos { line, column: col }));
                    assert(forall|k: int| 0 <= k < before.len() ==> entries@[k] == before[k]);
                    lemma_entries_grow(before, entries@, lv, line as int);
                    assert forall|c: int|
                        0 <= c < col + 1 implies has_entry(entries@, lv, line as int, c) by {
                        if c < col {
                            assert(has_entry(before, lv, line as int, c));
                            let k = choose|k: int|
                                0 <= k < before.len() && (#[trigger] before[k]).1.line
                                    == line as int && before[k].1.column == c && before[k].0.0
                                    == spec_byte_of(lv, line as int, c);
                            assert(entries@[k] == before[k]);
                        } else {
                            assert(entries@[before.len() as int].1.line == line as int);
                        }
                    }
                }
                let c = s.get_char(col);
                proof {
                    assert(lv[line as int][col as int] == c);
                    assert(lv[line as int].take(col + 1int) =~= lv[line as int].take(
                        col as int,
                    ).push(c));
                    lemma_byte_len_push(lv[line as int].take(col as int), c);
                    // The next offset still lies inside the file.
                    lemma_byte_len_split(lv[line as int], col + 1int);
                    lemma_byte_len_nonneg(lv[line as int].skip(col + 1int));
                    assert(spec_byte_of(lv, line as int, col + 1int) <= spec_line_start(
                        lv,
                        line as int + 1,
                    ));
                }
                here = here + len_utf8(c);
                col += 1;
            }
            let ghost before = entries@;
            entries.push((BytePos(here), CharPos { line, column: len }));
            proof {
                assert(entries@[before.len() as int]
                    == (BytePos(here), CharPos { line, column: len }));
                assert(forall|k: int| 0 <= k < before.len() ==> entries@[k] == before[k]);
                lemma_entries_grow(before, entries@, lv, line as int);
                assert(lv[line as int].take(len as int) =~= lv[line as int]);
                assert(here == spec_line_start(lv, line as int) + spec_byte_len(lv[line as int]));
                assert forall|l: int, c: int|
                    valid_pos(lv, l, c) && l < line + 1 implies has_entry(entries@, lv, l, c) by {
                    if l == line as int {
                        if c < len {
                            assert(has_entry(before, lv, line as int, c));
                            let k = choose|k: int|
                                0 <= k < before.len() && (#[trigger] before[k]).1.line
                                    == line as int && before[k].1.column == c && before[k].0.0
                                    == spec_byte_of(lv, line as int, c);
                            assert(entries@[k] == before[k]);
                        } else {
                            assert(entries@[before.len() as int].1.line == line as int);
                        }
                    }
                }
            }
            bpos = here + 1;
            line += 1;
        }
        CharByteMapping { entries, lines: Ghost(lv) }
    }

    /// The line/column position at byte offset `pos`.
    #[verifier::loop_isolation(false)]
    pub fn byte_to_char(&self, pos: BytePos) -> (r: CharPos)
        requires
            self.wf(),
            exists|l: int, c: int|
                valid_pos(self.lines(), l, c) && #[trigger] spec_byte_of(self.lines(), l, c)
                    == pos.0,
        ensures
            valid_pos(self.lines(), r.line as int, r.column as int),
            spec_byte_of(self.lines(), r.line as int, r.column as int) == pos.0,
    {
        let n = self.entries.len();
        let mut k: usize = 0;
        while k < n
            invariant
                0 <= k <= n,
                n == self.entries@.len(),
                forall|j: int| 0 <= j < k ==> (#[trigger] self.entries@[j]).0.0 != pos.0,
            decreases n - k,
        {
            let e = self.entries[k];
            if e.0.0 == pos.0 {
                return e.1;
            }
            k += 1;
        }
        proof {
            let (l, c) = choose|l: int, c: int|
                valid_pos(self.lines(), l, c) && #[trigger] spec_byte_of(self.lines(), l, c)
                    == pos.0;
            assert(has_entry(self.entries@, self.lines@, l, c));
        }
        unreached()
    }

    /// The byte offset of the line/column position `pos`.
    #[verifier::loop_isolation(false)]
    pub fn char_to_byte(&self, pos: CharPos) -> (r: BytePos)
        requires
            self.wf(),
            valid_pos(self.lines(), pos.line as int, pos.column as int),
        ensures
            r.0 == spec_byte_of(self.lines(), pos.line as int, pos.column as int),
    {
        let n = self.entries.len();
        let mut k: usize = 0;
        while k < n
            invariant
                0 <= k <= n,
                n == self.entries@.len(),
                forall|j: int|
                    0 <= j < k ==> !((#[trigger] self.entries@[j]).1.line == pos.line
                        && self.entries@[j].1.column == pos.column),
            decreases n - k,
        {
            let e = self.entries[k];
            if e.1.line == pos.line && e.1.column == pos.column {
                return e.0;
            }
            k += 1;
        }
        proof {
            assert(has_entry(self.entries@, self.lines@, pos.line as int, pos.column as int));
        }
        unreached()
    }
}

/// The encoding of a sequence splits at any point.
proof fn lemma_byte_len_split(s: Seq<char>, i: int)
    requires
        0 <= i <= s.len(),
    ensures
        spec_byte_len(s) == spec_byte_len(s.take(i)) + spec_byte_len(s.skip(i)),
    decreases i,
{
    if i == 0 {
        assert(s.take(0) =~= Seq::<char>::empty());
        assert(s.skip(0) =~= s);
    } else {
        lemma_byte_len_split(s, i - 1);
        let c = s[i - 1];
        assert(s.take(i) =~= s.take(i - 1).push(c));
        lemma_byte_len_push(s.take(i - 1), c);
        assert(s.skip(i - 1) =~= seq![c] + s.skip(i));
        assert((seq![c] + s.skip(i))[0] == c);
        assert((seq![c] + s.skip(i)).skip(1) =~= s.skip(i));
    }
}

} // verus!
