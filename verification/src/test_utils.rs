//! Building a compilation session programmatically, for tests: the
//! source text and the extra compiler arguments it is compiled with.
//! Running the session belongs to the compiler-facing glue outside the
//! library; the builder itself is plain data.

use vstd::prelude::*;

use crate::range::ByteRange;
use crate::range::BytePos;
use crate::range::FilenameIndex;
use crate::strutil::spec_starts_with;
use crate::strutil::starts_with_str;

verus! {

/// Programmatically accumulates one compilation: a source string and
/// additional compiler arguments.
pub struct CompileBuilder {
    pub input: String,
    pub arguments: Vec<String>,
}

impl CompileBuilder {
    /// Initializes a compilation from this string of source code.
    pub fn new(input: String) -> (r: Self)
        ensures
            r.input@ == input@,
            r.arguments.deep_view() == Seq::<Seq<char>>::empty(),
    {
        let r = CompileBuilder { input, arguments: Vec::new() };
        proof {
            assert(r.arguments.deep_view() =~= Seq::<Seq<char>>::empty());
        }
        r
    }

    /// Appends additional compiler arguments.
    pub fn with_args(self, args: Vec<String>) -> (r: Self)
        ensures
            r.input@ == self.input@,
            r.arguments.deep_view() == self.arguments.deep_view() + args.deep_view(),
    {
        let mut arguments = self.arguments;
        let mut rest = args;
        let ghost before = arguments.deep_view();
        let ghost added = rest.deep_view();
        arguments.append(&mut rest);
        proof {
            assert(arguments.deep_view() =~= before + added);
        }
        CompileBuilder { input: self.input, arguments }
    }
}

/// What scanning a delimited source comes to.
pub enum ScanResult {
    /// The cleaned text and, for each delimiter, the ranges it marked,
    /// as start/end offsets into the cleaned text.
    Finished(Seq<char>, Seq<Seq<(int, int)>>),
    /// A closing token appeared with no delimiter open.
    UnmatchedClose,
    /// The input ended while delimiters were still open.
    Unclosed,
}

/// Index of the first delimiter whose opening token starts at `i`.
pub open spec fn first_open_at(
    src: Seq<char>,
    i: int,
    delims: Seq<(Seq<char>, Seq<char>)>,
    d: int,
) -> Option<int>
    decreases delims.len() - d,
{
    if d < 0 || d >= delims.len() {
        None
    } else if spec_starts_with(src.skip(i), delims[d].0) {
        Some(d)
    } else {
        first_open_at(src, i, delims, d + 1)
    }
}

/// Index of the first delimiter whose closing token starts at `i`.
pub open spec fn first_close_at(
    src: Seq<char>,
    i: int,
    delims: Seq<(Seq<char>, Seq<char>)>,
    d: int,
) -> Option<int>
    decreases delims.len() - d,
{
    if d < 0 || d >= delims.len() {
        None
    } else if spec_starts_with(src.skip(i), delims[d].1) {
        Some(d)
    } else {
        first_close_at(src, i, delims, d + 1)
    }
}

/// One step at a time, the scan of a delimited source: an opening token
/// pushes the current cleaned position; a closing token pops it and
/// records the range; any other character is copied to the cleaned
/// text.
pub open spec fn spec_scan(
    src: Seq<char>,
    delims: Seq<(Seq<char>, Seq<char>)>,
    i: int,
    clean: Seq<char>,
    stack: Seq<(int, int)>,
    acc: Seq<Seq<(int, int)>>,
) -> ScanResult
    decreases src.len() - i,
    via spec_scan_decreases
{
    if i < 0 || i >= src.len() {
        if stack.len() == 0 {
            ScanResult::Finished(clean, acc)
        } else {
            ScanResult::Unclosed
        }
    } else {
        match first_open_at(src, i, delims, 0) {
            Some(d) => {
                if delims[d].0.len() > 0 {
                    spec_scan(
                        src,
                        delims,
                        i + delims[d].0.len(),
                        clean,
                        stack.push((clean.len() as int, d)),
                        acc,
                    )
                } else {
                    ScanResult::Unclosed
                }
            },
            None => match first_close_at(src, i, delims, 0) {
                Some(d) => {
                    if delims[d].1.len() > 0 {
                        if stack.len() == 0 {
                            ScanResult::UnmatchedClose
                        } else {
                            let (start, open_d) = stack.last();
                            spec_scan(
                                src,
                                delims,
                                i + delims[d].1.len(),
                                clean,
                                stack.drop_last(),
                                acc.update(open_d, acc[open_d].push((start, clean.len() as int))),
                            )
                        }
                    } else {
                        ScanResult::Unclosed
                    }
                },
                None => spec_scan(src, delims, i + 1, clean.push(src[i]), stack, acc),
            },
        }
    }
}

#[via_fn]
proof fn spec_scan_decreases(
    src: Seq<char>,
    delims: Seq<(Seq<char>, Seq<char>)>,
    i: int,
    clean: Seq<char>,
    stack: Seq<(int, int)>,
    acc: Seq<Seq<(int, int)>>,
) {
    lemma_first_open_at_props(src, i, delims, 0);
    lemma_first_close_at_props(src, i, delims, 0);
}

pub proof fn lemma_first_open_at_props(
    src: Seq<char>,
    i: int,
    delims: Seq<(Seq<char>, Seq<char>)>,
    d: int,
)
    requires
        d >= 0,
    ensures
        match first_open_at(src, i, delims, d) {
            Some(f) => d <= f < delims.len() && spec_starts_with(src.skip(i), delims[f].0)
                && forall|e: int| d <= e < f ==> !spec_starts_with(src.skip(i), (#[trigger] delims[e]).0),
            None => forall|e: int|
                d <= e < delims.len() ==> !spec_starts_with(src.skip(i), (#[trigger] delims[e]).0),
        },
    decreases delims.len() - d,
{
    if d < delims.len() && !spec_starts_with(src.skip(i), delims[d].0) {
        lemma_first_open_at_props(src, i, delims, d + 1);
    }
}

pub proof fn lemma_first_close_at_props(
    src: Seq<char>,
    i: int,
    delims: Seq<(Seq<char>, Seq<char>)>,
    d: int,
)
    requires
        d >= 0,
    ensures
        match first_close_at(src, i, delims, d) {
            Some(f) => d <= f < delims.len() && spec_starts_with(src.skip(i), delims[f].1)
                && forall|e: int| d <= e < f ==> !spec_starts_with(src.skip(i), (#[trigger] delims[e]).1),
            None => forall|e: int|
                d <= e < delims.len() ==> !spec_starts_with(src.skip(i), (#[trigger] delims[e]).1),
        },
    decreases delims.len() - d,
{
    if d < delims.len() && !spec_starts_with(src.skip(i), delims[d].1) {
        lemma_first_close_at_props(src, i, delims, d + 1);
    }
}

/// Why a delimited source fails to parse.
#[derive(Debug, PartialEq, Eq)]
pub enum ParseRangesError {
    /// A closing token with no delimiter open; the caller reports the
    /// missing opener.
    UnmatchedClose,
    /// The input ended while delimiters were still open.
    Unclosed,
}

/// The pairs of delimiter tokens, as character sequences.
pub open spec fn delims_model(delimiters: Seq<(String, String)>) -> Seq<(Seq<char>, Seq<char>)> {
    Seq::new(delimiters.len(), |d: int| (delimiters[d].0@, delimiters[d].1@))
}

/// The open-delimiter positions on the scan stack.
pub open spec fn stack_model(v: Seq<(usize, usize)>) -> Seq<(int, int)> {
    Seq::new(v.len(), |k: int| (v[k].0 as int, v[k].1 as int))
}

/// Every recorded range carries the tag `f`.
pub open spec fn all_tagged(v: Vec<ByteRange>, f: FilenameIndex) -> bool {
    forall|k: int| 0 <= k < v@.len() ==> (#[trigger] v@[k]).filename == f
}

/// The recorded ranges as start/end offsets, one sequence per
/// delimiter.
pub open spec fn acc_model(ranges: Seq<Vec<ByteRange>>) -> Seq<Seq<(int, int)>> {
    Seq::new(
        ranges.len(),
        |d: int|
            Seq::new(
                ranges[d]@.len(),
                |k: int| (ranges[d]@[k].start.0 as int, ranges[d]@[k].end.0 as int),
            ),
    )
}

#[verifier::loop_isolation(false)]
fn find_open_at(src: &str, i: usize, delimiters: &Vec<(String, String)>) -> (r: Option<usize>)
    requires
        i <= src@.len(),
    ensures
        match r {
            Some(d) => first_open_at(src@, i as int, delims_model(delimiters@), 0) == Some(
                d as int,
            ) && d < delimiters@.len(),
            None => first_open_at(src@, i as int, delims_model(delimiters@), 0) is None,
        },
{
    let ghost dm = delims_model(delimiters@);
    let n = delimiters.len();
    let m = src.unicode_len();
    let mut d: usize = 0;
    while d < n
        invariant
            0 <= d <= n,
            n == dm.len(),
            m == src@.len(),
            i <= m,
            forall|e: int|
                0 <= e < d ==> !spec_starts_with(src@.skip(i as int), (#[trigger] dm[e]).0),
        decreases n - d,
    {
        let rest = src.substring_char(i, m);
        proof {
            assert(src@.skip(i as int) =~= src@.subrange(i as int, m as int));
        }
        if starts_with_str(rest, delimiters[d].0.as_str()) {
            proof {
                lemma_first_open_at_props(src@, i as int, dm, 0);
                match first_open_at(src@, i as int, dm, 0) {
                    Some(f) => {
                        if f > d {
                            assert(!spec_starts_with(src@.skip(i as int), dm[d as int].0));
                        }
                    },
                    None => {
                        assert(!spec_starts_with(src@.skip(i as int), dm[d as int].0));
                    },
                }
            }
            return Some(d);
        }
        d += 1;
    }
    proof {
        lemma_first_open_at_props(src@, i as int, dm, 0);
    }
    None
}

#[verifier::loop_isolation(false)]
fn find_close_at(src: &str, i: usize, delimiters: &Vec<(String, String)>) -> (r: Option<usize>)
    requires
        i <= src@.len(),
    ensures
        match r {
            Some(d) => first_close_at(src@, i as int, delims_model(delimiters@), 0) == Some(
                d as int,
            ) && d < delimiters@.len(),
            None => first_close_at(src@, i as int, delims_model(delimiters@), 0) is None,
        },
{
    let ghost dm = delims_model(delimiters@);
    let n = delimiters.len();
    let m = src.unicode_len();
    let mut d: usize = 0;
    while d < n
        invariant
            0 <= d <= n,
            n == dm.len(),
            m == src@.len(),
            i <= m,
            forall|e: int|
                0 <= e < d ==> !spec_starts_with(src@.skip(i as int), (#[trigger] dm[e]).1),
        decreases n - d,
    {
        let rest = src.substring_char(i, m);
        proof {
            assert(src@.skip(i as int) =~= src@.subrange(i as int, m as int));
        }
        if starts_with_str(rest, delimiters[d].1.as_str()) {
            proof {
                lemma_first_close_at_props(src@, i as int, dm, 0);
                match first_close_at(src@, i as int, dm, 0) {
                    Some(f) => {
                        if f > d {
                            assert(!spec_starts_with(src@.skip(i as int), dm[d as int].1));
                        }
                    },
                    None => {
                        assert(!spec_starts_with(src@.skip(i as int), dm[d as int].1));
                    },
                }
            }
            return Some(d);
        }
        d += 1;
    }
    proof {
        lemma_first_close_at_props(src@, i as int, dm, 0);
    }
    None
}

/// Parses a source annotated with range delimiters: the delimiter
/// tokens are removed, and each delimited region is reported as a
/// range of offsets into the cleaned text, grouped by delimiter and
/// tagged with `filename`.
#[verifier::loop_isolation(false)]
pub fn parse_ranges(src: &str, delimiters: &Vec<(String, String)>, filename: FilenameIndex) -> (r:
    Result<(String, Vec<Vec<ByteRange>>), ParseRangesError>)
    requires
        forall|d: int|
            0 <= d < delimiters@.len() ==> (#[trigger] delimiters@[d]).0@.len() > 0
                && delimiters@[d].1@.len() > 0,
    ensures
        ({
            let dm = delims_model(delimiters@);
            let empty_acc = Seq::new(dm.len(), |d: int| Seq::<(int, int)>::empty());
            let outcome = spec_scan(src@, dm, 0, Seq::empty(), Seq::empty(), empty_acc);
            match r {
                Ok((clean, ranges)) => {
                    &&& outcome == ScanResult::Finished(clean@, acc_model(ranges@))
                    &&& ranges@.len() == dm.len()
                    &&& forall|d: int|
                        0 <= d < ranges@.len() ==> all_tagged(#[trigger] ranges@[d], filename)
                },
                Err(ParseRangesError::UnmatchedClose) => outcome == ScanResult::UnmatchedClose,
                Err(ParseRangesError::Unclosed) => outcome == ScanResult::Unclosed,
            }
        }),
{
    let ghost dm = delims_model(delimiters@);
    let n = src.unicode_len();
    let nd = delimiters.len();
    let mut clean = String::new();
    let mut out_len: usize = 0;
    let mut stack: Vec<(usize, usize)> = Vec::new();
    let mut ranges: Vec<Vec<ByteRange>> = Vec::new();
    let mut d0: usize = 0;
    while d0 < nd
        invariant
            0 <= d0 <= nd,
            ranges@.len() == d0,
            forall|d: int| 0 <= d < d0 ==> (#[trigger] ranges@[d])@.len() == 0,
        decreases nd - d0,
    {
        ranges.push(Vec::new());
        d0 += 1;
    }
    let ghost empty_acc = Seq::new(dm.len(), |d: int| Seq::<(int, int)>::empty());
    let ghost goal = spec_scan(src@, dm, 0, Seq::empty(), Seq::empty(), empty_acc);
    let mut i: usize = 0;
    proof {
        assert(stack_model(stack@) =~= Seq::<(int, int)>::empty());
        assert(acc_model(ranges@) =~~= empty_acc);
    }
    while i < n
        invariant
            0 <= i <= n,
            n == src@.len(),
            out_len == clean@.len(),
            out_len <= i,
            ranges@.len() == dm.len(),
            forall|k: int| 0 <= k < stack@.len() ==> (#[trigger] stack@[k]).1 < dm.len(),
            forall|d: int| 0 <= d < ranges@.len() ==> all_tagged(#[trigger] ranges@[d], filename),
            goal == spec_scan(src@, dm, i as int, clean@, stack_model(stack@), acc_model(ranges@)),
        decreases n - i,
    {
        match find_open_at(src, i, delimiters) {
            Some(d) => {
                proof {
                    lemma_first_open_at_props(src@, i as int, dm, 0);
                }
                let open_len = delimiters[d].0.unicode_len();
                let ghost old_stack = stack_model(stack@);
                stack.push((out_len, d));
                proof {
                    assert(stack_model(stack@) =~= old_stack.push((out_len as int, d as int)));
                }
                i = i + open_len;
            },
            None => match find_close_at(src, i, delimiters) {
                Some(d) => {
                    proof {
                        lemma_first_close_at_props(src@, i as int, dm, 0);
                    }
                    let close_len = delimiters[d].1.unicode_len();
                    let ghost old_stack = stack_model(stack@);
                    let ghost old_acc = acc_model(ranges@);
                    match stack.pop() {
                        Some((start, open_d)) => {
                            proof {
                                assert(old_stack.last() == (start as int, open_d as int));
                                assert(stack_model(stack@) =~= old_stack.drop_last());
                            }
                            let range = ByteRange {
                                start: BytePos(start),
                                end: BytePos(out_len),
                                filename,
                            };
                            let mut bucket = ranges.remove(open_d);
                            bucket.push(range);
                            ranges.insert(open_d, bucket);
                            proof {
                                assert forall|d2: int|
                                    0 <= d2 < ranges@.len() implies all_tagged(
                                    #[trigger] ranges@[d2],
                                    filename,
                                ) by {}
                                assert(acc_model(ranges@) =~~= old_acc.update(
                                    open_d as int,
                                    old_acc[open_d as int].push((start as int, out_len as int)),
                                ));
                            }
                        },
                        None => {
                            proof {
                                assert(old_stack.len() == 0);
                            }
                            return Err(ParseRangesError::UnmatchedClose);
                        },
                    }
                    i = i + close_len;
                },
                None => {
                    let c = src.get_char(i);
                    crate::strutil::push_char(&mut clean, c);
                    out_len += 1;
                    i += 1;
                },
            },
        }
    }
    if stack.len() == 0 {
        proof {
            assert(stack_model(stack@).len() == 0);
        }
        Ok((clean, ranges))
    } else {
        proof {
            assert(stack_model(stack@).len() == stack@.len());
        }
        Err(ParseRangesError::Unclosed)
    }
}

} // verus!
