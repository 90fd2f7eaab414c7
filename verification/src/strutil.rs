//! Verified helpers for character sequences: searching, comparing,
//! splitting, and the path arithmetic the coordinator and the driver
//! rely on.

use vstd::prelude::*;

verus! {

/// Index of the first occurrence of `c` in `s`, if any.
pub open spec fn first_index_of(s: Seq<char>, c: char) -> Option<int>
    decreases s.len(),
{
    if s.len() == 0 {
        None
    } else if s[0] == c {
        Some(0int)
    } else {
        match first_index_of(s.skip(1), c) {
            Some(i) => Some(i + 1),
            None => None,
        }
    }
}

pub proof fn lemma_first_index_of_props(s: Seq<char>, c: char)
    ensures
        match first_index_of(s, c) {
            Some(i) => 0 <= i < s.len() && s[i] == c && forall|j: int| 0 <= j < i ==> s[j] != c,
            None => forall|j: int| 0 <= j < s.len() ==> s[j] != c,
        },
    decreases s.len(),
{
    if s.len() != 0 && s[0] != c {
        let t = s.skip(1);
        lemma_first_index_of_props(t, c);
        assert(forall|j: int| 0 <= j < t.len() ==> t[j] == s[j + 1]);
        match first_index_of(t, c) {
            Some(i) => {
                assert(t[i] == c);
                assert forall|j: int| 0 <= j < i + 1 implies s[j] != c by {
                    if j > 0 {
                        assert(t[j - 1] != c);
                    }
                }
            },
            None => {
                assert forall|j: int| 0 <= j < s.len() implies s[j] != c by {
                    if j > 0 {
                        assert(t[j - 1] != c);
                    }
                }
            },
        }
    }
}

pub proof fn lemma_first_index_of_is(s: Seq<char>, c: char, i: int)
    requires
        0 <= i < s.len(),
        s[i] == c,
        forall|j: int| 0 <= j < i ==> s[j] != c,
    ensures
        first_index_of(s, c) == Some(i),
    decreases s.len(),
{
    if i > 0 {
        lemma_first_index_of_is(s.skip(1), c, i - 1);
    }
}

pub proof fn lemma_first_index_of_none(s: Seq<char>, c: char)
    requires
        forall|j: int| 0 <= j < s.len() ==> s[j] != c,
    ensures
        first_index_of(s, c) is None,
    decreases s.len(),
{
    if s.len() != 0 {
        lemma_first_index_of_none(s.skip(1), c);
    }
}

/// Index of the last occurrence of `c` in `s`, if any.
pub open spec fn last_index_of(s: Seq<char>, c: char) -> Option<int>
    decreases s.len(),
{
    if s.len() == 0 {
        None
    } else if s[s.len() - 1] == c {
        Some(s.len() - 1)
    } else {
        last_index_of(s.take(s.len() - 1), c)
    }
}

pub proof fn lemma_last_index_of_props(s: Seq<char>, c: char)
    ensures
        match last_index_of(s, c) {
            Some(i) => 0 <= i < s.len() && s[i] == c && forall|j: int|
                i < j < s.len() ==> s[j] != c,
            None => forall|j: int| 0 <= j < s.len() ==> s[j] != c,
        },
    decreases s.len(),
{
    if s.len() != 0 && s[s.len() - 1] != c {
        let t = s.take(s.len() - 1);
        lemma_last_index_of_props(t, c);
        assert(forall|j: int| 0 <= j < t.len() ==> t[j] == s[j]);
        match last_index_of(t, c) {
            Some(i) => {
                assert forall|j: int| i < j < s.len() implies s[j] != c by {
                    if j < s.len() - 1 {
                        assert(t[j] != c);
                    }
                }
            },
            None => {
                assert forall|j: int| 0 <= j < s.len() implies s[j] != c by {
                    if j < s.len() - 1 {
                        assert(t[j] != c);
                    }
                }
            },
        }
    }
}

pub proof fn lemma_last_index_of_is(s: Seq<char>, c: char, i: int)
    requires
        0 <= i < s.len(),
        s[i] == c,
        forall|j: int| i < j < s.len() ==> s[j] != c,
    ensures
        last_index_of(s, c) == Some(i),
    decreases s.len(),
{
    if i < s.len() - 1 {
        lemma_last_index_of_is(s.take(s.len() - 1), c, i);
    }
}

pub proof fn lemma_last_index_of_none(s: Seq<char>, c: char)
    requires
        forall|j: int| 0 <= j < s.len() ==> s[j] != c,
    ensures
        last_index_of(s, c) is None,
    decreases s.len(),
{
    if s.len() != 0 {
        lemma_last_index_of_none(s.take(s.len() - 1), c);
    }
}

/// First index of `c` in `s`, scanning left to right.
pub fn find_char(s: &str, c: char) -> (r: Option<usize>)
    ensures
        match r {
            Some(i) => first_index_of(s@, c) == Some(i as int),
            None => first_index_of(s@, c) is None,
        },
{
    let n = s.unicode_len();
    let mut i: usize = 0;
    while i < n
        invariant
            0 <= i <= n,
            n == s@.len(),
            forall|j: int| 0 <= j < i ==> s@[j] != c,
        decreases n - i,
    {
        if s.get_char(i) == c {
            proof {
                lemma_first_index_of_is(s@, c, i as int);
            }
            return Some(i);
        }
        i += 1;
    }
    proof {
        lemma_first_index_of_none(s@, c);
    }
    None
}

/// Last index of `c` in `s`, scanning right to left.
pub fn rfind_char(s: &str, c: char) -> (r: Option<usize>)
    ensures
        match r {
            Some(i) => last_index_of(s@, c) == Some(i as int),
            None => last_index_of(s@, c) is None,
        },
{
    let n = s.unicode_len();
    let mut i: usize = n;
    while i > 0
        invariant
            0 <= i <= n,
            n == s@.len(),
            forall|j: int| i <= j < n ==> s@[j] != c,
        decreases i,
    {
        i -= 1;
        if s.get_char(i) == c {
            proof {
                lemma_last_index_of_is(s@, c, i as int);
            }
            return Some(i);
        }
    }
    proof {
        lemma_last_index_of_none(s@, c);
    }
    None
}

/// Character-for-character equality of two string slices.
pub fn str_eq(a: &str, b: &str) -> (r: bool)
    ensures
        r == (a@ == b@),
{
    let n = a.unicode_len();
    if n != b.unicode_len() {
        return false;
    }
    let mut i: usize = 0;
    while i < n
        invariant
            0 <= i <= n,
            n == a@.len(),
            n == b@.len(),
            forall|j: int| 0 <= j < i ==> a@[j] == b@[j],
        decreases n - i,
    {
        if a.get_char(i) != b.get_char(i) {
            return false;
        }
        i += 1;
    }
    proof {
        assert(a@ =~= b@);
    }
    true
}

/// `p` is a prefix of `s`.
pub open spec fn spec_starts_with(s: Seq<char>, p: Seq<char>) -> bool {
    p.len() <= s.len() && s.subrange(0, p.len() as int) == p
}

pub fn starts_with_str(s: &str, p: &str) -> (r: bool)
    ensures
        r == spec_starts_with(s@, p@),
{
    let np = p.unicode_len();
    if np > s.unicode_len() {
        assert(!spec_starts_with(s@, p@));
        return false;
    }
    let mut i: usize = 0;
    while i < np
        invariant
            0 <= i <= np,
            np == p@.len(),
            np <= s@.len(),
            forall|j: int| 0 <= j < i ==> s@[j] == p@[j],
        decreases np - i,
    {
        if s.get_char(i) != p.get_char(i) {
            assert(s@.subrange(0, np as int)[i as int] != p@[i as int]);
            return false;
        }
        i += 1;
    }
    proof {
        assert(s@.subrange(0, np as int) =~= p@);
    }
    true
}

/// Relies on `String::push`: appends exactly the given character.
#[verifier::external_body]
pub fn push_char(s: &mut String, c: char)
    ensures
        final(s)@ == old(s)@.push(c),
{
    s.push(c);
}

/// Concatenation of two string slices into an owned string.
pub fn concat_str(a: &str, b: &str) -> (r: String)
    ensures
        r@ == a@ + b@,
{
    let mut s = a.to_owned();
    s.append(b);
    s
}

/// The pieces of `s` between occurrences of `sep`. Every occurrence
/// separates two pieces, so `n` occurrences give `n + 1` pieces, empty
/// pieces included.
pub open spec fn spec_split_char(s: Seq<char>, sep: char) -> Seq<Seq<char>>
    decreases s.len(),
    via spec_split_char_decreases
{
    match first_index_of(s, sep) {
        None => seq![s],
        Some(i) => seq![s.subrange(0, i)] + spec_split_char(
            s.subrange(i + 1, s.len() as int),
            sep,
        ),
    }
}

#[via_fn]
proof fn spec_split_char_decreases(s: Seq<char>, sep: char) {
    lemma_first_index_of_props(s, sep);
}

/// Splits `s` at every occurrence of `sep`, keeping empty pieces.
pub fn split_on_char(s: &str, sep: char) -> (r: Vec<String>)
    ensures
        r.deep_view() == spec_split_char(s@, sep),
{
    let mut out: Vec<String> = Vec::new();
    let mut rest: &str = s;
    loop
        invariant_except_break
            spec_split_char(s@, sep) =~= out.deep_view() + spec_split_char(rest@, sep),
        ensures
            out.deep_view() == spec_split_char(s@, sep),
        decreases rest@.len(),
    {
        let ghost prev = out.deep_view();
        let n = rest.unicode_len();
        match find_char(rest, sep) {
            Some(i) => {
                proof {
                    lemma_first_index_of_props(rest@, sep);
                }
                let piece = substring_string(rest, 0, i);
                out.push(piece);
                proof {
                    assert(out.deep_view() =~= prev.push(rest@.subrange(0, i as int)));
                }
                rest = rest.substring_char(i + 1, n);
            },
            None => {
                out.push(rest.to_owned());
                proof {
                    assert(out.deep_view() =~= prev.push(rest@));
                    assert(out.deep_view() =~= spec_split_char(s@, sep));
                }
                break;
            },
        }
    }
    out
}

/// The whitespace characters recognized by the splitter: space, tab,
/// newline, carriage return, and form feed.
pub open spec fn spec_is_space(c: char) -> bool {
    c == ' ' || c == '\t' || c == '\n' || c == '\r' || c == '\u{0c}'
}

#[verifier::when_used_as_spec(spec_is_space)]
pub fn is_space(c: char) -> (r: bool)
    ensures
        r == spec_is_space(c),
{
    c == ' ' || c == '\t' || c == '\n' || c == '\r' || c == '\u{0c}'
}

/// Index of the first whitespace character in `s`, if any.
pub open spec fn first_space(s: Seq<char>) -> Option<int>
    decreases s.len(),
{
    if s.len() == 0 {
        None
    } else if spec_is_space(s[0]) {
        Some(0int)
    } else {
        match first_space(s.skip(1)) {
            Some(i) => Some(i + 1),
            None => None,
        }
    }
}

pub proof fn lemma_first_space_props(s: Seq<char>)
    ensures
        match first_space(s) {
            Some(i) => 0 <= i < s.len() && spec_is_space(s[i]) && forall|j: int|
                0 <= j < i ==> !spec_is_space(s[j]),
            None => forall|j: int| 0 <= j < s.len() ==> !spec_is_space(s[j]),
        },
    decreases s.len(),
{
    if s.len() != 0 && !spec_is_space(s[0]) {
        let t = s.skip(1);
        lemma_first_space_props(t);
        assert(forall|j: int| 0 <= j < t.len() ==> t[j] == s[j + 1]);
        match first_space(t) {
            Some(i) => {
                assert(spec_is_space(t[i]));
                assert forall|j: int| 0 <= j < i + 1 implies !spec_is_space(s[j]) by {
                    if j > 0 {
                        assert(!spec_is_space(t[j - 1]));
                    }
                }
            },
            None => {
                assert forall|j: int| 0 <= j < s.len() implies !spec_is_space(s[j]) by {
                    if j > 0 {
                        assert(!spec_is_space(t[j - 1]));
                    }
                }
            },
        }
    }
}

proof fn lemma_first_space_is(s: Seq<char>, i: int)
    requires
        0 <= i < s.len(),
        spec_is_space(s[i]),
        forall|j: int| 0 <= j < i ==> !spec_is_space(s[j]),
    ensures
        first_space(s) == Some(i),
    decreases s.len(),
{
    if i > 0 {
        lemma_first_space_is(s.skip(1), i - 1);
    }
}

proof fn lemma_first_space_none(s: Seq<char>)
    requires
        forall|j: int| 0 <= j < s.len() ==> !spec_is_space(s[j]),
    ensures
        first_space(s) is None,
    decreases s.len(),
{
    if s.len() != 0 {
        lemma_first_space_none(s.skip(1));
    }
}

fn find_space(s: &str) -> (r: Option<usize>)
    ensures
        match r {
            Some(i) => first_space(s@) == Some(i as int),
            None => first_space(s@) is None,
        },
{
    let n = s.unicode_len();
    let mut i: usize = 0;
    while i < n
        invariant
            0 <= i <= n,
            n == s@.len(),
            forall|j: int| 0 <= j < i ==> !spec_is_space(s@[j]),
        decreases n - i,
    {
        if is_space(s.get_char(i)) {
            proof {
                lemma_first_space_is(s@, i as int);
            }
            return Some(i);
        }
        i += 1;
    }
    proof {
        lemma_first_space_none(s@);
    }
    None
}

/// The maximal whitespace-free words of `s`, in order, with no empty words.
pub open spec fn spec_split_whitespace(s: Seq<char>) -> Seq<Seq<char>>
    decreases s.len(),
    via spec_split_whitespace_decreases
{
    if s.len() == 0 {
        Seq::empty()
    } else if spec_is_space(s[0]) {
        spec_split_whitespace(s.skip(1))
    } else {
        match first_space(s) {
            None => seq![s],
            Some(i) => seq![s.subrange(0, i)] + spec_split_whitespace(
                s.subrange(i, s.len() as int),
            ),
        }
    }
}

#[via_fn]
proof fn spec_split_whitespace_decreases(s: Seq<char>) {
    lemma_first_space_props(s);
}

/// Splits `s` into its whitespace-separated words.
pub fn split_whitespace_str(s: &str) -> (r: Vec<String>)
    ensures
        r.deep_view() == spec_split_whitespace(s@),
{
    let mut out: Vec<String> = Vec::new();
    let mut rest: &str = s;
    loop
        invariant_except_break
            spec_split_whitespace(s@) =~= out.deep_view() + spec_split_whitespace(rest@),
        ensures
            out.deep_view() == spec_split_whitespace(s@),
        decreases rest@.len(),
    {
        let ghost prev = out.deep_view();
        let n = rest.unicode_len();
        if n == 0 {
            proof {
                assert(out.deep_view() + spec_split_whitespace(rest@) =~= out.deep_view());
            }
            break;
        }
        if is_space(rest.get_char(0)) {
            rest = rest.substring_char(1, n);
        } else {
            match find_space(rest) {
                Some(i) => {
                    proof {
                        lemma_first_space_props(rest@);
                    }
                    let piece = substring_string(rest, 0, i);
                    out.push(piece);
                    proof {
                        assert(out.deep_view() =~= prev.push(rest@.subrange(0, i as int)));
                    }
                    rest = rest.substring_char(i, n);
                },
                None => {
                    out.push(rest.to_owned());
                    proof {
                        assert(out.deep_view() =~= prev.push(rest@));
                        assert(out.deep_view() =~= spec_split_whitespace(s@));
                    }
                    break;
                },
            }
        }
    }
    out
}

/// Copy of the character range `[from, to)` of `s` as an owned string.
pub fn substring_string(s: &str, from: usize, to: usize) -> (r: String)
    requires
        from <= to <= s@.len(),
    ensures
        r@ == s@.subrange(from as int, to as int),
{
    s.substring_char(from, to).to_owned()
}

} // verus!
