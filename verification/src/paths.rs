//! Path arithmetic on `/`-separated path strings: the base name, the file
//! stem, the parent directory, and the ancestor relation. Callers are
//! expected to hand in normalized absolute paths.

use vstd::prelude::*;

use crate::strutil::last_index_of;
use crate::strutil::lemma_last_index_of_props;
use crate::strutil::rfind_char;
use crate::strutil::spec_starts_with;
use crate::strutil::starts_with_str;
use crate::strutil::str_eq;
use crate::strutil::substring_string;
use crate::strutil::concat_str;

verus! {

/// The part of `p` after its last `/`, or all of `p` if it has none.
pub open spec fn spec_basename(p: Seq<char>) -> Seq<char> {
    match last_index_of(p, '/') {
        None => p,
        Some(i) => p.subrange(i + 1, p.len() as int),
    }
}

/// The base name of `p` without its extension: everything before the last
/// `.` of the base name, unless that `.` is its first character.
pub open spec fn spec_file_stem(p: Seq<char>) -> Seq<char> {
    let b = spec_basename(p);
    match last_index_of(b, '.') {
        Some(i) => if i > 0 {
            b.subrange(0, i)
        } else {
            b
        },
        None => b,
    }
}

/// The directory part of `p`: everything before the last `/`. A path in
/// the root directory keeps the leading `/`; a bare file name has the
/// empty string as its parent.
pub open spec fn spec_parent(p: Seq<char>) -> Seq<char> {
    match last_index_of(p, '/') {
        None => Seq::empty(),
        Some(i) => if i == 0 {
            seq!['/']
        } else {
            p.subrange(0, i)
        },
    }
}

/// `dir` is `p` itself or a directory above it.
pub open spec fn spec_is_ancestor(dir: Seq<char>, p: Seq<char>) -> bool {
    ||| p == dir
    ||| (dir.len() > 0 && dir[dir.len() - 1] == '/' && spec_starts_with(p, dir))
    ||| spec_starts_with(p, dir.push('/'))
}

pub fn basename(p: &str) -> (r: String)
    ensures
        r@ == spec_basename(p@),
{
    let n = p.unicode_len();
    match rfind_char(p, '/') {
        None => p.to_owned(),
        Some(i) => {
            proof {
                lemma_last_index_of_props(p@, '/');
            }
            substring_string(p, i + 1, n)
        },
    }
}

pub fn file_stem(p: &str) -> (r: String)
    ensures
        r@ == spec_file_stem(p@),
{
    let b = basename(p);
    let bs = b.as_str();
    match rfind_char(bs, '.') {
        Some(i) if i > 0 => {
            proof {
                lemma_last_index_of_props(bs@, '.');
            }
            substring_string(bs, 0, i)
        },
        _ => b,
    }
}

pub fn parent_dir(p: &str) -> (r: String)
    ensures
        r@ == spec_parent(p@),
{
    match rfind_char(p, '/') {
        None => String::new(),
        Some(i) => {
            proof {
                lemma_last_index_of_props(p@, '/');
            }
            if i == 0 {
                let r = "/".to_owned();
                proof {
                    reveal_strlit("/");
                    assert(r@ =~= seq!['/']);
                }
                r
            } else {
                substring_string(p, 0, i)
            }
        },
    }
}

pub fn is_ancestor(dir: &str, p: &str) -> (r: bool)
    ensures
        r == spec_is_ancestor(dir@, p@),
{
    if str_eq(p, dir) {
        return true;
    }
    let n = dir.unicode_len();
    if n > 0 && dir.get_char(n - 1) == '/' {
        if starts_with_str(p, dir) {
            return true;
        }
    }
    let with_sep = concat_str(dir, "/");
    proof {
        reveal_strlit("/");
        assert(with_sep@ =~= dir@.push('/'));
    }
    starts_with_str(p, with_sep.as_str())
}

} // verus!
