//! The dispatch coordinator: the logic of the one user-facing process.
//!
//! The coordinator resolves the workspace's packages and targets (the
//! caller queries the build orchestrator and hands the result in as
//! plain values), selects the compilation targets the chosen crate
//! filter asks for, and prepares the environment and argument list under
//! which the orchestrator is re-invoked so that every compiler
//! invocation passes through the driver's decision.

use vstd::prelude::*;

use crate::paths::is_ancestor;
use crate::paths::parent_dir;
use crate::paths::file_stem;
use crate::paths::spec_file_stem;
use crate::paths::spec_is_ancestor;
use crate::paths::spec_parent;
use crate::args::spec_ser;
use crate::args::ArgsSpec;
use crate::args::ArgsValue;
use crate::plugin::CrateFilter;
use crate::strutil::push_char;
use vstd::pervasive::unreached;
use crate::strutil::spec_split_char;
use crate::strutil::spec_split_whitespace;
use crate::strutil::split_on_char;
use crate::strutil::split_whitespace_str;
use crate::strutil::str_eq;

verus! {

/// One compilation artifact of a package: its name, its kind strings
/// (such as `lib`, `bin`, or `proc-macro`), and the source file it is
/// built from.
pub struct Target {
    pub name: String,
    pub kind: Vec<String>,
    pub src_path: String,
}

/// One workspace package and its targets.
pub struct Package {
    pub name: String,
    pub version: String,
    pub targets: Vec<Target>,
}

/// `t` lists `k` among its kind strings.
pub open spec fn has_kind(t: Target, k: Seq<char>) -> bool {
    exists|i: int| 0 <= i < t.kind.deep_view().len() && t.kind.deep_view()[i] == k
}

/// The directory of `t`'s source file is an ancestor of `file`.
pub open spec fn target_matches(t: Target, file: Seq<char>) -> bool {
    spec_is_ancestor(spec_parent(t.src_path@), file)
}

fn has_kind_exec(t: &Target, k: &str) -> (r: bool)
    ensures
        r == has_kind(*t, k@),
{
    let n = t.kind.len();
    let mut i: usize = 0;
    while i < n
        invariant
            0 <= i <= n,
            n == t.kind.deep_view().len(),
            forall|j: int| 0 <= j < i ==> t.kind.deep_view()[j] != k@,
        decreases n - i,
    {
        if str_eq(t.kind[i].as_str(), k) {
            proof {
                assert(t.kind.deep_view()[i as int] == k@);
            }
            return true;
        }
        i += 1;
    }
    false
}

fn target_matches_exec(t: &Target, file: &str) -> (r: bool)
    ensures
        r == target_matches(*t, file@),
{
    let dir = parent_dir(t.src_path.as_str());
    is_ancestor(dir.as_str(), file)
}

/// Index of the first target satisfying `p`, if any.
pub open spec fn first_match(ts: Seq<Target>, p: spec_fn(Target) -> bool) -> Option<int>
    decreases ts.len(),
{
    if ts.len() == 0 {
        None
    } else if p(ts[0]) {
        Some(0int)
    } else {
        match first_match(ts.skip(1), p) {
            Some(i) => Some(i + 1),
            None => None,
        }
    }
}

pub proof fn lemma_first_match_props(ts: Seq<Target>, p: spec_fn(Target) -> bool)
    ensures
        match first_match(ts, p) {
            Some(i) => 0 <= i < ts.len() && p(ts[i]) && forall|j: int| 0 <= j < i ==> !p(ts[j]),
            None => forall|j: int| 0 <= j < ts.len() ==> !p(ts[j]),
        },
    decreases ts.len(),
{
    if ts.len() != 0 && !p(ts[0]) {
        let t = ts.skip(1);
        lemma_first_match_props(t, p);
        assert(forall|j: int| 0 <= j < t.len() ==> t[j] == ts[j + 1]);
        match first_match(t, p) {
            Some(i) => {
                assert forall|j: int| 0 <= j < i + 1 implies !p(ts[j]) by {
                    if j > 0 {
                        assert(!p(t[j - 1]));
                    }
                }
            },
            None => {
                assert forall|j: int| 0 <= j < ts.len() implies !p(ts[j]) by {
                    if j > 0 {
                        assert(!p(t[j - 1]));
                    }
                }
            },
        }
    }
}

proof fn lemma_first_match_is(ts: Seq<Target>, p: spec_fn(Target) -> bool, i: int)
    requires
        0 <= i < ts.len(),
        p(ts[i]),
        forall|j: int| 0 <= j < i ==> !p(ts[j]),
    ensures
        first_match(ts, p) == Some(i),
    decreases ts.len(),
{
    if i > 0 {
        lemma_first_match_is(ts.skip(1), p, i - 1);
    }
}

proof fn lemma_first_match_none(ts: Seq<Target>, p: spec_fn(Target) -> bool)
    requires
        forall|j: int| 0 <= j < ts.len() ==> !p(ts[j]),
    ensures
        first_match(ts, p) is None,
    decreases ts.len(),
{
    if ts.len() != 0 {
        lemma_first_match_none(ts.skip(1), p);
    }
}

/// How many targets satisfy `p`.
pub open spec fn count_match(ts: Seq<Target>, p: spec_fn(Target) -> bool) -> int
    decreases ts.len(),
{
    if ts.len() == 0 {
        0
    } else {
        (if p(ts[0]) {
            1int
        } else {
            0int
        }) + count_match(ts.skip(1), p)
    }
}

proof fn lemma_count_match_push(ts: Seq<Target>, p: spec_fn(Target) -> bool, t: Target)
    ensures
        count_match(ts.push(t), p) == count_match(ts, p) + (if p(t) {
            1int
        } else {
            0int
        }),
    decreases ts.len(),
{
    let q = ts.push(t);
    if ts.len() == 0 {
        assert(q[0] == t);
        assert(q.skip(1) =~= Seq::<Target>::empty());
        assert(count_match(q.skip(1), p) == 0);
    } else {
        assert(q[0] == ts[0]);
        assert(q.skip(1) =~= ts.skip(1).push(t));
        lemma_count_match_push(ts.skip(1), p, t);
    }
}

/// The predicate of a target whose source directory contains `file`.
pub open spec fn pred_matching(file: Seq<char>) -> spec_fn(Target) -> bool {
    |t: Target| target_matches(t, file)
}

/// ... and whose name is the file's stem.
pub open spec fn pred_name_is_stem(file: Seq<char>) -> spec_fn(Target) -> bool {
    |t: Target| target_matches(t, file) && t.name@ == spec_file_stem(file)
}

/// ... and which lists the kind `k`.
pub open spec fn pred_with_kind(file: Seq<char>, k: Seq<char>) -> spec_fn(Target) -> bool {
    |t: Target| target_matches(t, file) && has_kind(t, k)
}

/// No target whose source directory contains `file` is a library.
pub open spec fn only_bin_matches(ts: Seq<Target>, file: Seq<char>) -> bool {
    forall|j: int|
        0 <= j < ts.len() && (pred_matching(file))(ts[j]) ==> !has_kind(ts[j], "lib"@)
}

/// Which target of one package owns `file`: the only one whose source
/// directory contains it; with several candidates, the first whose name
/// is the file's stem; failing that, the first binary when no candidate
/// is a library, and otherwise the first of the conventional kind — a
/// binary for the platform's main-entry stem, a library for any other.
pub open spec fn spec_choose_target(ts: Seq<Target>, file: Seq<char>) -> Option<int> {
    let n = count_match(ts, pred_matching(file));
    if n == 0 {
        None
    } else if n == 1 {
        first_match(ts, pred_matching(file))
    } else {
        match first_match(ts, pred_name_is_stem(file)) {
            Some(i) => Some(i),
            None => {
                if only_bin_matches(ts, file) {
                    first_match(ts, pred_with_kind(file, "bin"@))
                } else {
                    let want = if spec_file_stem(file) == "main"@ {
                        "bin"@
                    } else {
                        "lib"@
                    };
                    first_match(ts, pred_with_kind(file, want))
                }
            },
        }
    }
}

#[verifier::loop_isolation(false)]
fn find_matching(ts: &Vec<Target>, file: &str) -> (r: Option<usize>)
    ensures
        match r {
            Some(i) => first_match(ts@, pred_matching(file@)) == Some(i as int),
            None => first_match(ts@, pred_matching(file@)) is None,
        },
{
    let ghost p = pred_matching(file@);
    let n = ts.len();
    let mut i: usize = 0;
    while i < n
        invariant
            0 <= i <= n,
            forall|j: int| 0 <= j < i ==> !p(ts@[j]),
        decreases n - i,
    {
        if target_matches_exec(&ts[i], file) {
            proof {
                assert(p(ts@[i as int]));
                lemma_first_match_is(ts@, p, i as int);
            }
            return Some(i);
        }
        proof {
            assert(!p(ts@[i as int]));
        }
        i += 1;
    }
    proof {
        lemma_first_match_none(ts@, p);
    }
    None
}

#[verifier::loop_isolation(false)]
fn find_name_is_stem(ts: &Vec<Target>, file: &str) -> (r: Option<usize>)
    ensures
        match r {
            Some(i) => first_match(ts@, pred_name_is_stem(file@)) == Some(i as int),
            None => first_match(ts@, pred_name_is_stem(file@)) is None,
        },
{
    let ghost p = pred_name_is_stem(file@);
    let stem = file_stem(file);
    let n = ts.len();
    let mut i: usize = 0;
    while i < n
        invariant
            0 <= i <= n,
            stem@ == spec_file_stem(file@),
            forall|j: int| 0 <= j < i ==> !p(ts@[j]),
        decreases n - i,
    {
        if target_matches_exec(&ts[i], file) && str_eq(ts[i].name.as_str(), stem.as_str()) {
            proof {
                assert(p(ts@[i as int]));
                lemma_first_match_is(ts@, p, i as int);
            }
            return Some(i);
        }
        proof {
            assert(!p(ts@[i as int]));
        }
        i += 1;
    }
    proof {
        lemma_first_match_none(ts@, p);
    }
    None
}

#[verifier::loop_isolation(false)]
fn find_with_kind(ts: &Vec<Target>, file: &str, k: &str) -> (r: Option<usize>)
    ensures
        match r {
            Some(i) => first_match(ts@, pred_with_kind(file@, k@)) == Some(i as int),
            None => first_match(ts@, pred_with_kind(file@, k@)) is None,
        },
{
    let ghost p = pred_with_kind(file@, k@);
    let n = ts.len();
    let mut i: usize = 0;
    while i < n
        invariant
            0 <= i <= n,
            forall|j: int| 0 <= j < i ==> !p(ts@[j]),
        decreases n - i,
    {
        if target_matches_exec(&ts[i], file) && has_kind_exec(&ts[i], k) {
            proof {
                assert(p(ts@[i as int]));
                lemma_first_match_is(ts@, p, i as int);
            }
            return Some(i);
        }
        proof {
            assert(!p(ts@[i as int]));
        }
        i += 1;
    }
    proof {
        lemma_first_match_none(ts@, p);
    }
    None
}

#[verifier::loop_isolation(false)]
fn count_matching(ts: &Vec<Target>, file: &str) -> (r: usize)
    ensures
        r == count_match(ts@, pred_matching(file@)),
{
    let ghost p = pred_matching(file@);
    let n = ts.len();
    let mut i: usize = 0;
    let mut c: usize = 0;
    proof {
        assert(ts@.subrange(0, 0) =~= Seq::<Target>::empty());
    }
    while i < n
        invariant
            0 <= i <= n,
            c <= i,
            c == count_match(ts@.subrange(0, i as int), p),
        decreases n - i,
    {
        let ghost prefix = ts@.subrange(0, i as int);
        if target_matches_exec(&ts[i], file) {
            c += 1;
        }
        proof {
            lemma_count_match_push(prefix, p, ts@[i as int]);
            assert(ts@.subrange(0, i + 1int) =~= prefix.push(ts@[i as int]));
        }
        i += 1;
    }
    proof {
        assert(ts@.subrange(0, n as int) =~= ts@);
    }
    c
}

#[verifier::loop_isolation(false)]
fn only_bin_exec(ts: &Vec<Target>, file: &str) -> (r: bool)
    ensures
        r == only_bin_matches(ts@, file@),
{
    let n = ts.len();
    let mut i: usize = 0;
    while i < n
        invariant
            0 <= i <= n,
            forall|j: int|
                0 <= j < i && (pred_matching(file@))(ts@[j]) ==> !has_kind(ts@[j], "lib"@),
        decreases n - i,
    {
        if target_matches_exec(&ts[i], file) && has_kind_exec(&ts[i], "lib") {
            proof {
                assert((pred_matching(file@))(ts@[i as int]));
            }
            return false;
        }
        i += 1;
    }
    true
}

/// Which target of one package owns `file`, per the documented
/// disambiguation order; the returned index points into `ts`.
pub fn choose_target(ts: &Vec<Target>, file: &str) -> (r: Option<usize>)
    ensures
        match r {
            Some(i) => spec_choose_target(ts@, file@) == Some(i as int) && i < ts@.len(),
            None => spec_choose_target(ts@, file@) is None,
        },
{
    let c = count_matching(ts, file);
    proof {
        lemma_first_match_props(ts@, pred_matching(file@));
        lemma_first_match_props(ts@, pred_name_is_stem(file@));
        lemma_first_match_props(ts@, pred_with_kind(file@, "bin"@));
        lemma_first_match_props(ts@, pred_with_kind(file@, "lib"@));
    }
    if c == 0 {
        None
    } else if c == 1 {
        find_matching(ts, file)
    } else {
        match find_name_is_stem(ts, file) {
            Some(i) => Some(i),
            None => {
                if only_bin_exec(ts, file) {
                    find_with_kind(ts, file, "bin")
                } else {
                    let stem = file_stem(file);
                    if str_eq(stem.as_str(), "main") {
                        find_with_kind(ts, file, "bin")
                    } else {
                        find_with_kind(ts, file, "lib")
                    }
                }
            },
        }
    }
}

/// A package owns `file` when one of its targets does.
pub open spec fn pkg_has_target(p: Package, file: Seq<char>) -> bool {
    spec_choose_target(p.targets@, file) is Some
}

/// How many packages own `file`.
pub open spec fn count_pkg_match(pkgs: Seq<Package>, file: Seq<char>) -> int
    decreases pkgs.len(),
{
    if pkgs.len() == 0 {
        0
    } else {
        (if pkg_has_target(pkgs[0], file) {
            1int
        } else {
            0int
        }) + count_pkg_match(pkgs.skip(1), file)
    }
}

/// Index of the first package that owns `file`, if any.
pub open spec fn first_pkg_match(pkgs: Seq<Package>, file: Seq<char>) -> Option<int>
    decreases pkgs.len(),
{
    if pkgs.len() == 0 {
        None
    } else if pkg_has_target(pkgs[0], file) {
        Some(0int)
    } else {
        match first_pkg_match(pkgs.skip(1), file) {
            Some(i) => Some(i + 1),
            None => None,
        }
    }
}

proof fn lemma_first_pkg_match_is(pkgs: Seq<Package>, file: Seq<char>, i: int)
    requires
        0 <= i < pkgs.len(),
        pkg_has_target(pkgs[i], file),
        forall|j: int| 0 <= j < i ==> !pkg_has_target(pkgs[j], file),
    ensures
        first_pkg_match(pkgs, file) == Some(i),
    decreases pkgs.len(),
{
    if i > 0 {
        lemma_first_pkg_match_is(pkgs.skip(1), file, i - 1);
    }
}

proof fn lemma_count_pkg_match_push(pkgs: Seq<Package>, file: Seq<char>, p: Package)
    ensures
        count_pkg_match(pkgs.push(p), file) == count_pkg_match(pkgs, file) + (if pkg_has_target(
            p,
            file,
        ) {
            1int
        } else {
            0int
        }),
    decreases pkgs.len(),
{
    let q = pkgs.push(p);
    if pkgs.len() == 0 {
        assert(q[0] == p);
        assert(q.skip(1) =~= Seq::<Package>::empty());
        assert(count_pkg_match(q.skip(1), file) == 0);
    } else {
        assert(q[0] == pkgs[0]);
        assert(q.skip(1) =~= pkgs.skip(1).push(p));
        lemma_count_pkg_match_push(pkgs.skip(1), file, p);
    }
}

/// What the coordinator tells the orchestrator to build.
#[derive(Clone, Copy, Debug, PartialEq, Eq, Structural)]
pub enum TargetSelection {
    /// Build the whole workspace; `all_crates` records whether the
    /// plugin also runs on transitive dependencies.
    All { all_crates: bool },
    /// Build one target of one package, given by index.
    File { package: usize, target: usize },
}

/// Why no target selection could be made. Both are configuration
/// errors: the caller reports them and exits.
#[derive(Debug, PartialEq, Eq)]
pub enum SelectError {
    /// No workspace target's source directory contains the given file;
    /// carries that file's path.
    NoMatchingTarget(String),
    /// More than one package owns the given file.
    AmbiguousTarget,
}

/// Selects the compilation targets for a crate filter. The broad
/// filters build everything and differ only in the marker recorded for
/// the driver; a file filter must resolve exactly one owning
/// target, and zero or several owners are errors.
#[verifier::loop_isolation(false)]
pub fn select_targets(filter: &CrateFilter, packages: &Vec<Package>) -> (r: Result<
    TargetSelection,
    SelectError,
>)
    ensures
        ({
            let pkgs = packages@;
            match filter {
                CrateFilter::AllCrates => r == Result::<TargetSelection, SelectError>::Ok(
                    (TargetSelection::All { all_crates: true }),
                ),
                CrateFilter::OnlyWorkspace => r == Result::<TargetSelection, SelectError>::Ok(
                    (TargetSelection::All { all_crates: false }),
                ),
                CrateFilter::CrateContainingFile(path) => {
                    let file = path@;
                    &&& count_pkg_match(pkgs, file) == 0 ==> (match r {
                        Result::Err(SelectError::NoMatchingTarget(s)) => s@ == file,
                        _ => false,
                    })
                    &&& count_pkg_match(pkgs, file) == 1 ==> (match r {
                        Result::Ok(TargetSelection::File { package, target }) => {
                            &&& first_pkg_match(pkgs, file) == Some(package as int)
                            &&& package < pkgs.len()
                            &&& spec_choose_target(pkgs[package as int].targets@, file) == Some(
                                target as int,
                            )
                            &&& target < pkgs[package as int].targets@.len()
                        },
                        _ => false,
                    })
                    &&& count_pkg_match(pkgs, file) >= 2 ==> r == Result::<
                        TargetSelection,
                        SelectError,
                    >::Err(SelectError::AmbiguousTarget)
                },
            }
        }),
{
    match filter {
        CrateFilter::AllCrates => Ok(TargetSelection::All { all_crates: true }),
        CrateFilter::OnlyWorkspace => Ok(TargetSelection::All { all_crates: false }),
        CrateFilter::CrateContainingFile(path) => {
            let ghost pkgs = packages@;
            let ghost file = path@;
            let n = packages.len();
            let mut i: usize = 0;
            let mut found: Option<(usize, usize)> = None;
            let mut count: usize = 0;
            proof {
                assert(pkgs.subrange(0, 0) =~= Seq::<Package>::empty());
            }
            while i < n
                invariant
                    0 <= i <= n,
                    count <= i,
                    count == count_pkg_match(pkgs.subrange(0, i as int), file),
                    match found {
                        Some((p, t)) => {
                            &&& count >= 1
                            &&& (p as int) < i
                            &&& first_pkg_match(pkgs, file) == Some(p as int)
                            &&& spec_choose_target(pkgs[p as int].targets@, file) == Some(
                                t as int,
                            )
                            &&& (t as int) < pkgs[p as int].targets@.len()
                        },
                        None => count == 0 && forall|j: int|
                            0 <= j < i ==> !pkg_has_target(pkgs[j], file),
                    },
                decreases n - i,
            {
                let ghost prefix = pkgs.subrange(0, i as int);
                match choose_target(&packages[i].targets, path.as_str()) {
                    Some(t) => {
                        count += 1;
                        if found.is_none() {
                            proof {
                                lemma_first_pkg_match_is(pkgs, file, i as int);
                            }
                            found = Some((i, t));
                        }
                    },
                    None => {},
                }
                proof {
                    lemma_count_pkg_match_push(prefix, file, pkgs[i as int]);
                    assert(pkgs.subrange(0, i + 1int) =~= prefix.push(pkgs[i as int]));
                }
                i += 1;
            }
            proof {
                assert(pkgs.subrange(0, n as int) =~= pkgs);
            }
            if count == 0 {
                Err(SelectError::NoMatchingTarget(path.clone()))
            } else if count == 1 {
                match found {
                    Some((p, t)) => Ok(TargetSelection::File { package: p, target: t }),
                    None => unreached(),
                }
            } else {
                Err(SelectError::AmbiguousTarget)
            }
        },
    }
}

/// The compiler flags a user had already configured, read from the
/// orchestrator's encoded variable when it is set, from the plain
/// whitespace-separated variable otherwise, and empty when neither is.
pub fn prior_rustflags(encoded: Option<String>, plain: Option<String>) -> (r: Vec<String>)
    ensures
        encoded matches Some(e) ==> r.deep_view() == spec_split_char(e@, '\u{1f}'),
        encoded is None ==> (match plain {
            Some(p) => r.deep_view() == spec_split_whitespace(p@),
            None => r.deep_view() == Seq::<Seq<char>>::empty(),
        }),
{
    match encoded {
        Some(e) => split_on_char(e.as_str(), '\u{1f}'),
        None => match plain {
            Some(p) => split_whitespace_str(p.as_str()),
            None => Vec::new(),
        },
    }
}

/// The items joined with `sep` between them; empty for no items.
pub open spec fn spec_join_char(items: Seq<Seq<char>>, sep: char) -> Seq<char>
    decreases items.len(),
{
    if items.len() == 0 {
        Seq::empty()
    } else if items.len() == 1 {
        items[0]
    } else {
        items[0] + seq![sep] + spec_join_char(items.skip(1), sep)
    }
}

proof fn lemma_join_push(items: Seq<Seq<char>>, sep: char, x: Seq<char>)
    requires
        items.len() > 0,
    ensures
        spec_join_char(items.push(x), sep) == spec_join_char(items, sep) + seq![sep] + x,
    decreases items.len(),
{
    let q = items.push(x);
    assert(q[0] == items[0]);
    if items.len() == 1 {
        assert(q.skip(1) =~= seq![x]);
        assert(spec_join_char(q.skip(1), sep) == x);
        assert(spec_join_char(q, sep) =~= items[0] + seq![sep] + x);
        assert(spec_join_char(items, sep) + seq![sep] + x =~= items[0] + seq![sep] + x);
    } else {
        assert(q.skip(1) =~= items.skip(1).push(x));
        lemma_join_push(items.skip(1), sep, x);
        assert(spec_join_char(q, sep) =~= spec_join_char(items, sep) + seq![sep] + x);
    }
}

/// Joins the items with `sep` between them.
#[verifier::loop_isolation(false)]
pub fn join_char(items: &Vec<String>, sep: char) -> (r: String)
    ensures
        r@ == spec_join_char(items.deep_view(), sep),
{
    let ghost dv = items.deep_view();
    let n = items.len();
    if n == 0 {
        return String::new();
    }
    let mut out: String = items[0].clone();
    let mut i: usize = 1;
    proof {
        assert(dv.subrange(0, 1) =~= seq![dv[0]]);
        assert(spec_join_char(dv.subrange(0, 1), sep) == dv[0]);
    }
    while i < n
        invariant
            1 <= i <= n,
            out@ == spec_join_char(dv.subrange(0, i as int), sep),
        decreases n - i,
    {
        let ghost prefix = dv.subrange(0, i as int);
        push_char(&mut out, sep);
        out.append(items[i].as_str());
        proof {
            lemma_join_push(prefix, sep, dv[i as int]);
            assert(dv.subrange(0, i + 1int) =~= prefix.push(dv[i as int]));
        }
        i += 1;
    }
    proof {
        assert(dv.subrange(0, n as int) =~= dv);
    }
    out
}

/// `s` with every dash turned into an underscore, as the compiler
/// spells crate names.
pub open spec fn spec_undash(s: Seq<char>) -> Seq<char> {
    Seq::new(
        s.len(),
        |i: int|
            if s[i] == '-' {
                '_'
            } else {
                s[i]
            },
    )
}

/// Replaces dashes with underscores.
#[verifier::loop_isolation(false)]
pub fn undash(s: &str) -> (r: String)
    ensures
        r@ == spec_undash(s@),
{
    let n = s.unicode_len();
    let mut out = String::new();
    let mut i: usize = 0;
    while i < n
        invariant
            0 <= i <= n,
            out@ =~= spec_undash(s@).subrange(0, i as int),
        decreases n - i,
    {
        let c = s.get_char(i);
        if c == '-' {
            push_char(&mut out, '_');
        } else {
            push_char(&mut out, c);
        }
        proof {
            assert(out@ =~= spec_undash(s@).subrange(0, i + 1int));
        }
        i += 1;
    }
    proof {
        assert(spec_undash(s@).subrange(0, n as int) =~= spec_undash(s@));
    }
    out
}

/// One package is the compiler's own main package, which needs an extra
/// variable set to build.
pub open spec fn spec_has_rustc_main(pkgs: Seq<Package>) -> bool {
    exists|j: int| 0 <= j < pkgs.len() && pkgs[j].name@ == "rustc-main"@
}

#[verifier::loop_isolation(false)]
fn has_rustc_main(packages: &Vec<Package>) -> (r: bool)
    ensures
        r == spec_has_rustc_main(packages@),
{
    let n = packages.len();
    let mut i: usize = 0;
    while i < n
        invariant
            0 <= i <= n,
            forall|j: int| 0 <= j < i ==> packages@[j].name@ != "rustc-main"@,
        decreases n - i,
    {
        if str_eq(packages[i].name.as_str(), "rustc-main") {
            proof {
                assert(packages@[i as int].name@ == "rustc-main"@);
            }
            return true;
        }
        i += 1;
    }
    false
}

/// The argument vector handed to the orchestrator: a full check of the
/// workspace, or a filter down to the one selected package and target.
pub open spec fn spec_cargo_args(
    target_dir: Seq<char>,
    selection: TargetSelection,
    pkgs: Seq<Package>,
) -> Seq<Seq<char>> {
    let base = seq!["check"@, "-vv"@, "--target-dir"@, target_dir];
    match selection {
        TargetSelection::All { .. } => base.push("--all"@),
        TargetSelection::File { package, target } => {
            let pkg = pkgs[package as int];
            let t = pkg.targets@[target as int];
            let kind0 = t.kind.deep_view()[0];
            let with_p = base.push("-p"@).push(pkg.name@ + ":"@ + pkg.version@);
            let with_kind = if kind0 == "proc-macro"@ {
                with_p
            } else {
                with_p.push("--"@ + kind0)
            };
            if kind0 == "proc-macro"@ || kind0 == "lib"@ {
                with_kind
            } else {
                with_kind.push(t.name@)
            }
        },
    }
}

/// The variables the coordinator sets for the orchestrator and, through
/// it, for every driver invocation: the wrapper redirection, the flag
/// pass-through, the crate-filter markers, the serialized plugin
/// arguments, and the compiler-workspace accommodation.
pub open spec fn spec_env_vars(
    driver_path: Seq<char>,
    prior_flags: Seq<Seq<char>>,
    selection: TargetSelection,
    pkgs: Seq<Package>,
    plugin_args: ArgsSpec,
) -> Seq<(Seq<char>, Seq<char>)> {
    let base = seq![
        ("RUSTC_WRAPPER"@, driver_path),
        ("CARGO_ENCODED_RUSTFLAGS"@, spec_join_char(prior_flags, '\u{1f}')),
    ];
    let marked = match selection {
        TargetSelection::All { all_crates } => if all_crates {
            base.push(("RUSTC_PLUGIN_ALL_TARGETS"@, Seq::empty()))
        } else {
            base
        },
        TargetSelection::File { package, target } => {
            let pkg = pkgs[package as int];
            let t = pkg.targets@[target as int];
            base.push(("SPECIFIC_CRATE"@, spec_undash(pkg.name@))).push(
                ("SPECIFIC_TARGET"@, t.kind.deep_view()[0]),
            )
        },
    };
    let with_args = marked.push(("PLUGIN_ARGS"@, spec_ser(plugin_args)));
    if spec_has_rustc_main(pkgs) {
        with_args.push(("CFG_RELEASE"@, Seq::empty()))
    } else {
        with_args
    }
}

/// Everything the coordinator changes about the orchestrator's
/// invocation, as plain values the caller applies to the real process:
/// variables to set, arguments to pass, and — for a library target —
/// the file prefix of stale build artifacts to delete first.
pub struct EnvPatch {
    pub env: Vec<(String, String)>,
    pub cargo_args: Vec<String>,
    pub stale_artifact_prefix: Option<String>,
}

/// Builds the environment patch and argument vector under which the
/// orchestrator is re-invoked. For a selected library target it also
/// names the artifact prefix whose cached files must be deleted, so the
/// orchestrator cannot skip the rerun through its own memoization.
#[verifier::loop_isolation(false)]
pub fn build_environment(
    plugin_args: &ArgsValue,
    selection: &TargetSelection,
    packages: &Vec<Package>,
    driver_path: &str,
    target_dir: &str,
    prior_flags: &Vec<String>,
) -> (r: EnvPatch)
    requires
        (match *selection {
            TargetSelection::File { package, target } => package < packages@.len() && target
                < packages@[package as int].targets@.len() && packages@[
                package as int
            ].targets@[target as int].kind.deep_view().len() > 0,
            TargetSelection::All { .. } => true,
        }),
    ensures
        r.cargo_args.deep_view() == spec_cargo_args(target_dir@, *selection, packages@),
        r.env.deep_view() == spec_env_vars(
            driver_path@,
            prior_flags.deep_view(),
            *selection,
            packages@,
            plugin_args.model(),
        ),
        r.stale_artifact_prefix.deep_view() == (match *selection {
            TargetSelection::File { package, target } => {
                if packages@[package as int].targets@[target as int].kind.deep_view()[0]
                    == "lib"@ {
                    Some("lib"@ + spec_undash(packages@[package as int].name@))
                } else {
                    None
                }
            },
            TargetSelection::All { .. } => None,
        }),
{
    let ghost pkgs = packages@;
    let mut cargo_args: Vec<String> = Vec::new();
    cargo_args.push("check".to_owned());
    cargo_args.push("-vv".to_owned());
    cargo_args.push("--target-dir".to_owned());
    cargo_args.push(target_dir.to_owned());
    let mut env: Vec<(String, String)> = Vec::new();
    env.push(("RUSTC_WRAPPER".to_owned(), driver_path.to_owned()));
    env.push(("CARGO_ENCODED_RUSTFLAGS".to_owned(), join_char(prior_flags, '\u{1f}')));
    let mut stale_artifact_prefix: Option<String> = None;
    match selection {
        TargetSelection::All { all_crates } => {
            cargo_args.push("--all".to_owned());
            if *all_crates {
                env.push(("RUSTC_PLUGIN_ALL_TARGETS".to_owned(), String::new()));
            }
        },
        TargetSelection::File { package, target } => {
            let pkg = &packages[*package];
            let t = &pkg.targets[*target];
            let kind0: &str = t.kind[0].as_str();
            cargo_args.push("-p".to_owned());
            let mut spec_arg = pkg.name.clone();
            spec_arg.append(":");
            spec_arg.append(pkg.version.as_str());
            cargo_args.push(spec_arg);
            if !str_eq(kind0, "proc-macro") {
                cargo_args.push(crate::strutil::concat_str("--", kind0));
            }
            if !str_eq(kind0, "proc-macro") && !str_eq(kind0, "lib") {
                cargo_args.push(t.name.clone());
            }
            env.push(("SPECIFIC_CRATE".to_owned(), undash(pkg.name.as_str())));
            env.push(("SPECIFIC_TARGET".to_owned(), kind0.to_owned()));
            if str_eq(kind0, "lib") {
                stale_artifact_prefix = Some(crate::strutil::concat_str(
                    "lib",
                    undash(pkg.name.as_str()).as_str(),
                ));
            }
        },
    }
    env.push(("PLUGIN_ARGS".to_owned(), plugin_args.serialize()));
    if has_rustc_main(packages) {
        env.push(("CFG_RELEASE".to_owned(), String::new()));
    }
    proof {
        assert(cargo_args.deep_view() =~= spec_cargo_args(target_dir@, *selection, pkgs));
        assert(env.deep_view() =~= spec_env_vars(
            driver_path@,
            prior_flags.deep_view(),
            *selection,
            pkgs,
            plugin_args.model(),
        ));
    }
    EnvPatch { env, cargo_args, stale_artifact_prefix }
}

} // verus!
