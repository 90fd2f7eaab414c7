//! The driver's decision logic, run once per compiler invocation
//! spawned by the build orchestrator.
//!
//! Each such process must decide whether it is the one that should run
//! the custom analysis or whether it should hand the invocation to the
//! real compiler unchanged. The decision reads only the invocation's
//! argument vector and the environment markers set by the coordinator
//! and the orchestrator; [`plan_driver`] states it as a function from
//! those plain values to one of the driver's actions. The process glue
//! — reading the real environment, spawning the compiler — sits outside
//! the library and merely carries values in and out.

use vstd::prelude::*;

use crate::args::deserialize;
use crate::args::spec_ser;
use crate::args::ArgsSpec;
use crate::args::ArgsValue;
use crate::paths::spec_file_stem;
use crate::paths::file_stem;
use crate::strutil::concat_str;
use crate::strutil::find_char;
use crate::strutil::first_index_of;
use crate::strutil::lemma_first_index_of_props;
use crate::strutil::str_eq;

verus! {

/// Whether a found option value satisfies the caller: any value at all,
/// or one particular expected value.
pub open spec fn accepts(expected: Option<Seq<char>>, v: Seq<char>) -> bool {
    match expected {
        None => true,
        Some(e) => v == e,
    }
}

/// The value of the command-line option `find` in `args`, under the
/// convention that an option is passed either as `--opt=value` or as
/// `--opt value`. A candidate value that the caller does not accept is
/// skipped — together with the argument that carried it — and the scan
/// goes on.
pub open spec fn spec_arg_value(
    args: Seq<Seq<char>>,
    find: Seq<char>,
    expected: Option<Seq<char>>,
) -> Option<Seq<char>>
    decreases args.len(),
{
    if args.len() == 0 {
        None
    } else {
        let arg = args[0];
        match first_index_of(arg, '=') {
            Some(i) => {
                if arg.subrange(0, i) == find {
                    let v = arg.subrange(i + 1, arg.len() as int);
                    if accepts(expected, v) {
                        Some(v)
                    } else {
                        spec_arg_value(args.skip(1), find, expected)
                    }
                } else {
                    spec_arg_value(args.skip(1), find, expected)
                }
            },
            None => {
                if arg == find {
                    if args.len() >= 2 {
                        let v = args[1];
                        if accepts(expected, v) {
                            Some(v)
                        } else {
                            spec_arg_value(args.skip(2), find, expected)
                        }
                    } else {
                        None
                    }
                } else {
                    spec_arg_value(args.skip(1), find, expected)
                }
            },
        }
    }
}

fn accepts_exec(expected: Option<&str>, v: &str) -> (r: bool)
    ensures
        r == accepts(expected.deep_view(), v@),
{
    match expected {
        None => true,
        Some(e) => str_eq(v, e),
    }
}

/// Scans `args` for the option `find_arg`, given as `--opt=value` or as
/// `--opt value`, and returns the first value that matches `expected`
/// (any value, when `expected` is `None`).
#[verifier::loop_isolation(false)]
pub fn arg_value<'a>(args: &'a Vec<String>, find_arg: &str, expected: Option<&str>) -> (r: Option<
    &'a str,
>)
    ensures
        match r {
            Some(v) => spec_arg_value(args.deep_view(), find_arg@, expected.deep_view()) == Some(
                v@,
            ),
            None => spec_arg_value(args.deep_view(), find_arg@, expected.deep_view()) is None,
        },
{
    let ghost full = args.deep_view();
    let ghost exp = expected.deep_view();
    let n = args.len();
    let mut i: usize = 0;
    proof {
        assert(full.skip(0) =~= full);
    }
    while i < n
        invariant
            0 <= i <= n,
            spec_arg_value(full, find_arg@, exp) == spec_arg_value(
                full.skip(i as int),
                find_arg@,
                exp,
            ),
        decreases n - i,
    {
        let ghost suf = full.skip(i as int);
        let arg: &str = args[i].as_str();
        proof {
            assert(suf[0] == arg@);
        }
        match find_char(arg, '=') {
            Some(j) => {
                proof {
                    lemma_first_index_of_props(arg@, '=');
                }
                let n_arg = arg.unicode_len();
                let head = arg.substring_char(0, j);
                if str_eq(head, find_arg) {
                    let v = arg.substring_char(j + 1, n_arg);
                    if accepts_exec(expected, v) {
                        return Some(v);
                    }
                }
                proof {
                    assert(suf.skip(1) =~= full.skip(i + 1int));
                }
                i += 1;
            },
            None => {
                if str_eq(arg, find_arg) {
                    if i + 1 < n {
                        let v: &str = args[i + 1].as_str();
                        proof {
                            assert(suf[1] == v@);
                        }
                        if accepts_exec(expected, v) {
                            return Some(v);
                        }
                        proof {
                            assert(suf.skip(2) =~= full.skip(i + 2int));
                        }
                        i += 2;
                    } else {
                        proof {
                            assert(suf.len() == 1);
                        }
                        return None;
                    }
                } else {
                    proof {
                        assert(suf.skip(1) =~= full.skip(i + 1int));
                    }
                    i += 1;
                }
            },
        }
    }
    proof {
        assert(full.skip(n as int).len() == 0);
    }
    None
}

/// The toolchain directory under a toolchain manager's home: present
/// exactly when both the home and the toolchain name are.
pub open spec fn spec_toolchain_path(
    home: Option<Seq<char>>,
    toolchain: Option<Seq<char>>,
) -> Option<Seq<char>> {
    match (home, toolchain) {
        (Some(h), Some(t)) => Some(h + "/toolchains/"@ + t),
        _ => None,
    }
}

/// Joins a toolchain manager's home directory and a toolchain name into
/// the toolchain's path, when both are known.
pub fn toolchain_path(home: Option<String>, toolchain: Option<String>) -> (r: Option<String>)
    ensures
        r.deep_view() == spec_toolchain_path(home.deep_view(), toolchain.deep_view()),
{
    match (home, toolchain) {
        (Some(h), Some(t)) => {
            let mut p = concat_str(h.as_str(), "/toolchains/");
            p.append(t.as_str());
            Some(p)
        },
        _ => None,
    }
}

/// The sysroot hints available to one driver invocation, gathered by the
/// caller from its runtime environment, from asking the real compiler,
/// and from the environment this program was compiled under.
pub struct SysrootEnv {
    pub miri_sysroot: Option<String>,
    pub sysroot: Option<String>,
    pub rustup_home: Option<String>,
    pub multirust_home: Option<String>,
    pub rustup_toolchain: Option<String>,
    pub multirust_toolchain: Option<String>,
    /// What the real compiler printed when asked for its sysroot, if it
    /// was asked; see [`needs_rustc_probe`].
    pub rustc_print_sysroot: Option<String>,
    pub ct_sysroot: Option<String>,
    pub ct_rustup_home: Option<String>,
    pub ct_multirust_home: Option<String>,
    pub ct_rustup_toolchain: Option<String>,
    pub ct_multirust_toolchain: Option<String>,
}

/// The first of two optional values.
pub open spec fn opt_or(a: Option<Seq<char>>, b: Option<Seq<char>>) -> Option<Seq<char>> {
    if a is Some {
        a
    } else {
        b
    }
}

/// The sysroot sources that come before asking the real compiler:
/// the command line, then the runtime environment.
pub open spec fn spec_sysroot_before_probe(
    args: Seq<Seq<char>>,
    env: SysrootEnv,
) -> Option<Seq<char>> {
    opt_or(
        spec_arg_value(args, "--sysroot"@, None),
        opt_or(
            env.miri_sysroot.deep_view(),
            opt_or(
                env.sysroot.deep_view(),
                spec_toolchain_path(
                    opt_or(env.rustup_home.deep_view(), env.multirust_home.deep_view()),
                    opt_or(env.rustup_toolchain.deep_view(), env.multirust_toolchain.deep_view()),
                ),
            ),
        ),
    )
}

/// The full fallback chain for the sysroot, from the most specific
/// source to the least: the command line, the runtime environment, the
/// real compiler's own answer, and the compile-time environment.
pub open spec fn spec_sysroot(args: Seq<Seq<char>>, env: SysrootEnv) -> Option<Seq<char>> {
    opt_or(
        spec_sysroot_before_probe(args, env),
        opt_or(
            env.rustc_print_sysroot.deep_view(),
            opt_or(
                env.ct_sysroot.deep_view(),
                spec_toolchain_path(
                    opt_or(env.ct_rustup_home.deep_view(), env.ct_multirust_home.deep_view()),
                    opt_or(
                        env.ct_rustup_toolchain.deep_view(),
                        env.ct_multirust_toolchain.deep_view(),
                    ),
                ),
            ),
        ),
    )
}

fn clone_opt(o: &Option<String>) -> (r: Option<String>)
    ensures
        r.deep_view() == o.deep_view(),
{
    match o {
        Some(s) => Some(s.clone()),
        None => None,
    }
}

fn opt_or_exec(a: Option<String>, b: Option<String>) -> (r: Option<String>)
    ensures
        r.deep_view() == opt_or(a.deep_view(), b.deep_view()),
{
    match a {
        Some(s) => Some(s),
        None => b,
    }
}

/// True when resolving the sysroot will have to ask the real compiler:
/// neither the command line nor the runtime environment names one.
pub fn needs_rustc_probe(orig_args: &Vec<String>, env: &SysrootEnv) -> (r: bool)
    ensures
        r == (spec_sysroot_before_probe(orig_args.deep_view(), *env) is None),
{
    if arg_value(orig_args, "--sysroot", None).is_some() {
        return false;
    }
    if env.miri_sysroot.is_some() || env.sysroot.is_some() {
        return false;
    }
    let home = opt_or_exec(clone_opt(&env.rustup_home), clone_opt(&env.multirust_home));
    let toolchain = opt_or_exec(
        clone_opt(&env.rustup_toolchain),
        clone_opt(&env.multirust_toolchain),
    );
    !(home.is_some() && toolchain.is_some())
}

/// Resolves the sysroot through the fallback chain and reports whether
/// the command line already carried a `--sysroot` flag.
pub fn get_sysroot(orig_args: &Vec<String>, env: &SysrootEnv) -> (r: (bool, Option<String>))
    ensures
        r.0 == (spec_arg_value(orig_args.deep_view(), "--sysroot"@, None) is Some),
        r.1.deep_view() == spec_sysroot(orig_args.deep_view(), *env),
{
    let from_args: Option<String> = match arg_value(orig_args, "--sysroot", None) {
        Some(v) => Some(v.to_owned()),
        None => None,
    };
    let have_arg = from_args.is_some();
    let runtime_toolchain = toolchain_path(
        opt_or_exec(clone_opt(&env.rustup_home), clone_opt(&env.multirust_home)),
        opt_or_exec(clone_opt(&env.rustup_toolchain), clone_opt(&env.multirust_toolchain)),
    );
    let ct_toolchain = toolchain_path(
        opt_or_exec(clone_opt(&env.ct_rustup_home), clone_opt(&env.ct_multirust_home)),
        opt_or_exec(clone_opt(&env.ct_rustup_toolchain), clone_opt(&env.ct_multirust_toolchain)),
    );
    let sys = opt_or_exec(
        from_args,
        opt_or_exec(
            clone_opt(&env.miri_sysroot),
            opt_or_exec(
                clone_opt(&env.sysroot),
                opt_or_exec(
                    runtime_toolchain,
                    opt_or_exec(
                        clone_opt(&env.rustc_print_sysroot),
                        opt_or_exec(clone_opt(&env.ct_sysroot), ct_toolchain),
                    ),
                ),
            ),
        ),
    );
    (have_arg, sys)
}

/// The environment markers a driver invocation reads: the orchestrator's
/// primary-package marker, and the markers the coordinator set for the
/// chosen crate filter, plus the serialized plugin arguments.
pub struct GateEnv {
    /// The orchestrator marks compilation units of the user's own
    /// project, as opposed to transitive dependencies.
    pub primary_package: bool,
    /// Set by the coordinator when the plugin runs on every crate in the
    /// dependency graph.
    pub run_on_all_crates: bool,
    /// With `specific_target`, set by the coordinator when the plugin
    /// runs on one crate only.
    pub specific_crate: Option<String>,
    pub specific_target: Option<String>,
    /// The serialized plugin arguments.
    pub plugin_args: Option<String>,
}

/// The invocation is one of the orchestrator's probing calls, asking the
/// real compiler for information: those are never intercepted.
pub open spec fn spec_normal_rustc(args: Seq<Seq<char>>) -> bool {
    spec_arg_value(args, "--print"@, None) is Some
}

/// When the coordinator named one crate and target kind, the invocation
/// must declare exactly that crate name and crate type; with no such
/// markers, every invocation passes this check.
pub open spec fn spec_is_target_crate(args: Seq<Seq<char>>, env: GateEnv) -> bool {
    match (env.specific_crate, env.specific_target) {
        (Some(k), Some(t)) => spec_arg_value(args, "--crate-name"@, Some(k@)) is Some
            && spec_arg_value(args, "--crate-type"@, Some(t@)) is Some,
        _ => true,
    }
}

/// The driver's decision: run the plugin exactly when the invocation is
/// not a probing call, the unit is selected (every crate, or the user's
/// own project), and the crate and target markers match.
pub open spec fn spec_run_plugin(args: Seq<Seq<char>>, env: GateEnv) -> bool {
    &&& !spec_normal_rustc(args)
    &&& (env.run_on_all_crates || env.primary_package)
    &&& spec_is_target_crate(args, env)
}

/// The two terminal actions of the driver's decision procedure.
#[derive(Clone, Copy, Debug, PartialEq, Eq, Structural)]
pub enum GateDecision {
    RunPlugin,
    DelegateToRealCompiler,
}

/// Decides whether this invocation runs the plugin or delegates to the
/// real compiler, from its arguments and the environment markers.
pub fn decide(args: &Vec<String>, env: &GateEnv) -> (r: GateDecision)
    ensures
        (r is RunPlugin) == spec_run_plugin(args.deep_view(), *env),
{
    let normal_rustc = arg_value(args, "--print", None).is_some();
    let crate_selected = env.run_on_all_crates || env.primary_package;
    let is_target_crate = match (&env.specific_crate, &env.specific_target) {
        (Some(k), Some(t)) => {
            arg_value(args, "--crate-name", Some(k.as_str())).is_some() && arg_value(
                args,
                "--crate-type",
                Some(t.as_str()),
            ).is_some()
        },
        _ => true,
    };
    if !normal_rustc && crate_selected && is_target_crate {
        GateDecision::RunPlugin
    } else {
        GateDecision::DelegateToRealCompiler
    }
}

/// The orchestrator's wrapper calling convention: the real compiler's
/// path stands as the first argument after the program name.
pub open spec fn spec_wrapper_mode(args: Seq<Seq<char>>) -> bool {
    args.len() >= 2 && spec_file_stem(args[1]) == "rustc"@
}

pub fn is_wrapper_mode(args: &Vec<String>) -> (r: bool)
    ensures
        r == spec_wrapper_mode(args.deep_view()),
{
    if args.len() >= 2 {
        let stem = file_stem(args[1].as_str());
        str_eq(stem.as_str(), "rustc")
    } else {
        false
    }
}

/// A bare version query, answered with this tool's own banner rather
/// than the wrapped compiler's.
pub open spec fn spec_has_version_flag(args: Seq<Seq<char>>) -> bool {
    exists|i: int| 0 <= i < args.len() && (args[i] == "--version"@ || args[i] == "-V"@)
}

#[verifier::loop_isolation(false)]
pub fn has_version_flag(args: &Vec<String>) -> (r: bool)
    ensures
        r == spec_has_version_flag(args.deep_view()),
{
    let n = args.len();
    let mut i: usize = 0;
    while i < n
        invariant
            0 <= i <= n,
            forall|j: int|
                0 <= j < i ==> args.deep_view()[j] != "--version"@ && args.deep_view()[j]
                    != "-V"@,
        decreases n - i,
    {
        if str_eq(args[i].as_str(), "--version") || str_eq(args[i].as_str(), "-V") {
            proof {
                assert(args.deep_view()[i as int] == "--version"@ || args.deep_view()[i as int]
                    == "-V"@);
                assert(spec_has_version_flag(args.deep_view()));
            }
            return true;
        }
        i += 1;
    }
    false
}

/// Why a driver invocation failed before reaching either terminal
/// action.
#[derive(Clone, Copy, Debug, PartialEq, Eq, Structural)]
pub enum DriverError {
    /// No source in the fallback chain named a sysroot.
    MissingSysroot,
    /// The driver decided to run the plugin, but the coordinator's
    /// plugin-argument variable is absent: the coordinator and the
    /// driver are mismatched.
    MissingPluginArgs,
    /// The plugin-argument variable does not decode: likewise a breach
    /// of the coordinator-driver pairing.
    MalformedPluginArgs,
}

/// What one driver invocation should do.
#[derive(Debug, PartialEq, Eq)]
pub enum DriverAction {
    /// Print this tool's own version banner and exit.
    PrintVersion,
    /// Run the plugin on the patched argument vector, with the decoded
    /// plugin arguments.
    RunPlugin(Vec<String>, ArgsValue),
    /// Invoke the real compiler on the patched argument vector.
    Delegate(Vec<String>),
    /// Abort with a nonzero exit code.
    Fail(DriverError),
}

/// The argument vector with the wrapper-convention compiler path
/// stripped.
pub open spec fn spec_stripped_args(args: Seq<Seq<char>>) -> Seq<Seq<char>> {
    if spec_wrapper_mode(args) {
        args.remove(1)
    } else {
        args
    }
}

/// The argument vector handed on: stripped, and with `--sysroot`
/// appended when the invocation did not already carry one.
pub open spec fn spec_patched_args(args: Seq<Seq<char>>, env: SysrootEnv) -> Seq<Seq<char>> {
    let stripped = spec_stripped_args(args);
    if spec_arg_value(args, "--sysroot"@, None) is Some {
        stripped
    } else {
        stripped.push("--sysroot"@).push(spec_sysroot(args, env)->0)
    }
}

/// The whole of one driver invocation's decision procedure, as a
/// function of its argument vector and environment: resolve the sysroot
/// (fatal when every source is exhausted), answer a bare version query,
/// strip the wrapper-convention compiler path, inject `--sysroot` if
/// missing, and then run the plugin or delegate per the decision.
/// Running the plugin requires the coordinator's plugin arguments to be
/// present and well-formed.
#[verifier::loop_isolation(false)]
pub fn plan_driver(orig_args: &Vec<String>, gate_env: &GateEnv, sys_env: &SysrootEnv) -> (r:
    DriverAction)
    ensures
        ({
            let argv = orig_args.deep_view();
            let patched = spec_patched_args(argv, *sys_env);
            &&& (r == DriverAction::Fail(DriverError::MissingSysroot)) == (spec_sysroot(
                argv,
                *sys_env,
            ) is None)
            &&& spec_sysroot(argv, *sys_env) is Some ==> {
                &&& spec_has_version_flag(argv) ==> r == DriverAction::PrintVersion
                &&& !spec_has_version_flag(argv) ==> {
                    &&& !spec_run_plugin(patched, *gate_env) ==> (match r {
                        DriverAction::Delegate(a) => a.deep_view() == patched,
                        _ => false,
                    })
                    &&& spec_run_plugin(patched, *gate_env) ==> (match gate_env.plugin_args {
                        Option::None => r == DriverAction::Fail(DriverError::MissingPluginArgs),
                        Option::Some(pa) => match r {
                            DriverAction::RunPlugin(a, v) => a.deep_view() == patched && pa@
                                == spec_ser(v.model()),
                            DriverAction::Fail(e) => e == DriverError::MalformedPluginArgs
                                && forall|m: ArgsSpec| pa@ != spec_ser(m),
                            _ => false,
                        },
                    })
                }
            }
        }),
{
    let ghost argv = orig_args.deep_view();
    let (have_sysroot_arg, sysroot) = get_sysroot(orig_args, sys_env);
    let sysroot = match sysroot {
        Some(s) => s,
        None => {
            return DriverAction::Fail(DriverError::MissingSysroot);
        },
    };
    if has_version_flag(orig_args) {
        return DriverAction::PrintVersion;
    }
    let wrapper = is_wrapper_mode(orig_args);
    let mut patched: Vec<String> = Vec::new();
    let n = orig_args.len();
    let mut i: usize = 0;
    while i < n
        invariant
            0 <= i <= n,
            n == argv.len(),
            wrapper && i <= 1 ==> patched.deep_view() =~= argv.subrange(0, i as int),
            wrapper && i >= 2 ==> patched.deep_view() =~= seq![argv[0]] + argv.subrange(
                2,
                i as int,
            ),
            !wrapper ==> patched.deep_view() =~= argv.subrange(0, i as int),
        decreases n - i,
    {
        if !(wrapper && i == 1) {
            let ghost prev = patched.deep_view();
            patched.push(orig_args[i].clone());
            proof {
                assert(patched.deep_view() =~= prev.push(argv[i as int]));
            }
        }
        i += 1;
    }
    proof {
        assert(argv.subrange(0, n as int) =~= argv);
        if wrapper {
            assert(seq![argv[0]] + argv.subrange(2, n as int) =~= argv.remove(1));
            assert(patched.deep_view() =~= spec_stripped_args(argv));
        } else {
            assert(patched.deep_view() =~= spec_stripped_args(argv));
        }
    }
    if !have_sysroot_arg {
        let ghost before = patched.deep_view();
        patched.push("--sysroot".to_owned());
        patched.push(sysroot);
        proof {
            assert(patched.deep_view() =~= before.push("--sysroot"@).push(
                spec_sysroot(argv, *sys_env)->0,
            ));
        }
    }
    proof {
        assert(patched.deep_view() =~= spec_patched_args(argv, *sys_env));
    }
    match decide(&patched, gate_env) {
        GateDecision::DelegateToRealCompiler => DriverAction::Delegate(patched),
        GateDecision::RunPlugin => {
            match &gate_env.plugin_args {
                None => DriverAction::Fail(DriverError::MissingPluginArgs),
                Some(pa) => match deserialize(pa.as_str()) {
                    Some(v) => DriverAction::RunPlugin(patched, v),
                    None => DriverAction::Fail(DriverError::MalformedPluginArgs),
                },
            }
        },
    }
}

} // verus!
