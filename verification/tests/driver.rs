//! The driver: option scanning, the sysroot fallback chain, and the
//! decision table for one compiler invocation.

use rustc_plugin::args::ArgsValue;
use rustc_plugin::driver::arg_value;
use rustc_plugin::driver::decide;
use rustc_plugin::driver::get_sysroot;
use rustc_plugin::driver::has_version_flag;
use rustc_plugin::driver::is_wrapper_mode;
use rustc_plugin::driver::needs_rustc_probe;
use rustc_plugin::driver::plan_driver;
use rustc_plugin::driver::toolchain_path;
use rustc_plugin::driver::DriverAction;
use rustc_plugin::driver::DriverError;
use rustc_plugin::driver::GateDecision;
use rustc_plugin::driver::GateEnv;
use rustc_plugin::driver::SysrootEnv;

fn argv(args: &[&str]) -> Vec<String> {
    args.iter().map(|s| String::from(*s)).collect()
}

fn no_markers() -> GateEnv {
    GateEnv {
        primary_package: false,
        run_on_all_crates: false,
        specific_crate: None,
        specific_target: None,
        plugin_args: None,
    }
}

fn bare_sysroot_env() -> SysrootEnv {
    SysrootEnv {
        miri_sysroot: None,
        sysroot: None,
        rustup_home: None,
        multirust_home: None,
        rustup_toolchain: None,
        multirust_toolchain: None,
        rustc_print_sysroot: None,
        ct_sysroot: None,
        ct_rustup_home: None,
        ct_multirust_home: None,
        ct_rustup_toolchain: None,
        ct_multirust_toolchain: None,
    }
}

#[test]
fn arg_value_finds_both_spellings() {
    let args = argv(&["--sysroot=/a", "--crate-name", "foo"]);
    assert_eq!(arg_value(&args, "--sysroot", None), Some("/a"));
    assert_eq!(arg_value(&args, "--crate-name", None), Some("foo"));
    assert_eq!(arg_value(&args, "--crate-type", None), None);
}

#[test]
fn arg_value_respects_the_expected_value() {
    let args = argv(&["--crate-name", "foo", "--crate-name=bar"]);
    assert_eq!(arg_value(&args, "--crate-name", Some("bar")), Some("bar"));
    assert_eq!(arg_value(&args, "--crate-name", Some("foo")), Some("foo"));
    assert_eq!(arg_value(&args, "--crate-name", Some("baz")), None);
}

#[test]
fn arg_value_ignores_a_trailing_lone_option() {
    let args = argv(&["--sysroot"]);
    assert_eq!(arg_value(&args, "--sysroot", None), None);
}

#[test]
fn toolchain_path_needs_both_parts() {
    assert_eq!(
        toolchain_path(Some(String::from("/rustup")), Some(String::from("stable"))),
        Some(String::from("/rustup/toolchains/stable"))
    );
    assert_eq!(toolchain_path(Some(String::from("/rustup")), None), None);
    assert_eq!(toolchain_path(None, Some(String::from("stable"))), None);
}

#[test]
fn sysroot_prefers_the_command_line() {
    let mut env = bare_sysroot_env();
    env.sysroot = Some(String::from("/from-env"));
    let args = argv(&["driver", "--sysroot=/from-args"]);
    let (have, sys) = get_sysroot(&args, &env);
    assert!(have);
    assert_eq!(sys, Some(String::from("/from-args")));
}

#[test]
fn sysroot_falls_back_through_the_chain() {
    let args = argv(&["driver"]);
    let mut env = bare_sysroot_env();
    env.ct_rustup_home = Some(String::from("/ct-home"));
    env.ct_rustup_toolchain = Some(String::from("nightly"));
    let (have, sys) = get_sysroot(&args, &env);
    assert!(!have);
    assert_eq!(sys, Some(String::from("/ct-home/toolchains/nightly")));

    env.rustc_print_sysroot = Some(String::from("/probed"));
    assert_eq!(get_sysroot(&args, &env).1, Some(String::from("/probed")));

    env.rustup_home = Some(String::from("/home"));
    env.multirust_toolchain = Some(String::from("beta"));
    assert_eq!(get_sysroot(&args, &env).1, Some(String::from("/home/toolchains/beta")));

    env.miri_sysroot = Some(String::from("/miri"));
    assert_eq!(get_sysroot(&args, &env).1, Some(String::from("/miri")));
}

#[test]
fn probe_is_needed_only_without_earlier_sources() {
    let args = argv(&["driver"]);
    let mut env = bare_sysroot_env();
    assert!(needs_rustc_probe(&args, &env));
    env.ct_sysroot = Some(String::from("/ct"));
    assert!(needs_rustc_probe(&args, &env), "compile-time sources come after the probe");
    env.sysroot = Some(String::from("/rt"));
    assert!(!needs_rustc_probe(&args, &env));
}

#[test]
fn wrapper_mode_recognizes_the_compiler_path() {
    assert!(is_wrapper_mode(&argv(&["driver", "/usr/bin/rustc", "--print=cfg"])));
    assert!(is_wrapper_mode(&argv(&["driver", "rustc.exe"])));
    assert!(!is_wrapper_mode(&argv(&["driver", "--crate-name"])));
    assert!(!is_wrapper_mode(&argv(&["driver"])));
}

#[test]
fn version_flags_are_recognized() {
    assert!(has_version_flag(&argv(&["driver", "-V"])));
    assert!(has_version_flag(&argv(&["driver", "--version"])));
    assert!(!has_version_flag(&argv(&["driver", "--crate-name", "v"])));
}

// The decision table.

#[test]
fn probing_calls_are_never_intercepted() {
    let args = argv(&["driver", "--print=sysroot"]);
    assert_eq!(decide(&args, &no_markers()), GateDecision::DelegateToRealCompiler);
    let mut env = no_markers();
    env.primary_package = true;
    env.run_on_all_crates = true;
    assert_eq!(decide(&args, &env), GateDecision::DelegateToRealCompiler);
}

#[test]
fn version_query_bypasses_the_decision() {
    let mut sys = bare_sysroot_env();
    sys.sysroot = Some(String::from("/s"));
    let action = plan_driver(&argv(&["driver", "-V"]), &no_markers(), &sys);
    assert_eq!(action, DriverAction::PrintVersion);
}

#[test]
fn primary_package_without_markers_runs_the_plugin() {
    let mut env = no_markers();
    env.primary_package = true;
    let args = argv(&["driver", "--crate-name", "foo"]);
    assert_eq!(decide(&args, &env), GateDecision::RunPlugin);
}

#[test]
fn mismatched_crate_markers_delegate_even_for_the_primary_package() {
    let mut env = no_markers();
    env.primary_package = true;
    env.specific_crate = Some(String::from("foo"));
    env.specific_target = Some(String::from("lib"));
    let args = argv(&["driver", "--crate-name", "bar", "--crate-type", "lib"]);
    assert_eq!(decide(&args, &env), GateDecision::DelegateToRealCompiler);
}

#[test]
fn matching_crate_markers_run_the_plugin() {
    let mut env = no_markers();
    env.primary_package = true;
    env.specific_crate = Some(String::from("foo"));
    env.specific_target = Some(String::from("lib"));
    let args = argv(&["driver", "--crate-name", "foo", "--crate-type", "lib"]);
    assert_eq!(decide(&args, &env), GateDecision::RunPlugin);
}

#[test]
fn run_on_all_crates_covers_dependencies() {
    let mut env = no_markers();
    env.run_on_all_crates = true;
    let args = argv(&["driver", "--crate-name", "some_dep"]);
    assert_eq!(decide(&args, &env), GateDecision::RunPlugin);
}

// The full plan.

#[test]
fn delegation_patches_the_argument_vector() {
    let mut sys = bare_sysroot_env();
    sys.sysroot = Some(String::from("/s"));
    let args = argv(&["driver", "/usr/bin/rustc", "--crate-name", "dep"]);
    let action = plan_driver(&args, &no_markers(), &sys);
    assert_eq!(
        action,
        DriverAction::Delegate(argv(&[
            "driver",
            "--crate-name",
            "dep",
            "--sysroot",
            "/s"
        ]))
    );
}

#[test]
fn an_existing_sysroot_flag_is_kept() {
    let sys = bare_sysroot_env();
    let args = argv(&["driver", "--crate-name", "dep", "--sysroot=/mine"]);
    let action = plan_driver(&args, &no_markers(), &sys);
    assert_eq!(
        action,
        DriverAction::Delegate(argv(&["driver", "--crate-name", "dep", "--sysroot=/mine"]))
    );
}

#[test]
fn missing_sysroot_is_fatal() {
    let action = plan_driver(&argv(&["driver"]), &no_markers(), &bare_sysroot_env());
    assert_eq!(action, DriverAction::Fail(DriverError::MissingSysroot));
}

#[test]
fn running_the_plugin_decodes_its_arguments() {
    let mut env = no_markers();
    env.primary_package = true;
    env.plugin_args = Some(ArgsValue::Text(String::from("deep")).serialize());
    let mut sys = bare_sysroot_env();
    sys.sysroot = Some(String::from("/s"));
    let args = argv(&["driver", "--crate-name", "foo"]);
    let action = plan_driver(&args, &env, &sys);
    assert_eq!(
        action,
        DriverAction::RunPlugin(
            argv(&["driver", "--crate-name", "foo", "--sysroot", "/s"]),
            ArgsValue::Text(String::from("deep"))
        )
    );
}

#[test]
fn absent_plugin_arguments_break_the_pairing() {
    let mut env = no_markers();
    env.primary_package = true;
    let mut sys = bare_sysroot_env();
    sys.sysroot = Some(String::from("/s"));
    let action = plan_driver(&argv(&["driver"]), &env, &sys);
    assert_eq!(action, DriverAction::Fail(DriverError::MissingPluginArgs));
}

#[test]
fn malformed_plugin_arguments_break_the_pairing() {
    let mut env = no_markers();
    env.primary_package = true;
    env.plugin_args = Some(String::from("not a serialization"));
    let mut sys = bare_sysroot_env();
    sys.sysroot = Some(String::from("/s"));
    let action = plan_driver(&argv(&["driver"]), &env, &sys);
    assert_eq!(action, DriverAction::Fail(DriverError::MalformedPluginArgs));
}
