//! The values a plugin hands to the framework, and the names of the
//! environment variables the coordinator and the driver share.

use vstd::prelude::*;

use crate::args::ArgsValue;

verus! {

/// Which compilation units the plugin runs on.
#[derive(Debug, PartialEq, Eq)]
pub enum CrateFilter {
    /// Every crate in the workspace and all transitive dependencies.
    AllCrates,
    /// Just crates in the workspace.
    OnlyWorkspace,
    /// Only the crate containing a specific file, given as a normalized
    /// absolute path.
    CrateContainingFile(String),
}

/// Arguments from a plugin to the framework.
pub struct RustcPluginArgs {
    /// The plugin's own arguments, forwarded to every driver invocation.
    pub args: ArgsValue,
    /// Which crates to run the plugin on.
    pub filter: CrateFilter,
}

/// The variable carrying the serialized plugin arguments from the
/// coordinator to every driver invocation.
pub fn plugin_args_var() -> (r: &'static str)
    ensures
        r@ == "PLUGIN_ARGS"@,
{
    "PLUGIN_ARGS"
}

/// The marker the coordinator sets when the plugin runs on all crates.
pub fn run_on_all_crates_var() -> (r: &'static str)
    ensures
        r@ == "RUSTC_PLUGIN_ALL_TARGETS"@,
{
    "RUSTC_PLUGIN_ALL_TARGETS"
}

/// The crate-name marker for a single-crate run.
pub fn specific_crate_var() -> (r: &'static str)
    ensures
        r@ == "SPECIFIC_CRATE"@,
{
    "SPECIFIC_CRATE"
}

/// The target-kind marker for a single-crate run.
pub fn specific_target_var() -> (r: &'static str)
    ensures
        r@ == "SPECIFIC_TARGET"@,
{
    "SPECIFIC_TARGET"
}

/// The orchestrator's own encoded pass-through of compiler flags.
pub fn encoded_rustflags_var() -> (r: &'static str)
    ensures
        r@ == "CARGO_ENCODED_RUSTFLAGS"@,
{
    "CARGO_ENCODED_RUSTFLAGS"
}

/// The wrapper redirection: the orchestrator invokes this executable in
/// place of the real compiler for every compilation unit.
pub fn wrapper_var() -> (r: &'static str)
    ensures
        r@ == "RUSTC_WRAPPER"@,
{
    "RUSTC_WRAPPER"
}

/// The orchestrator's marker for units of the user's own project.
pub fn primary_package_var() -> (r: &'static str)
    ensures
        r@ == "CARGO_PRIMARY_PACKAGE"@,
{
    "CARGO_PRIMARY_PACKAGE"
}

} // verus!
