//! The command line of the tool and of the compiler run that expands the
//! macros of the crate under scan.

use crate::text::{contains, has_substring, trim, trimmed};
use std::path::PathBuf;
use vstd::prelude::*;

verus! {

/// The subcommands of the tool.
pub enum Subcommand {
    /// Extract the translation keys from source code.
    I18N(I18N),
}

/// The options of the `i18n` subcommand.
#[derive(Debug)]
pub struct I18N {
    /// Print command lines as they are executed
    pub verbose: bool,
    /// Unstable (nightly-only) flags to Cargo
    pub unstable_flags: Vec<String>,
    /// Print version
    pub version: bool,
    /// Directory for extracted translations
    pub locales_dir: Option<PathBuf>,
    /// Package to expand
    pub package: Option<Option<String>>,
    /// Expand only this package's library
    pub lib: bool,
    /// Expand only the specified binary
    pub bin: Option<Option<String>>,
    /// Expand only the specified example
    pub example: Option<Option<String>>,
    /// Expand only the specified test target
    pub test: Option<Option<String>>,
    /// Expand tests as well when expanding the lib or bin
    pub tests: bool,
    /// Expand only the specified bench target
    pub bench: Option<Option<String>>,
    /// Space or comma separated list of features to activate
    pub features: Option<String>,
    /// Activate all available features
    pub all_features: bool,
    /// Do not activate the `default` feature
    pub no_default_features: bool,
    /// Build artifacts in release mode, with optimizations
    pub release: bool,
    /// Build artifacts with the specified profile
    pub profile: Option<String>,
    /// Target triple which compiles will be for
    pub target: Option<String>,
    /// Directory for all generated artifacts
    pub target_dir: Option<PathBuf>,
    /// Path to Cargo.toml
    pub manifest_path: Option<PathBuf>,
    /// Require Cargo.lock and cache are up to date
    pub frozen: bool,
    /// Require Cargo.lock is up to date
    pub locked: bool,
    /// Run without accessing the network
    pub offline: bool,
}

/// What the tool reads of a package manifest.
#[derive(Debug)]
pub struct CargoManifest {
    pub package: Option<CargoPackage>,
}

/// The `[package]` table of a manifest.
#[derive(Debug)]
pub struct CargoPackage {
    /// The binary that `cargo run` picks.
    pub default_run: Option<String>,
}

/// A line of the compiler's diagnostics says nothing worth showing: it is
/// blank, or it holds one of the notices that every expansion run prints.
pub open spec fn is_noise(line: Seq<char>) -> bool {
    ||| trimmed(line).len() == 0
    ||| has_substring(
        line,
        "ignoring specified output filename because multiple outputs were requested"@,
    )
    ||| has_substring(
        line,
        "ignoring specified output filename for 'link' output because multiple outputs were requested"@,
    )
    ||| has_substring(line, "ignoring --out-dir flag due to -o flag"@)
    ||| has_substring(line, "ignoring -C extra-filename flag due to -o flag"@)
    ||| has_substring(
        line,
        "due to multiple output types requested, the explicitly specified output file name will be adapted for each output type"@,
    )
    ||| has_substring(line, "warning emitted"@)
    ||| has_substring(line, "warnings emitted"@)
    ||| has_substring(line, ") generated "@)
}

/// Tells whether a line of the compiler's diagnostics is to be dropped.
pub fn ignore_cargo_err(line: &str) -> (r: bool)
    ensures
        r == is_noise(line@),
{
    if trim(line).as_str().is_empty() {
        return true;
    }
    contains(line, "ignoring specified output filename because multiple outputs were requested")
        || contains(
        line,
        "ignoring specified output filename for 'link' output because multiple outputs were requested",
    ) || contains(line, "ignoring --out-dir flag due to -o flag") || contains(
        line,
        "ignoring -C extra-filename flag due to -o flag",
    ) || contains(
        line,
        "due to multiple output types requested, the explicitly specified output file name will be adapted for each output type",
    ) || contains(line, "warning emitted") || contains(line, "warnings emitted") || contains(
        line,
        ") generated ",
    )
}

/// One argument of a command line.
#[derive(Debug, Clone, PartialEq, Eq)]
pub enum Argument {
    Text(String),
    Path(PathBuf),
}

/// The mathematical content of an `Argument`.
pub enum ArgumentView {
    Text(Seq<char>),
    Path(PathBuf),
}

impl View for Argument {
    type V = ArgumentView;

    open spec fn view(&self) -> ArgumentView {
        match self {
            Argument::Text(text) => ArgumentView::Text(text@),
            Argument::Path(path) => ArgumentView::Path(*path),
        }
    }
}

/// The views of a sequence of arguments.
pub open spec fn argument_views(arguments: Seq<Argument>) -> Seq<ArgumentView> {
    Seq::new(arguments.len(), |i: int| arguments[i]@)
}

/// A single textual argument.
pub open spec fn word(text: Seq<char>) -> Seq<ArgumentView> {
    seq![ArgumentView::Text(text)]
}

/// `name` where the switch is on, nothing where it is off.
pub open spec fn switch(on: bool, name: Seq<char>) -> Seq<ArgumentView> {
    if on {
        word(name)
    } else {
        Seq::empty()
    }
}

/// `name` and the value where the option is given, nothing where it is not.
pub open spec fn text_option(name: Seq<char>, value: Option<String>) -> Seq<ArgumentView> {
    match value {
        Some(text) => word(name) + word(text@),
        None => Seq::empty(),
    }
}

/// `name` and the path where the option is given, nothing where it is not.
pub open spec fn path_option(name: Seq<char>, value: Option<PathBuf>) -> Seq<ArgumentView> {
    match value {
        Some(path) => word(name) + seq![ArgumentView::Path(path)],
        None => Seq::empty(),
    }
}

/// `name` where the option is given, followed by its value where it has one.
pub open spec fn target_option(name: Seq<char>, value: Option<Option<String>>) -> Seq<
    ArgumentView,
> {
    match value {
        Some(Some(text)) => word(name) + word(text@),
        Some(None) => word(name),
        None => Seq::empty(),
    }
}

/// `-Z` before each unstable flag.
pub open spec fn unstable_options(flags: Seq<String>) -> Seq<ArgumentView>
    decreases flags.len(),
{
    if flags.len() == 0 {
        Seq::empty()
    } else {
        unstable_options(flags.drop_last()) + word("-Z"@) + word(flags.last()@)
    }
}

/// The options name a build target.
pub open spec fn names_build_target(args: I18N) -> bool {
    args.lib || args.bin is Some || args.example is Some || args.test is Some || args.bench is Some
}

/// The binary that the manifest picks by default, where the options name no
/// build target.
pub open spec fn default_run_option(args: I18N, manifest: Option<CargoManifest>) -> Seq<
    ArgumentView,
> {
    if !names_build_target(args) && manifest is Some && manifest->0.package is Some {
        text_option("--bin"@, manifest->0.package->0.default_run)
    } else {
        Seq::empty()
    }
}

/// The profile of the compiler run: the one asked for, or else the profile
/// that fits the `tests` and `release` switches.
pub open spec fn profile_name(args: I18N) -> Seq<char> {
    if args.profile is Some {
        args.profile->0@
    } else if args.tests && args.test is None {
        if args.release {
            "bench"@
        } else {
            "test"@
        }
    } else if args.release {
        "release"@
    } else {
        "check"@
    }
}

/// The arguments of the compiler run that writes the expanded source of the
/// crate to `outfile`.
pub open spec fn expansion_arguments(
    args: I18N,
    manifest: Option<CargoManifest>,
    outfile: PathBuf,
) -> Seq<ArgumentView> {
    word("rustc"@) + switch(args.verbose, "--verbose"@) + unstable_options(args.unstable_flags@)
        + target_option("--package"@, args.package) + switch(args.lib, "--lib"@) + target_option(
        "--bin"@,
        args.bin,
    ) + target_option("--example"@, args.example) + target_option("--test"@, args.test)
        + target_option("--bench"@, args.bench) + default_run_option(args, manifest) + text_option(
        "--features"@,
        args.features,
    ) + switch(args.all_features, "--all-features"@) + switch(
        args.no_default_features,
        "--no-default-features"@,
    ) + word("--profile"@) + word(profile_name(args)) + text_option("--target"@, args.target)
        + path_option("--target-dir"@, args.target_dir) + path_option(
        "--manifest-path"@,
        args.manifest_path,
    ) + switch(args.frozen, "--frozen"@) + switch(args.locked, "--locked"@) + switch(
        args.offline,
        "--offline"@,
    ) + word("--"@) + word("-o"@) + seq![ArgumentView::Path(outfile)] + word(
        "-Zunpretty=expanded"@,
    )
}

fn push_word(out: &mut Vec<Argument>, text: &str)
    ensures
        argument_views(final(out)@) == argument_views(old(out)@) + word(text@),
{
    out.push(Argument::Text(text.to_owned()));
    assert(argument_views(out@) =~= argument_views(old(out)@) + word(text@));
}

fn push_path(out: &mut Vec<Argument>, path: &PathBuf)
    ensures
        argument_views(final(out)@) == argument_views(old(out)@) + seq![ArgumentView::Path(*path)],
{
    out.push(Argument::Path(path.clone()));
    assert(argument_views(out@) =~= argument_views(old(out)@) + seq![ArgumentView::Path(*path)]);
}

fn push_switch(out: &mut Vec<Argument>, on: bool, name: &str)
    ensures
        argument_views(final(out)@) == argument_views(old(out)@) + switch(on, name@),
{
    if on {
        push_word(out, name);
    } else {
        assert(argument_views(out@) + Seq::<ArgumentView>::empty() =~= argument_views(out@));
    }
}

fn push_text_option(out: &mut Vec<Argument>, name: &str, value: &Option<String>)
    ensures
        argument_views(final(out)@) == argument_views(old(out)@) + text_option(name@, *value),
{
    let ghost before = argument_views(out@);
    match value {
        Some(text) => {
            push_word(out, name);
            push_word(out, text.as_str());
            assert(before + word(name@) + word(text@) =~= before + (word(name@) + word(text@)));
        },
        None => {
            assert(before + Seq::<ArgumentView>::empty() =~= before);
        },
    }
}

fn push_path_option(out: &mut Vec<Argument>, name: &str, value: &Option<PathBuf>)
    ensures
        argument_views(final(out)@) == argument_views(old(out)@) + path_option(name@, *value),
{
    let ghost before = argument_views(out@);
    match value {
        Some(path) => {
            push_word(out, name);
            push_path(out, path);
            assert(before + word(name@) + seq![ArgumentView::Path(*path)] =~= before + (word(name@)
                + seq![ArgumentView::Path(*path)]));
        },
        None => {
            assert(before + Seq::<ArgumentView>::empty() =~= before);
        },
    }
}

fn push_target_option(out: &mut Vec<Argument>, name: &str, value: &Option<Option<String>>)
    ensures
        argument_views(final(out)@) == argument_views(old(out)@) + target_option(name@, *value),
{
    let ghost before = argument_views(out@);
    match value {
        Some(Some(text)) => {
            push_word(out, name);
            push_word(out, text.as_str());
            assert(before + word(name@) + word(text@) =~= before + (word(name@) + word(text@)));
        },
        Some(None) => {
            push_word(out, name);
        },
        None => {
            assert(before + Seq::<ArgumentView>::empty() =~= before);
        },
    }
}

fn push_unstable_options(out: &mut Vec<Argument>, flags: &Vec<String>)
    ensures
        argument_views(final(out)@) == argument_views(old(out)@) + unstable_options(flags@),
{
    let ghost before = argument_views(out@);
    let mut i: usize = 0;
    assert(flags@.take(0) =~= Seq::<String>::empty());
    assert(before + Seq::<ArgumentView>::empty() =~= before);
    while i < flags.len()
        invariant
            i <= flags.len(),
            argument_views(out@) == before + unstable_options(flags@.take(i as int)),
        decreases flags.len() - i,
    {
        let ghost so_far = unstable_options(flags@.take(i as int));
        assert(flags@.take(i + 1).drop_last() =~= flags@.take(i as int));
        push_word(out, "-Z");
        push_word(out, flags[i].as_str());
        assert(before + so_far + word("-Z"@) + word(flags@[i as int]@) =~= before + (so_far + word(
            "-Z"@,
        ) + word(flags@[i as int]@)));
        i = i + 1;
    }
    assert(flags@.take(flags.len() as int) =~= flags@);
}

/// Tells whether the options name a build target.
pub fn has_explicit_build_target(args: &I18N) -> (r: bool)
    ensures
        r == names_build_target(*args),
{
    args.lib || args.bin.is_some() || args.example.is_some() || args.test.is_some()
        || args.bench.is_some()
}

/// The arguments of the compiler run that writes the expanded source of the
/// crate to `outfile`. `manifest` is the manifest of the crate, where it could
/// be read; it is looked at only where the options name no build target.
pub fn apply_args(args: &I18N, manifest: &Option<CargoManifest>, outfile: &PathBuf) -> (cmd: Vec<
    Argument,
>)
    ensures
        argument_views(cmd@) == expansion_arguments(*args, *manifest, *outfile),
{
    let mut cmd: Vec<Argument> = Vec::new();
    assert(argument_views(cmd@) + word("rustc"@) =~= word("rustc"@));
    push_word(&mut cmd, "rustc");
    push_switch(&mut cmd, args.verbose, "--verbose");
    push_unstable_options(&mut cmd, &args.unstable_flags);
    push_target_option(&mut cmd, "--package", &args.package);
    push_switch(&mut cmd, args.lib, "--lib");
    push_target_option(&mut cmd, "--bin", &args.bin);
    push_target_option(&mut cmd, "--example", &args.example);
    push_target_option(&mut cmd, "--test", &args.test);
    push_target_option(&mut cmd, "--bench", &args.bench);
    let ghost before = argument_views(cmd@);
    let mut found = false;
    if !has_explicit_build_target(args) {
        if let Some(cargo_manifest) = manifest {
            if let Some(root_package) = &cargo_manifest.package {
                push_text_option(&mut cmd, "--bin", &root_package.default_run);
                found = true;
            }
        }
    }
    if !found {
        assert(before + Seq::<ArgumentView>::empty() =~= before);
    }
    push_text_option(&mut cmd, "--features", &args.features);
    push_switch(&mut cmd, args.all_features, "--all-features");
    push_switch(&mut cmd, args.no_default_features, "--no-default-features");
    push_word(&mut cmd, "--profile");
    if let Some(profile) = &args.profile {
        push_word(&mut cmd, profile.as_str());
    } else if args.tests && args.test.is_none() {
        if args.release {
            push_word(&mut cmd, "bench");
        } else {
            push_word(&mut cmd, "test");
        }
    } else if args.release {
        push_word(&mut cmd, "release");
    } else {
        push_word(&mut cmd, "check");
    }
    push_text_option(&mut cmd, "--target", &args.target);
    push_path_option(&mut cmd, "--target-dir", &args.target_dir);
    push_path_option(&mut cmd, "--manifest-path", &args.manifest_path);
    push_switch(&mut cmd, args.frozen, "--frozen");
    push_switch(&mut cmd, args.locked, "--locked");
    push_switch(&mut cmd, args.offline, "--offline");
    push_word(&mut cmd, "--");
    push_word(&mut cmd, "-o");
    push_path(&mut cmd, outfile);
    push_word(&mut cmd, "-Zunpretty=expanded");
    cmd
}

} // verus!
