use rust_i18n_extract::cargo::{
    apply_args, has_explicit_build_target, ignore_cargo_err, Argument, CargoManifest,
    CargoPackage, I18N,
};
use rust_i18n_extract::naming::variant_key;
use rust_i18n_extract::text::{
    chars_of, contains, last_segment, same_text, string_of, strip_prefix, trim, trim_start,
    whitespace, CharClass,
};
use std::path::PathBuf;

fn options() -> I18N {
    I18N {
        verbose: false,
        unstable_flags: vec![],
        version: false,
        locales_dir: None,
        package: None,
        lib: false,
        bin: None,
        example: None,
        test: None,
        tests: false,
        bench: None,
        features: None,
        all_features: false,
        no_default_features: false,
        release: false,
        profile: None,
        target: None,
        target_dir: None,
        manifest_path: None,
        frozen: false,
        locked: false,
        offline: false,
    }
}

fn text(s: &str) -> Argument {
    Argument::Text(s.to_string())
}

fn path(s: &str) -> Argument {
    Argument::Path(PathBuf::from(s))
}

fn manifest(default_run: Option<&str>) -> Option<CargoManifest> {
    Some(CargoManifest {
        package: Some(CargoPackage {
            default_run: default_run.map(|s| s.to_string()),
        }),
    })
}

#[test]
fn blank_lines_are_noise() {
    assert!(ignore_cargo_err(""));
    assert!(ignore_cargo_err("   \t\n"));
    assert!(ignore_cargo_err("\u{a0}\n"));
}

#[test]
fn known_notices_are_noise() {
    assert!(ignore_cargo_err(
        "warning: ignoring specified output filename because multiple outputs were requested\n"
    ));
    assert!(ignore_cargo_err(
        "warning: ignoring specified output filename for 'link' output because multiple outputs were requested"
    ));
    assert!(ignore_cargo_err("warning: ignoring --out-dir flag due to -o flag"));
    assert!(ignore_cargo_err("warning: ignoring -C extra-filename flag due to -o flag"));
    assert!(ignore_cargo_err(
        "warning: due to multiple output types requested, the explicitly specified output file name will be adapted for each output type"
    ));
    assert!(ignore_cargo_err("warning: 1 warning emitted"));
    assert!(ignore_cargo_err("warning: 12 warnings emitted"));
    assert!(ignore_cargo_err("warning: `demo` (lib) generated 3 warnings"));
}

#[test]
fn other_lines_are_shown() {
    assert!(!ignore_cargo_err("error[E0425]: cannot find value `x` in this scope"));
    assert!(!ignore_cargo_err("warning: unused variable: `y`"));
    assert!(!ignore_cargo_err("   Compiling demo v0.1.0"));
    assert!(!ignore_cargo_err("generated"));
    assert!(!ignore_cargo_err("Warning Emitted"));
}

#[test]
fn plain_options_give_a_check_run() {
    let cmd = apply_args(&options(), &None, &PathBuf::from("target/out.rs"));
    assert_eq!(
        cmd,
        vec![
            text("rustc"),
            text("--profile"),
            text("check"),
            text("--"),
            text("-o"),
            path("target/out.rs"),
            text("-Zunpretty=expanded"),
        ]
    );
}

#[test]
fn every_option_has_its_place() {
    let args = I18N {
        verbose: true,
        unstable_flags: vec!["a".to_string(), "b=c".to_string()],
        package: Some(Some("demo".to_string())),
        lib: true,
        bin: Some(None),
        example: Some(Some("ex".to_string())),
        test: Some(Some("it".to_string())),
        tests: true,
        bench: Some(None),
        features: Some("x,y".to_string()),
        all_features: true,
        no_default_features: true,
        release: true,
        target: Some("wasm32-unknown-unknown".to_string()),
        target_dir: Some(PathBuf::from("t")),
        manifest_path: Some(PathBuf::from("m/Cargo.toml")),
        frozen: true,
        locked: true,
        offline: true,
        ..options()
    };
    let cmd = apply_args(&args, &manifest(Some("main")), &PathBuf::from("o.rs"));
    assert_eq!(
        cmd,
        vec![
            text("rustc"),
            text("--verbose"),
            text("-Z"),
            text("a"),
            text("-Z"),
            text("b=c"),
            text("--package"),
            text("demo"),
            text("--lib"),
            text("--bin"),
            text("--example"),
            text("ex"),
            text("--test"),
            text("it"),
            text("--bench"),
            text("--features"),
            text("x,y"),
            text("--all-features"),
            text("--no-default-features"),
            text("--profile"),
            text("release"),
            text("--target"),
            text("wasm32-unknown-unknown"),
            text("--target-dir"),
            path("t"),
            text("--manifest-path"),
            path("m/Cargo.toml"),
            text("--frozen"),
            text("--locked"),
            text("--offline"),
            text("--"),
            text("-o"),
            path("o.rs"),
            text("-Zunpretty=expanded"),
        ]
    );
}

fn profile_of(args: &I18N) -> Argument {
    let cmd = apply_args(args, &None, &PathBuf::from("o.rs"));
    let at = cmd.iter().position(|a| *a == text("--profile")).unwrap();
    cmd[at + 1].clone()
}

#[test]
fn profile_follows_the_switches() {
    assert_eq!(profile_of(&options()), text("check"));
    assert_eq!(profile_of(&I18N { release: true, ..options() }), text("release"));
    assert_eq!(profile_of(&I18N { tests: true, ..options() }), text("test"));
    assert_eq!(
        profile_of(&I18N { tests: true, release: true, ..options() }),
        text("bench")
    );
    assert_eq!(
        profile_of(&I18N { tests: true, test: Some(None), ..options() }),
        text("check")
    );
    assert_eq!(
        profile_of(&I18N {
            tests: true,
            release: true,
            profile: Some("dev".to_string()),
            ..options()
        }),
        text("dev")
    );
}

#[test]
fn default_binary_is_used_without_a_build_target() {
    let out = PathBuf::from("o.rs");
    let cmd = apply_args(&options(), &manifest(Some("main")), &out);
    assert_eq!(cmd[1..3], [text("--bin"), text("main")]);
    let cmd = apply_args(&options(), &manifest(None), &out);
    assert_eq!(cmd[1], text("--profile"));
    let cmd = apply_args(&options(), &Some(CargoManifest { package: None }), &out);
    assert_eq!(cmd[1], text("--profile"));
    let cmd = apply_args(&I18N { lib: true, ..options() }, &manifest(Some("main")), &out);
    assert_eq!(cmd[1..3], [text("--lib"), text("--profile")]);
}

#[test]
fn build_targets_are_recognised() {
    assert!(!has_explicit_build_target(&options()));
    assert!(has_explicit_build_target(&I18N { lib: true, ..options() }));
    assert!(has_explicit_build_target(&I18N { bin: Some(None), ..options() }));
    assert!(has_explicit_build_target(&I18N { example: Some(None), ..options() }));
    assert!(has_explicit_build_target(&I18N { test: Some(None), ..options() }));
    assert!(has_explicit_build_target(&I18N { bench: Some(None), ..options() }));
    assert!(!has_explicit_build_target(&I18N { tests: true, ..options() }));
    assert!(!has_explicit_build_target(&I18N {
        package: Some(None),
        ..options()
    }));
}

#[test]
fn whitespace_characters() {
    for c in [
        ' ', '\t', '\n', '\u{b}', '\u{c}', '\r', '\u{85}', '\u{a0}', '\u{1680}', '\u{2000}',
        '\u{2005}', '\u{200a}', '\u{2028}', '\u{2029}', '\u{202f}', '\u{205f}', '\u{3000}',
    ] {
        assert!(whitespace(c), "{:?}", c);
        assert_eq!(whitespace(c), c.is_whitespace());
    }
    for c in ['a', '0', '_', '\u{8}', '\u{e}', '\u{1f}', '\u{200b}', '\u{180e}', '\u{feff}'] {
        assert!(!whitespace(c), "{:?}", c);
        assert_eq!(whitespace(c), c.is_whitespace());
    }
}

#[test]
fn classes_of_characters() {
    assert!(CharClass::Whitespace.contains('\n'));
    assert!(!CharClass::Whitespace.contains('"'));
    assert!(CharClass::Exactly('"').contains('"'));
    assert!(!CharClass::Exactly('"').contains(' '));
}

#[test]
fn trimming() {
    assert_eq!(trim("  a b \n"), "a b");
    assert_eq!(trim(""), "");
    assert_eq!(trim(" \t "), "");
    assert_eq!(trim("x"), "x");
    assert_eq!(trim("\u{3000}x\u{a0}"), "x");
    assert_eq!(trim_start("  a b \n"), "a b \n");
    assert_eq!(trim_start("   "), "");
    assert_eq!(trim_start("a "), "a ");
}

#[test]
fn prefixes() {
    assert_eq!(strip_prefix("DONE x", "DONE"), Some(" x".to_string()));
    assert_eq!(strip_prefix("DONE", "DONE"), Some("".to_string()));
    assert_eq!(strip_prefix("DON", "DONE"), None);
    assert_eq!(strip_prefix("xDONE", "DONE"), None);
    assert_eq!(strip_prefix("abc", ""), Some("abc".to_string()));
    assert_eq!(strip_prefix("", ""), Some("".to_string()));
}

#[test]
fn substrings() {
    assert!(contains("hello world", "o w"));
    assert!(contains("hello", "hello"));
    assert!(contains("hello", ""));
    assert!(contains("", ""));
    assert!(contains("aab", "ab"));
    assert!(!contains("hello", "hello!"));
    assert!(!contains("", "a"));
    assert!(!contains("abc", "ac"));
}

#[test]
fn segments() {
    assert_eq!(last_segment("a.b.c", '.'), "c");
    assert_eq!(last_segment("abc", '.'), "abc");
    assert_eq!(last_segment("a.", '.'), "");
    assert_eq!(last_segment("", '.'), "");
    assert_eq!(last_segment("a/b.c", '/'), "b.c");
}

#[test]
fn characters_and_back() {
    let v = chars_of("h\u{e9}llo");
    assert_eq!(v, vec!['h', '\u{e9}', 'l', 'l', 'o']);
    assert_eq!(string_of(&v, 1, 4), "\u{e9}ll");
    assert_eq!(string_of(&v, 2, 2), "");
    assert_eq!(string_of(&v, 0, 5), "h\u{e9}llo");
    assert!(same_text("abc", "abc"));
    assert!(!same_text("abc", "abd"));
    assert!(!same_text("abc", "ab"));
}

#[test]
fn keys_of_variants() {
    assert_eq!(variant_key(None, "Color", "Red"), "Color.Red");
    assert_eq!(variant_key(Some("ui"), "Color", "Red"), "ui.Color.Red");
    assert_eq!(variant_key(Some(""), "E", "V"), ".E.V");
}
