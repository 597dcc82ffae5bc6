use indexmap::IndexMap;
use rust_i18n_extract::extractor::Message;
use rust_i18n_extract::generator::{
    codec_of, file_extension, format_data, generate, ignore_file_ndone, ignore_file_nremoved,
    ignore_file_ntodo, is_supported_version, reconcile, translations_transpose,
    update_todo_done_removed, write_file, Codec, Config, FileData, OutputFile,
};
use rust_i18n_extract::table::{Table, Translations};

fn table(entries: &[(&str, &str)]) -> Table {
    entries
        .iter()
        .map(|(k, v)| (k.to_string(), v.to_string()))
        .collect()
}

fn tables(entries: &[(&str, &[(&str, &str)])]) -> Translations {
    entries
        .iter()
        .map(|(locale, t)| (locale.to_string(), table(t)))
        .collect()
}

fn pairs(table: &Table) -> Vec<(String, String)> {
    table.iter().map(|(k, v)| (k.clone(), v.clone())).collect()
}

fn expect(entries: &[(&str, &str)]) -> Vec<(String, String)> {
    entries
        .iter()
        .map(|(k, v)| (k.to_string(), v.to_string()))
        .collect()
}

fn messages(keys: &[&str]) -> Vec<Message> {
    keys.iter()
        .enumerate()
        .map(|(i, k)| Message::new(k, i, None))
        .collect()
}

fn config(version: usize, format: &str, default_locale: &str, locales: &[&str]) -> Config {
    Config {
        default_locale: default_locale.to_string(),
        available_locales: locales.iter().map(|l| l.to_string()).collect(),
        load_path: "./locales".to_string(),
        generate_version: version,
        generate_extension: format.to_string(),
    }
}

struct Run {
    done: Translations,
    todo: Translations,
    removed: Translations,
}

fn pass(
    done: &[(&str, &str)],
    todo: &[(&str, &str)],
    removed: &[(&str, &str)],
    defaults: &[(&str, &str)],
    keys: &[&str],
) -> Run {
    let mut run = Run {
        done: tables(&[("fr", done)]),
        todo: tables(&[("fr", todo)]),
        removed: tables(&[("fr", removed)]),
    };
    update_todo_done_removed(
        &mut run.done,
        &mut run.todo,
        &mut run.removed,
        "fr",
        &table(defaults),
        &messages(keys),
    );
    run
}

#[test]
fn marked_entry_is_promoted() {
    let run = pass(&[], &[("greeting", "DONE Bonjour")], &[], &[], &["greeting"]);
    assert_eq!(pairs(&run.done["fr"]), expect(&[("greeting", "Bonjour")]));
    assert!(run.todo["fr"].is_empty());
    assert!(run.removed["fr"].is_empty());
}

#[test]
fn marker_is_case_sensitive_and_stripped_with_following_whitespace() {
    let run = pass(
        &[],
        &[
            ("a", "DONE\t \n Salut "),
            ("b", "done Bonjour"),
            ("c", "DONEcolle"),
            ("d", " DONE espace"),
            ("e", "DONE"),
        ],
        &[],
        &[],
        &["a", "b", "c", "d", "e"],
    );
    assert_eq!(
        pairs(&run.done["fr"]),
        expect(&[("a", "Salut "), ("c", "colle"), ("e", "")])
    );
    assert_eq!(pairs(&run.todo["fr"]), expect(&[("b", "b"), ("d", "d")]));
}

#[test]
fn promoted_text_replaces_completed_text() {
    let run = pass(
        &[("x", "old"), ("y", "kept")],
        &[("x", "DONE new")],
        &[],
        &[],
        &["y", "x"],
    );
    assert_eq!(pairs(&run.done["fr"]), expect(&[("y", "kept"), ("x", "new")]));
}

#[test]
fn promoted_entry_without_message_is_stale() {
    let run = pass(&[], &[("gone", "DONE Adieu")], &[], &[], &["here"]);
    assert!(run.done["fr"].is_empty());
    assert_eq!(pairs(&run.todo["fr"]), expect(&[("here", "here")]));
    assert_eq!(pairs(&run.removed["fr"]), expect(&[("gone", "Adieu")]));
}

#[test]
fn orphan_moves_to_removed() {
    let run = pass(
        &[("kept", "Garde"), ("orphan", "Perdu")],
        &[],
        &[],
        &[],
        &["kept"],
    );
    assert_eq!(pairs(&run.done["fr"]), expect(&[("kept", "Garde")]));
    assert!(run.todo["fr"].is_empty());
    assert_eq!(pairs(&run.removed["fr"]), expect(&[("orphan", "Perdu")]));
    assert!(!run.done["fr"].contains_key("orphan"));
    assert!(!run.todo["fr"].contains_key("orphan"));
}

#[test]
fn earlier_removed_entries_are_kept() {
    let run = pass(
        &[("orphan", "Perdu")],
        &[],
        &[("older", "Ancien"), ("orphan", "Avant")],
        &[],
        &["fresh"],
    );
    assert_eq!(
        pairs(&run.removed["fr"]),
        expect(&[("older", "Ancien"), ("orphan", "Perdu")])
    );
}

#[test]
fn stale_key_named_again_leaves_removed() {
    let run = pass(
        &[],
        &[],
        &[("first", "Un"), ("back", "Revenu"), ("last", "Trois")],
        &[],
        &["back"],
    );
    assert_eq!(pairs(&run.todo["fr"]), expect(&[("back", "back")]));
    assert_eq!(
        pairs(&run.removed["fr"]),
        expect(&[("first", "Un"), ("last", "Trois")])
    );
    assert!(run.done["fr"].is_empty());
}

#[test]
fn stale_key_completed_again_leaves_removed() {
    let run = pass(
        &[("back", "Fait")],
        &[],
        &[("back", "Vieux"), ("other", "Autre")],
        &[],
        &["back"],
    );
    assert_eq!(pairs(&run.done["fr"]), expect(&[("back", "Fait")]));
    assert_eq!(pairs(&run.removed["fr"]), expect(&[("other", "Autre")]));
    assert!(run.todo["fr"].is_empty());
}

#[test]
fn no_key_is_in_two_tables_after_a_pass() {
    let run = pass(
        &[("a", "A"), ("b", "B"), ("c", "C")],
        &[("d", "DONE D"), ("e", "E"), ("a", "DONE A2")],
        &[("b", "old B"), ("e", "old E"), ("f", "old F"), ("g", "old G")],
        &[("f", "F")],
        &["e", "a", "f", "h"],
    );
    let done: Vec<&String> = run.done["fr"].keys().collect();
    let todo: Vec<&String> = run.todo["fr"].keys().collect();
    let removed: Vec<&String> = run.removed["fr"].keys().collect();
    assert_eq!(done, vec!["a"]);
    assert_eq!(todo, vec!["e", "f", "h"]);
    assert_eq!(removed, vec!["b", "g", "d", "c"]);
    for key in done.iter() {
        assert!(!todo.contains(key) && !removed.contains(key));
    }
    for key in todo.iter() {
        assert!(!removed.contains(key));
    }
    assert_eq!(run.done["fr"]["a"], "A2");
    assert_eq!(run.removed["fr"]["b"], "B");
}

#[test]
fn orphans_leave_in_the_order_that_removal_left() {
    let run = pass(
        &[("a", "1"), ("b", "2"), ("c", "3"), ("d", "4"), ("e", "5")],
        &[],
        &[],
        &[],
        &["a", "c"],
    );
    assert_eq!(pairs(&run.done["fr"]), expect(&[("a", "1"), ("c", "3")]));
    assert_eq!(
        pairs(&run.removed["fr"]),
        expect(&[("e", "5"), ("b", "2"), ("d", "4")])
    );
}

#[test]
fn new_key_takes_text_of_default_locale() {
    let run = pass(&[], &[], &[], &[("hello", "Hello")], &["hello"]);
    assert_eq!(pairs(&run.todo["fr"]), expect(&[("hello", "Hello")]));
    assert!(run.done["fr"].is_empty());
}

#[test]
fn new_key_takes_last_segment() {
    let run = pass(&[], &[], &[], &[], &["views.message.title"]);
    assert_eq!(
        pairs(&run.todo["fr"]),
        expect(&[("views.message.title", "title")])
    );
}

#[test]
fn placeholders_of_unusual_keys() {
    let run = pass(&[], &[], &[], &[], &["plain", "ends.", ".starts", "a..b", ""]);
    assert_eq!(
        pairs(&run.todo["fr"]),
        expect(&[
            ("plain", "plain"),
            ("ends.", ""),
            (".starts", "starts"),
            ("a..b", "b"),
            ("", "")
        ])
    );
}

#[test]
fn unmarked_pending_text_is_dropped_and_drafted_again() {
    let run = pass(&[], &[("k", "brouillon")], &[], &[("k", "Draft")], &["k"]);
    assert_eq!(pairs(&run.todo["fr"]), expect(&[("k", "Draft")]));
}

#[test]
fn completed_key_is_not_drafted() {
    let run = pass(&[("k", "Fait")], &[], &[], &[("k", "Draft")], &["k"]);
    assert_eq!(pairs(&run.done["fr"]), expect(&[("k", "Fait")]));
    assert!(run.todo["fr"].is_empty());
}

#[test]
fn tables_follow_discovery_order() {
    let run = pass(
        &[("b", "B"), ("a", "A")],
        &[],
        &[],
        &[],
        &["z", "a", "y", "b"],
    );
    assert_eq!(pairs(&run.done["fr"]), expect(&[("a", "A"), ("b", "B")]));
    assert_eq!(pairs(&run.todo["fr"]), expect(&[("z", "z"), ("y", "y")]));
}

#[test]
fn missing_locale_is_created_in_every_bucket() {
    let mut done = tables(&[("en", &[("k", "K")])]);
    let mut todo = Translations::new();
    let mut removed = Translations::new();
    update_todo_done_removed(
        &mut done,
        &mut todo,
        &mut removed,
        "de",
        &table(&[]),
        &messages(&[]),
    );
    let locales: Vec<&String> = done.keys().collect();
    assert_eq!(locales, vec!["en", "de"]);
    assert!(done["de"].is_empty());
    assert!(todo["de"].is_empty());
    assert!(removed["de"].is_empty());
    assert_eq!(pairs(&done["en"]), expect(&[("k", "K")]));
}

#[test]
fn second_pass_changes_nothing() {
    let keys = ["hello", "views.message.title", "bye"];
    let defaults = [("hello", "Hello")];
    let mut run = pass(
        &[("bye", "Au revoir"), ("orphan", "Perdu")],
        &[("views.message.title", "DONE Titre"), ("hello", "draft")],
        &[("older", "Ancien")],
        &defaults,
        &keys,
    );
    let first = (run.done.clone(), run.todo.clone(), run.removed.clone());
    update_todo_done_removed(
        &mut run.done,
        &mut run.todo,
        &mut run.removed,
        "fr",
        &table(&defaults),
        &messages(&keys),
    );
    assert_eq!((run.done, run.todo, run.removed), first);
    assert_eq!(
        pairs(&first.0["fr"]),
        expect(&[("views.message.title", "Titre"), ("bye", "Au revoir")])
    );
    assert_eq!(pairs(&first.1["fr"]), expect(&[("hello", "Hello")]));
    assert_eq!(
        pairs(&first.2["fr"]),
        expect(&[("older", "Ancien"), ("orphan", "Perdu")])
    );
}

#[test]
fn draft_that_bears_the_marker_is_promoted_by_the_next_pass() {
    let mut run = pass(&[], &[], &[], &[], &["task.DONE"]);
    assert_eq!(pairs(&run.todo["fr"]), expect(&[("task.DONE", "DONE")]));
    update_todo_done_removed(
        &mut run.done,
        &mut run.todo,
        &mut run.removed,
        "fr",
        &table(&[]),
        &messages(&["task.DONE"]),
    );
    assert_eq!(pairs(&run.done["fr"]), expect(&[("task.DONE", "")]));
    assert!(run.todo["fr"].is_empty());
}

#[test]
fn run_reconciles_default_locale_first() {
    let cfg = config(1, "yml", "en", &["fr", "en", "de"]);
    let mut done = tables(&[
        ("fr", &[("hello", "Bonjour")]),
        ("en", &[("hello", "Hello"), ("unused", "Unused")]),
    ]);
    let mut todo = tables(&[("en", &[("menu.open", "DONE Open")])]);
    let mut removed = Translations::new();
    reconcile(
        &mut done,
        &mut todo,
        &mut removed,
        &cfg,
        &messages(&["hello", "menu.open", "menu.close"]),
    );
    assert_eq!(
        pairs(&done["en"]),
        expect(&[("hello", "Hello"), ("menu.open", "Open")])
    );
    assert_eq!(pairs(&todo["en"]), expect(&[("menu.close", "close")]));
    assert_eq!(pairs(&removed["en"]), expect(&[("unused", "Unused")]));
    assert_eq!(pairs(&done["fr"]), expect(&[("hello", "Bonjour")]));
    assert_eq!(
        pairs(&todo["fr"]),
        expect(&[("menu.open", "Open"), ("menu.close", "close")])
    );
    assert!(removed["fr"].is_empty());
    assert!(done["de"].is_empty());
    assert_eq!(
        pairs(&todo["de"]),
        expect(&[("hello", "Hello"), ("menu.open", "Open"), ("menu.close", "close")])
    );
    let locales: Vec<&String> = done.keys().collect();
    assert_eq!(locales, vec!["fr", "en", "de"]);
}

#[test]
fn second_run_changes_nothing() {
    let cfg = config(1, "yml", "en", &["en", "fr"]);
    let found = messages(&["hello", "menu.open"]);
    let mut done = tables(&[("en", &[("hello", "Hello"), ("old", "Old")])]);
    let mut todo = tables(&[("fr", &[("hello", "DONE Bonjour")])]);
    let mut removed = Translations::new();
    reconcile(&mut done, &mut todo, &mut removed, &cfg, &found);
    let first = (done.clone(), todo.clone(), removed.clone());
    reconcile(&mut done, &mut todo, &mut removed, &cfg, &found);
    assert_eq!((done, todo, removed), first);
}

#[test]
fn transpose_swaps_the_two_keys() {
    let data = tables(&[
        ("en", &[("hello", "Hello"), ("bye", "Bye")]),
        ("fr", &[("bye", "Au revoir")]),
        ("de", &[]),
    ]);
    let turned = translations_transpose(&data);
    let keys: Vec<&String> = turned.keys().collect();
    assert_eq!(keys, vec!["hello", "bye"]);
    assert_eq!(pairs(&turned["hello"]), expect(&[("en", "Hello")]));
    assert_eq!(
        pairs(&turned["bye"]),
        expect(&[("en", "Bye"), ("fr", "Au revoir")])
    );
    let back = translations_transpose(&turned);
    assert_eq!(
        back,
        tables(&[
            ("en", &[("hello", "Hello"), ("bye", "Bye")]),
            ("fr", &[("bye", "Au revoir")])
        ])
    );
}

fn flat(file: &OutputFile) -> Vec<(String, String)> {
    match &file.data {
        FileData::Flat(table) => pairs(table),
        FileData::Transposed(_) => panic!("flat file expected"),
    }
}

#[test]
fn version_one_writes_a_sorted_file_per_locale_with_entries() {
    let cfg = config(1, "json", "en", &["en", "fr", "de", "it"]);
    let data = tables(&[
        ("fr", &[("b", "2"), ("a", "1"), ("B", "3"), ("ab", "4")]),
        ("en", &[("z", "Z")]),
        ("de", &[]),
    ]);
    let files = write_file("TODO.", &cfg, &data);
    assert_eq!(files.len(), 2);
    assert_eq!(files[0].name, "TODO.en.json");
    assert_eq!(files[0].count, 1);
    assert_eq!(files[0].version, 1);
    assert_eq!(flat(&files[0]), expect(&[("z", "Z")]));
    assert_eq!(files[1].name, "TODO.fr.json");
    assert_eq!(files[1].count, 4);
    assert_eq!(
        flat(&files[1]),
        expect(&[("B", "3"), ("a", "1"), ("ab", "4"), ("b", "2")])
    );
}

#[test]
fn version_two_writes_one_transposed_file() {
    let cfg = config(2, "toml", "en", &["en", "fr"]);
    let data = tables(&[
        ("fr", &[("hello", "Bonjour"), ("bye", "Au revoir")]),
        ("en", &[("hello", "Hello")]),
    ]);
    let files = write_file("", &cfg, &data);
    assert_eq!(files.len(), 1);
    assert_eq!(files[0].name, "app.toml");
    assert_eq!(files[0].count, 2);
    assert_eq!(files[0].version, 2);
    match &files[0].data {
        FileData::Transposed(by_key) => {
            let keys: Vec<&String> = by_key.keys().collect();
            assert_eq!(keys, vec!["bye", "hello"]);
            assert_eq!(pairs(&by_key["bye"]), expect(&[("fr", "Au revoir")]));
            assert_eq!(
                pairs(&by_key["hello"]),
                expect(&[("fr", "Bonjour"), ("en", "Hello")])
            );
        }
        FileData::Flat(_) => panic!("transposed file expected"),
    }
}

#[test]
fn version_two_without_entries_writes_nothing() {
    let cfg = config(2, "yml", "en", &["en"]);
    let files = write_file("REMOVED.", &cfg, &tables(&[("en", &[])]));
    assert!(files.is_empty());
}

#[test]
fn versions_one_and_two_are_supported() {
    assert!(is_supported_version(1));
    assert!(is_supported_version(2));
    assert!(!is_supported_version(0));
    assert!(!is_supported_version(3));
    assert!(!is_supported_version(usize::MAX));
}

#[test]
fn generate_reconciles_and_lays_out_three_buckets() {
    let cfg = config(1, "yaml", "en", &["en", "fr"]);
    let mut done = tables(&[("en", &[("hello", "Hello"), ("old", "Old")])]);
    let mut todo = Translations::new();
    let mut removed = Translations::new();
    let files = generate(
        &mut done,
        &mut todo,
        &mut removed,
        &cfg,
        &messages(&["new.key", "hello"]),
    );
    let names = |files: &Vec<OutputFile>| -> Vec<String> {
        files.iter().map(|f| f.name.clone()).collect()
    };
    assert_eq!(names(&files.done), vec!["en.yml"]);
    assert_eq!(names(&files.todo), vec!["TODO.en.yml", "TODO.fr.yml"]);
    assert_eq!(names(&files.removed), vec!["REMOVED.en.yml"]);
    assert_eq!(flat(&files.done[0]), expect(&[("hello", "Hello")]));
    assert_eq!(flat(&files.todo[0]), expect(&[("new.key", "key")]));
    assert_eq!(
        flat(&files.todo[1]),
        expect(&[("hello", "Hello"), ("new.key", "key")])
    );
    assert_eq!(flat(&files.removed[0]), expect(&[("old", "Old")]));
    assert_eq!(pairs(&todo["fr"]), expect(&[("new.key", "key"), ("hello", "Hello")]));
}

#[test]
fn codec_follows_the_format_setting() {
    assert_eq!(codec_of("json"), Codec::Json);
    assert_eq!(codec_of("toml"), Codec::Toml);
    assert_eq!(codec_of("yaml"), Codec::Yaml);
    assert_eq!(codec_of("yml"), Codec::Yaml);
    assert_eq!(codec_of("JSON"), Codec::Yaml);
    assert_eq!(codec_of(""), Codec::Yaml);
    assert_eq!(file_extension(Codec::Json), ".json");
    assert_eq!(file_extension(Codec::Toml), ".toml");
    assert_eq!(file_extension(Codec::Yaml), ".yml");
}

#[test]
fn yaml_loses_its_document_marker() {
    assert_eq!(
        format_data("---\n_version: 1\na: b\n", "yml"),
        ("_version: 1\na: b\n".to_string(), ".yml")
    );
    assert_eq!(
        format_data("------ \n\t x: y", "yaml"),
        ("x: y".to_string(), ".yml")
    );
    assert_eq!(
        format_data("_version: 1\n---\n", "other"),
        ("_version: 1\n---\n".to_string(), ".yml")
    );
}

#[test]
fn json_and_toml_are_left_as_rendered() {
    assert_eq!(
        format_data("---\n{ }\n", "json"),
        ("---\n{ }\n".to_string(), ".json")
    );
    assert_eq!(
        format_data("  _version = 2\n", "toml"),
        ("  _version = 2\n".to_string(), ".toml")
    );
}

#[test]
fn files_are_told_apart_by_name() {
    assert!(!ignore_file_ndone("en.yml"));
    assert!(ignore_file_ndone("TODO.en.yml"));
    assert!(ignore_file_ndone("REMOVED.en.yml"));
    assert!(ignore_file_ntodo("en.yml"));
    assert!(!ignore_file_ntodo("TODO.en.yml"));
    assert!(ignore_file_ntodo("REMOVED.en.yml"));
    assert!(ignore_file_nremoved("en.yml"));
    assert!(ignore_file_nremoved("TODO.en.yml"));
    assert!(!ignore_file_nremoved("REMOVED.en.yml"));
    assert!(!ignore_file_ndone("todo.en.yml"));
}
