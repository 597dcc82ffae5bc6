use indexmap::IndexMap;
use rust_i18n_extract::extractor::{extract, format_message_key, Location, Message};
use std::path::PathBuf;
use std::str::FromStr;

#[test]
fn test_format_message_key() {
    assert_eq!(format_message_key("Hello world"), "Hello world".to_owned());
    assert_eq!(format_message_key("\n    "), "".to_owned());
    assert_eq!(format_message_key("\n    "), "".to_owned());
    assert_eq!(format_message_key("\n    hello"), "hello".to_owned());
    assert_eq!(format_message_key("\n    hello\n"), "hello".to_owned());
    assert_eq!(format_message_key("\n    hello\n    "), "hello".to_owned());
    assert_eq!(
        format_message_key("\n    hello\n    world"),
        "hello world".to_owned()
    );
    assert_eq!(
        format_message_key("\n    hello\n    world\n\n"),
        "hello world".to_owned()
    );
    assert_eq!(
        format_message_key("\n    hello\n    world\n    "),
        "hello world".to_owned()
    );
    assert_eq!(
        format_message_key("    hello\n    world\n    "),
        "hello world".to_owned()
    );
    assert_eq!(
        format_message_key(
            r#"Use YAML for mapping localized text, 
            and support mutiple YAML files merging."#
        ),
        "Use YAML for mapping localized text, and support mutiple YAML files merging."
            .to_owned()
    );
}

fn message(key: &str, val: Option<String>, lines: &[usize]) -> Message {
    Message {
        key: key.into(),
        val,
        locations: lines
            .iter()
            .map(|line| Location {
                file: PathBuf::from_str("hello.rs").unwrap(),
                line: *line,
            })
            .collect(),
        index: 0,
    }
}

const EXAMPLE: &str = r#"use rust_i18n::t;

fn greet() {
    t!("hello");
    t!("views.message.title");

    let description = t!("views.message.description");
    println!("{}", description);

    if true {
        t!("Use YAML for mapping localized text, and support mutiple YAML files merging.");
    }

    t!("Use YAML for mapping localized text,
        and support mutiple YAML files merging.");

    let run = || {
        { { t!("The table below describes some of those behaviours."); } }
        let again = true;
        t!(r"The table below describes some of those behaviours.");
    };
    run();
    let text = _rust_i18n_translate(locale,
        /// TESTTT
        "Unfolded.test1.test");
}
"#;

#[test]
fn test_extract() {
    let expected = vec![
        message("hello", None, &[4]),
        message("views.message.title", None, &[5]),
        message("views.message.description", None, &[7]),
        message(
            "Use YAML for mapping localized text, and support mutiple YAML files merging.",
            None,
            &[11, 14],
        ),
        message(
            "The table below describes some of those behaviours.",
            None,
            &[18, 20],
        ),
        message("Unfolded.test1.test", Some("TESTTT".to_string()), &[25]),
    ];

    let mut results = IndexMap::new();
    let path: PathBuf = "hello.rs".to_owned().into();
    extract(&mut results, &path, EXAMPLE).unwrap();

    let mut messages: Vec<_> = results.values().collect();
    messages.sort_by_key(|m| m.index);
    assert_eq!(expected.len(), messages.len());

    for (expected_message, actually_message) in expected.iter().zip(messages) {
        let mut actually_message = actually_message.clone();
        actually_message.index = 0;

        assert_eq!(*expected_message, actually_message);
    }
}
