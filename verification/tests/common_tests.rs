//! Tests for the shared helpers: strings, filenames, paths and
//! categories.

use speki::card::{StatementCard, UnfinishedCard};
use speki::timestamp::TimeStamp;
use speki::categories::Category;
use speki::common::{current_time, my_sanitize_filename, truncate_string};
use speki::paths::{
    get_cards_path, get_import_csv, get_media_path, get_ml_path, get_runmodel_path,
    get_share_path,
};

#[test]
fn truncate_keeps_a_prefix() {
    assert_eq!(truncate_string("hello world".to_string(), 5), "hello");
    assert_eq!(truncate_string("hi".to_string(), 5), "hi");
    assert_eq!(truncate_string("".to_string(), 5), "");
    assert_eq!(truncate_string("abc".to_string(), 0), "");
}

#[test]
fn sanitize_replaces_spaces_and_drops_quotes() {
    assert_eq!(my_sanitize_filename("a b'c"), "a_bc");
    // The sanitizer itself must act too: a path separator is illegal in a
    // file name and is deleted.
    assert_eq!(my_sanitize_filename("a/b"), "ab");
    assert_eq!(my_sanitize_filename(""), "");
}

#[test]
fn share_paths_nest_as_documented() {
    let share = get_share_path();
    assert!(share.ends_with("/.local/share/speki/"));
    assert!(get_cards_path().ends_with("/.local/share/speki/cards"));
    assert!(get_import_csv().ends_with("/.local/share/speki/import.csv"));
    assert!(get_ml_path().ends_with("/.local/share/speki/ml/"));
    assert!(get_runmodel_path().ends_with("/.local/share/speki/ml/runmodel.py"));
    assert!(get_media_path().ends_with("/.local/share/speki/media/"));
}

#[test]
fn clock_reads_after_the_epoch() {
    // Sanity only: the clock is an environment value.
    let now = current_time();
    assert!(now > 0);
}

#[test]
fn category_joins_and_prints() {
    let root = Category::default();
    assert_eq!(root.collection, "personal");
    assert_eq!(root.print_it(), "root");
    assert_eq!(root.clone().joined(), "");
    assert_eq!(root.clone().print_full(), "/");

    let deep = root.join("math").join("algebra");
    assert_eq!(deep.joined(), "math/algebra");
    assert_eq!(deep.print_it(), "algebra");
    assert_eq!(deep.print_full(), "/math/algebra");
    assert_eq!(deep.print_it_with_depth(), "    algebra");
    assert!(deep.as_path().ends_with("/personal/math/algebra"));
}

#[test]
fn simple_card_kinds_expose_their_front() {
    let u = UnfinishedCard { front: "what is ice".to_string() };
    assert_eq!(u.display_front(), "what is ice");
    assert!(u.get_dependencies().is_empty());
    let s = StatementCard { front: "anglerfish glow".to_string() };
    assert_eq!(s.display_front(), "anglerfish glow");
    assert!(s.get_dependencies().is_empty());
}

fn ts(
    millenium: u32,
    century: Option<u32>,
    decade: Option<u32>,
    year: Option<u32>,
    after_christ: bool,
) -> TimeStamp {
    TimeStamp {
        millenium,
        century,
        decade,
        year,
        month: None,
        day: None,
        hour: None,
        minute: None,
        after_christ,
    }
}

#[test]
fn timestamp_serializes_every_precision() {
    let date = TimeStamp { month: Some(5), day: Some(8), ..ts(1, Some(9), Some(4), Some(5), true) };
    assert_eq!(date.serialize(), "1945-05-08");

    let minute = TimeStamp {
        month: Some(12),
        day: Some(31),
        hour: Some(23),
        minute: Some(59),
        ..ts(1, Some(9), Some(9), Some(9), true)
    };
    assert_eq!(minute.serialize(), "1999-12-31 23:59");

    // An ancient, coarsely known time: before Christ, only the century.
    assert_eq!(ts(0, Some(5), None, None, false).serialize(), "-05**");
}

#[test]
fn timestamp_round_trips_through_text() {
    let samples = vec![
        ts(2, Some(0), Some(2), Some(4), true),
        ts(0, Some(5), None, None, false),
        TimeStamp { month: Some(7), ..ts(1, Some(8), Some(0), Some(4), true) },
        TimeStamp {
            month: Some(12),
            day: Some(31),
            hour: Some(23),
            minute: Some(59),
            ..ts(1, Some(9), Some(9), Some(9), true)
        },
    ];
    for sample in samples {
        assert_eq!(TimeStamp::from_string(sample.serialize()), Some(sample));
    }
}

#[test]
fn timestamp_accepts_plus_and_bare_heads() {
    let parsed = TimeStamp::from_string("+1***".to_string()).unwrap();
    assert!(parsed.after_christ);
    assert_eq!(parsed.millenium, 1);
    assert_eq!(parsed.century, None);
    let bare = TimeStamp::from_string("19**".to_string()).unwrap();
    assert!(bare.after_christ);
    assert_eq!(bare.century, Some(9));
}

#[test]
fn timestamp_rejects_malformed_text() {
    for bad in ["", "12", "1x34", "*234", "1234x05", "1234-5", "1234-05-08x23"] {
        assert_eq!(TimeStamp::from_string(bad.to_string()), None);
    }
}
