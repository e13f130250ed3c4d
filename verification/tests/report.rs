use fontwatch::description::Description;
use fontwatch::report::display;
use fontwatch::report::status;
use fontwatch::report::timestamp;

fn named(name: &str) -> Description {
    Description { name: Some(name.to_string()), designer: None, url: None }
}

#[test]
fn format_name_alone() {
    assert_eq!(fontwatch::report::format(&named("Foo")), Some("Foo".to_string()));
}

#[test]
fn format_links_the_name() {
    let desc = Description {
        name: Some("Foo".to_string()),
        designer: None,
        url: Some("https://example.org/foo".to_string()),
    };
    assert_eq!(fontwatch::report::format(&desc), Some("[Foo](https://example.org/foo)".to_string()));
}

#[test]
fn format_appends_the_designer() {
    let desc = Description {
        name: Some("Foo".to_string()),
        designer: Some("Jane Doe".to_string()),
        url: Some("https://example.org/foo".to_string()),
    };
    assert_eq!(
        fontwatch::report::format(&desc),
        Some("[Foo](https://example.org/foo) by Jane Doe".to_string())
    );
}

#[test]
fn format_without_a_name_is_nothing() {
    let desc = Description { name: None, designer: Some("Jane Doe".to_string()), url: None };
    assert_eq!(fontwatch::report::format(&desc), None);
}

#[test]
fn display_one_item() {
    let descs = vec![named("Foo")];
    assert_eq!(display("New", &descs), "New:\n\n* Foo.\n\n");
}

#[test]
fn display_two_items() {
    let descs = vec![named("Foo"), named("Bar")];
    assert_eq!(display("New", &descs), "New:\n\n* Foo and\n* Bar.\n\n");
}

#[test]
fn display_three_items() {
    let descs = vec![named("Foo"), named("Bar"), named("Baz")];
    assert_eq!(display("New", &descs), "New:\n\n* Foo,\n* Bar, and\n* Baz.\n\n");
}

#[test]
fn display_skips_unnamed_assets() {
    let descs = vec![
        Description { name: None, designer: None, url: None },
        named("Foo"),
    ];
    assert_eq!(display("Updated", &descs), "Updated:\n\n* Foo.\n\n");
}

#[test]
fn display_of_nothing_is_empty() {
    let unnamed = vec![Description { name: None, designer: None, url: None }];
    assert_eq!(display("New", &vec![]), "");
    assert_eq!(display("New", &unnamed), "");
}

#[test]
fn timestamp_renders_the_date() {
    assert_eq!(timestamp(0, 5, 115), "January 5, 2015");
    assert_eq!(timestamp(11, 31, 126), "December 31, 2026");
}

#[test]
fn status_renders_headed_sections() {
    let new = vec![named("Foo")];
    let updated = vec![named("Bar")];
    let removed = vec![];
    let report = status(0, 5, 115, &new, &updated, &removed);
    assert_eq!(
        report,
        "### January 5, 2015\n\nNew:\n\n* Foo.\n\nUpdated:\n\n* Bar.\n\n"
    );
}

#[test]
fn status_of_an_empty_snapshot_is_empty() {
    assert_eq!(status(0, 5, 115, &vec![], &vec![], &vec![]), "");
}
