use fontwatch::description::candidates;
use fontwatch::description::infer_name;
use fontwatch::description::Description;

const TEMPLATE: &str = "https://www.google.com/fonts/specimen/";

#[test]
fn infer_name_splits_camel_case() {
    assert_eq!(infer_name("FamilyName-Bold.ttf"), Some("Family Name".to_string()));
}

#[test]
fn infer_name_keeps_lowercase() {
    assert_eq!(infer_name("lowercase.ttf"), Some("lowercase".to_string()));
}

#[test]
fn infer_name_rejects_unrecognized_extension() {
    assert_eq!(infer_name("font.otf"), None);
    assert_eq!(infer_name("no_extension"), None);
}

#[test]
fn infer_name_ignores_extension_case() {
    assert_eq!(infer_name("Family.TTF"), Some("Family".to_string()));
    assert_eq!(infer_name("Family.Ttf"), Some("Family".to_string()));
}

#[test]
fn candidates_shrink_by_one_token() {
    let cands = candidates("Open Sans");
    assert_eq!(
        cands,
        vec![format!("{TEMPLATE}Open+Sans"), format!("{TEMPLATE}Open")]
    );
}

#[test]
fn candidates_for_a_single_token() {
    assert_eq!(candidates("Solo"), vec![format!("{TEMPLATE}Solo")]);
}

#[test]
fn guessing_stops_at_first_success() {
    let base = Description {
        name: Some("Open Sans".to_string()),
        designer: None,
        url: None,
    };
    let first = base.populate_by_guessing(&vec![true, false]);
    assert_eq!(first.url, Some(format!("{TEMPLATE}Open+Sans")));

    let base = Description {
        name: Some("Open Sans".to_string()),
        designer: None,
        url: None,
    };
    let second = base.populate_by_guessing(&vec![false, true]);
    assert_eq!(second.url, Some(format!("{TEMPLATE}Open")));

    let base = Description {
        name: Some("Open Sans".to_string()),
        designer: None,
        url: None,
    };
    let miss = base.populate_by_guessing(&vec![false, false]);
    assert_eq!(miss.url, None);
}

#[test]
fn guessing_without_a_name_probes_nothing() {
    let desc = Description::new().populate_by_guessing(&vec![true, true]);
    assert_eq!(desc.name, None);
    assert_eq!(desc.url, None);
}

#[test]
fn metadata_overrides_filename_inference() {
    let sidecar = r#"{"name": "Custom Sans", "designer": "Jane Doe"}"#;
    let files = vec!["Whatever-Bold.ttf".to_string()];
    let desc = Description::load(Some(sidecar), &files, &vec![true]);
    assert_eq!(desc.name, Some("Custom Sans".to_string()));
    assert_eq!(desc.designer, Some("Jane Doe".to_string()));
    assert_eq!(desc.url, Some(format!("{TEMPLATE}Custom+Sans")));
}

#[test]
fn malformed_metadata_contributes_nothing() {
    let desc = Description::load(Some("not json at all"), &vec![], &vec![]);
    assert_eq!(desc.name, None);
    assert_eq!(desc.designer, None);
    assert_eq!(desc.url, None);
}

#[test]
fn untame_metadata_contributes_nothing() {
    // The digit run in the exponent would overflow the parser's exponent
    // accumulator, so the whole record is treated as unparseable.
    let sidecar = r#"{"name": "X", "designer": "Y", "n": 1e99999999999999999999}"#;
    let desc = Description::load(Some(sidecar), &vec![], &vec![]);
    assert_eq!(desc.name, None);
    assert_eq!(desc.designer, None);
}

#[test]
fn long_but_tame_metadata_still_parses() {
    let sidecar = r#"{"name": "X", "designer": "Y", "size": 123456789012345678}"#;
    let desc = Description::load(Some(sidecar), &vec![], &vec![]);
    assert_eq!(desc.name, Some("X".to_string()));
    assert_eq!(desc.designer, Some("Y".to_string()));
}

#[test]
fn metadata_requires_both_fields() {
    let desc = Description::load(Some(r#"{"name": "Solo"}"#), &vec![], &vec![]);
    assert_eq!(desc.name, None);
    assert_eq!(desc.designer, None);
}

#[test]
fn empty_metadata_fields_stay_unset() {
    let sidecar = r#"{"name": "", "designer": "Jane Doe"}"#;
    let desc = Description::load(Some(sidecar), &vec![], &vec![]);
    assert_eq!(desc.name, None);
    assert_eq!(desc.designer, Some("Jane Doe".to_string()));
}

#[test]
fn inference_takes_the_first_recognized_file() {
    let files = vec![
        "README".to_string(),
        "OpenSans-Bold.ttf".to_string(),
        "OtherFont.ttf".to_string(),
    ];
    let desc = Description::load(None, &files, &vec![]);
    assert_eq!(desc.name, Some("Open Sans".to_string()));
}

#[test]
fn resolution_never_fails_on_odd_inputs() {
    let desc = Description::load(None, &vec![".ttf".to_string(), "-x.ttf".to_string()], &vec![]);
    assert_eq!(desc.name, None);
    assert_eq!(desc.designer, None);
    assert_eq!(desc.url, None);
}
