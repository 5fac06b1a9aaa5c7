#![allow(non_snake_case)]

use tsx_text::headings::{extractHeadings, matchHeadings};
use tsx_text::json::render_artifact;
use tsx_text::markup::{MarkupChild, SourceUnit};
use tsx_text::pipeline::{artifact_for, is_candidate_path, output_path, ExtractionError};

#[test]
fn artifact_escapes_strings() {
    let texts = vec![
        "say \"hi\"".to_string(),
        "tab\there".to_string(),
        "back\\slash".to_string(),
    ];
    let json = render_artifact(&texts);
    assert_eq!(
        json,
        "{\"text\":[\"say \\\"hi\\\"\",\"tab\\there\",\"back\\\\slash\"]}"
    );
}

#[test]
fn artifact_escapes_control_characters() {
    let texts = vec!["\u{1}x".to_string()];
    assert_eq!(render_artifact(&texts), "{\"text\":[\"\\u0001x\"]}");
}

#[test]
fn artifact_of_empty_sequence() {
    assert_eq!(render_artifact(&Vec::new()), "{\"text\":[]}");
}

#[test]
fn parse_failure_yields_no_artifact() {
    let bad = ExtractionError::ParseFailure {
        message: "expected expression".to_string(),
    };
    let r = artifact_for(Err(bad));
    assert!(r.is_err());
}

#[test]
fn parsed_unit_yields_artifact() {
    let unit = SourceUnit { stmts: vec![] };
    let r = artifact_for(Ok(unit));
    assert_eq!(r.unwrap(), "{\"text\":[]}");
}

#[test]
fn unreadable_file_error_passes_through() {
    let err = ExtractionError::UnreadableFile {
        message: "permission denied".to_string(),
    };
    let r = artifact_for(Err(err));
    match r {
        Err(ExtractionError::UnreadableFile { message }) => {
            assert_eq!(message, "permission denied")
        }
        _ => panic!("expected the error back unchanged"),
    }
}

#[test]
fn candidate_paths() {
    assert!(is_candidate_path("page.tsx"));
    assert!(is_candidate_path(".tsx"));
    assert!(!is_candidate_path("page.ts"));
    assert!(!is_candidate_path("page.tsx.json"));
    assert!(!is_candidate_path("x"));
    assert!(!is_candidate_path(""));
}

#[test]
fn artifact_path_is_sibling_json() {
    assert_eq!(output_path("a/b.tsx"), "a/b.tsx.json");
    assert_eq!(output_path(""), ".json");
}

#[test]
fn heading_names() {
    assert!(matchHeadings("h1"));
    assert!(matchHeadings("h2"));
    assert!(matchHeadings("h3"));
    assert!(matchHeadings("h4"));
    assert!(matchHeadings("h5"));
    assert!(matchHeadings("h6"));
    assert!(!matchHeadings("h0"));
    assert!(!matchHeadings("h7"));
    assert!(!matchHeadings("h"));
    assert!(!matchHeadings("h10"));
    assert!(!matchHeadings("div"));
}

#[test]
fn heading_ids_from_tree() {
    let tree = MarkupChild::Fragment {
        children: vec![
            MarkupChild::Element {
                tag: "h1".to_string(),
                id: Some("intro".to_string()),
                children: vec![],
            },
            MarkupChild::Element {
                tag: "h2".to_string(),
                id: None,
                children: vec![],
            },
            MarkupChild::Element {
                tag: "p".to_string(),
                id: Some("not-a-heading".to_string()),
                children: vec![MarkupChild::Element {
                    tag: "h3".to_string(),
                    id: Some("deep".to_string()),
                    children: vec![],
                }],
            },
        ],
    };
    assert_eq!(
        extractHeadings(&tree),
        vec!["intro".to_string(), "deep".to_string()]
    );
}
