use tracer::parser::{
    find_logical_unit_refs, find_tag_id, logical_unit_definiendum, logical_unit_id,
    logical_unit_ref, UnitRefSearch,
};

#[test]
fn can_parse_id() {
    assert_eq!(
        logical_unit_id("FOO.1::BAR-BAZ.2::BING.3").unwrap(),
        vec![
            ("FOO".to_string(), 1),
            ("BAR-BAZ".to_string(), 2),
            ("BING".to_string(), 3)
        ]
    )
}

#[test]
fn parser_can_parse_defininiendum() {
    assert_eq!(
        "FOO.1::BAR.1::BAZ-BOP.1".to_string(),
        logical_unit_definiendum("|FOO.1::BAR.1::BAZ-BOP.1|").unwrap()
    )
}

#[test]
fn parse_can_parse_defininiendum() {
    assert_eq!(
        Ok("FOO.1::BAR.1::BAZ.1".to_string()),
        logical_unit_definiendum("|FOO.1::BAR.1::BAZ.1|")
    )
}

#[test]
fn find_logical_unit_refs_can_extract_unit_refs_from_text() {
    let expected: Vec<UnitRefSearch> = vec![
        UnitRefSearch::Text("Some text here ".into()),
        UnitRefSearch::Ref("FOO.1::BAR.1".into()),
        UnitRefSearch::Text(" more text ".into()),
        UnitRefSearch::Ref("FIZ.1".into()),
    ];
    let actual = find_logical_unit_refs("Some text here [FOO.1::BAR.1] more text [FIZ.1]");
    assert_eq!(expected, actual.unwrap())
}

#[test]
fn find_logical_unit_refs_with_no_refs_is_none() {
    let actual = find_logical_unit_refs("Some text here but now ref");
    assert_eq!(None, actual)
}

#[test]
fn find_logical_unit_refs_does_not_error_on_empty_string() {
    let actual = find_logical_unit_refs("");
    assert_eq!(None, actual)
}

#[test]
fn id_needs_at_least_one_part() {
    assert!(logical_unit_id("").is_err());
    assert!(logical_unit_definiendum("||").is_err());
    assert!(logical_unit_ref("[]").is_err());
    assert_eq!(None, find_logical_unit_refs("an empty pair [] of brackets"));
}

#[test]
fn tag_needs_two_characters_and_an_initial() {
    assert!(logical_unit_id("F.1").is_err());
    assert!(logical_unit_id("1FOO.1").is_err());
    assert!(logical_unit_id("-FOO.1").is_err());
    assert_eq!(logical_unit_id("_F.1").unwrap(), vec![("_F".to_string(), 1)]);
    assert_eq!(logical_unit_id("F-.1").unwrap(), vec![("F-".to_string(), 1)]);
    assert_eq!(logical_unit_id("f0.1").unwrap(), vec![("f0".to_string(), 1)]);
}

#[test]
fn version_is_positive_without_leading_zero() {
    assert!(logical_unit_id("FOO.0").is_err());
    assert!(logical_unit_id("FOO.01").is_err());
    assert!(logical_unit_id("FOO.").is_err());
    assert!(logical_unit_id("FOO").is_err());
    assert!(logical_unit_id("FOO.1a").is_err());
    assert_eq!(logical_unit_id("FOO.10").unwrap(), vec![("FOO".to_string(), 10)]);
    assert_eq!(
        logical_unit_id("FOO.4294967295").unwrap(),
        vec![("FOO".to_string(), 4294967295)]
    );
    assert!(logical_unit_id("FOO.4294967296").is_err());
    assert!(logical_unit_id("FOO.99999999999999999999999999").is_err());
}

#[test]
fn whole_input_must_match() {
    assert!(logical_unit_id("FOO.1::").is_err());
    assert!(logical_unit_id("FOO.1:BAR.1").is_err());
    assert!(logical_unit_id("::FOO.1").is_err());
    assert!(logical_unit_id(" FOO.1").is_err());
    assert!(logical_unit_id("FOO.1 ").is_err());
    assert!(logical_unit_id("FOO.1::BAR").is_err());
}

#[test]
fn parse_error_names_the_input() {
    let err = logical_unit_id("not an id").unwrap_err();
    assert_eq!(err.input, "not an id");
    assert_eq!(err.to_string(), "malformed logical unit id: not an id");
}

#[test]
fn reference_is_an_id_in_brackets() {
    assert_eq!(logical_unit_ref("[FOO.1::BAR.2]").unwrap(), "FOO.1::BAR.2");
    assert!(logical_unit_ref("|FOO.1|").is_err());
    assert!(logical_unit_ref("[FOO.1").is_err());
    assert!(logical_unit_ref("[FOO.1]]").is_err());
    assert!(logical_unit_definiendum("[FOO.1]").is_err());
}

#[test]
fn adjacent_references_and_broken_brackets() {
    assert_eq!(
        find_logical_unit_refs("[FOO.1][BAR.2]").unwrap(),
        vec![
            UnitRefSearch::Ref("FOO.1".into()),
            UnitRefSearch::Ref("BAR.2".into())
        ]
    );
    assert_eq!(
        find_logical_unit_refs("[[FOO.1] and [BAR.1::] end").unwrap(),
        vec![
            UnitRefSearch::Text("[".into()),
            UnitRefSearch::Ref("FOO.1".into()),
            UnitRefSearch::Text(" and [BAR.1::] end".into()),
        ]
    );
    assert_eq!(None, find_logical_unit_refs("[FOO.99999999999]"));
}

#[test]
fn finds_the_first_definiendum_of_a_line() {
    assert_eq!(
        find_tag_id("///4 |FOO.1::BAR.2::BAZ.1|"),
        Some("FOO.1::BAR.2::BAZ.1".to_string())
    );
    assert_eq!(
        find_tag_id("a | b |FOO.1| and |BAR.1|"),
        Some("FOO.1".to_string())
    );
    assert_eq!(find_tag_id("fn some_fun() {}"), None);
    assert_eq!(find_tag_id(""), None);
    assert_eq!(find_tag_id("|FOO.0|"), None);
}

#[test]
fn pieces_put_together_are_the_text() {
    let texts = [
        "",
        "[FOO.1]",
        "[[FOO.1]]",
        "a[FOO.1]b[BAR.2::BAZ.3]",
        "[FOO.1",
        "FOO.1]",
        "[FOO.1::]",
        "[FOO.1::BAR]",
        "[FOO.01][FOO.10]",
        "gr\u{fc}n [FOO.1] \u{1f600}",
        "[FOO.1][FOO.1][FOO.1]",
        "] [ [] [FOO] [FOO.] [.1] [F.1] [FO.1]",
    ];
    for text in texts {
        match find_logical_unit_refs(text) {
            None => {
                // No piece of the text is a reference.
                for (i, _) in text.char_indices() {
                    for (j, _) in text.char_indices().chain([(text.len(), ' ')]) {
                        if i < j {
                            assert!(logical_unit_ref(&text[i..j]).is_err(), "{}", &text[i..j]);
                        }
                    }
                }
            }
            Some(segments) => {
                let mut rebuilt = String::new();
                let mut last_was_text = false;
                for segment in &segments {
                    match segment {
                        UnitRefSearch::Text(t) => {
                            assert!(!t.is_empty());
                            assert!(!last_was_text);
                            assert_eq!(find_logical_unit_refs(t), None);
                            rebuilt.push_str(t);
                            last_was_text = true;
                        }
                        UnitRefSearch::Ref(id) => {
                            assert!(logical_unit_id(id).is_ok());
                            rebuilt.push('[');
                            rebuilt.push_str(id);
                            rebuilt.push(']');
                            last_was_text = false;
                        }
                    }
                }
                assert_eq!(rebuilt, text);
                assert!(segments.iter().any(|s| matches!(s, UnitRefSearch::Ref(_))));
            }
        }
    }
}
