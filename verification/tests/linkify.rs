use tracer::dom::{parse_html, to_html};
use tracer::linkify::{
    adjust_markdown, anchor_terms, as_naked_unit_tag, gfm_anchorify, link_refs, linkify,
    linkify_spec_string, references_of_html, referenced_tags, tag_to_id_ref, LinkifyError,
    UnitLocations,
};
use tracer::markup::{Attribute, Markup};

fn wrap_as_doc(html: &str) -> String {
    let mut wrapped = "<html><head></head><body>".to_owned();
    wrapped.push_str(html);
    wrapped.push_str("</body></html>");
    wrapped
}

fn assert_html_transformation(input: &str, expected_output: &str) {
    let input = wrap_as_doc(input);
    let expected = wrap_as_doc(expected_output);
    let actual = linkify_spec_string(None, &input.to_string(), false).unwrap();
    println!("Expected:\n{}", expected);
    println!("Actual:\n{}", actual);
    assert_eq!(actual, expected);
}

#[test]
fn can_add_anchors_to_spec() {
    let html = r#"
<dl>
  <dt>|FOO.1::BAR.1|</dt>
  <dd>Bam bip blop.</dd>
</dl>
"#;
    let expected = r#"
<dl>
  <dt><span id="FOO.1::BAR.1">|FOO.1::BAR.1|</span></dt>
  <dd>Bam bip blop.</dd>
</dl>
"#;
    assert_html_transformation(html, expected)
}

#[test]
fn can_add_anchors_to_wrapped_elements() {
    let html = r#"
<dl>
  <dt><em>|FOO.1::BIZ.1|</em></dt>
  <dd>Bam bip blop.</dd>
</dl>
"#;
    let expected = r#"
<dl>
  <dt><span id="FOO.1::BIZ.1"><em>|FOO.1::BIZ.1|</em></span></dt>
  <dd>Bam bip blop.</dd>
</dl>
"#;
    assert_html_transformation(html, expected)
}

#[test]
fn does_not_add_redundant_anchors() {
    let html = r#"
<dl>
  <dt><a id="FOO.1::BAZ.1">|FOO.1::BAZ.1|</a></dt>
  <dd>Bam bip blop.</dd>
  <dt><span id="FOO.1::BAZ.1">|FOO.1::BAZ.1|</span></dt>
  <dd>Bam bip blop.</dd>
  <dt><em id="FOO.1::BOZ.1">|FOO.1::BOZ.1|</em></dt>
  <dd>Bam bip blop.</dd>
</dl>
"#;
    // Since all the <dt>'s are already anchored, the
    // transformation should be a no-op.
    assert_html_transformation(html, html)
}

#[test]
fn can_linkify_refs_in_paragraph() {
    let html = r#"
<p>
Here is some text, and here is a ref [FOO.1::BAR.1] and here is more
text and then another ref [FOO.1].
</p>
"#;
    let expected = r##"
<p>
Here is some text, and here is a ref <a href="#FOO.1::BAR.1">FOO.1::BAR.1</a> and here is more
text and then another ref <a href="#FOO.1">FOO.1</a>.
</p>
"##;
    assert_html_transformation(html, expected)
}

// Adresses a bug where deletion of the current text node was aborting
// iteration through thre reamining text nodes.
#[test]
fn can_linkify_refs_accross_multiple_paragraphs() {
    let html = r#"
<p>
Here is some text, and here is a ref [FOO.1::BAR.1] and here is more
text and then another ref [FOO.1].
</p>

<p>
Here is some text, and here is a ref [FOO.1::BIR.1] and here is more
text and then another ref [FOP.1].
</p>
"#;
    let expected = r##"
<p>
Here is some text, and here is a ref <a href="#FOO.1::BAR.1">FOO.1::BAR.1</a> and here is more
text and then another ref <a href="#FOO.1">FOO.1</a>.
</p>

<p>
Here is some text, and here is a ref <a href="#FOO.1::BIR.1">FOO.1::BIR.1</a> and here is more
text and then another ref <a href="#FOP.1">FOP.1</a>.
</p>
"##;
    assert_html_transformation(html, expected)
}

#[test]
fn can_linkify_refs_in_dd_elements() {
    let html = r#"
<dl>
<dt>|FOO.1::BAR.1|</dt>
<dd>
Here is some text, and here is a ref [FOO.1::BAR.1] and here is more
text and then another ref [FOO.1].
</dd>
</dl>
"#;
    let expected = r##"
<dl>
<dt><span id="FOO.1::BAR.1">|FOO.1::BAR.1|</span></dt>
<dd>
Here is some text, and here is a ref <a href="#FOO.1::BAR.1">FOO.1::BAR.1</a> and here is more
text and then another ref <a href="#FOO.1">FOO.1</a>.
</dd>
</dl>
"##;
    assert_html_transformation(html, expected)
}

#[test]
fn gfm_md_compatible_anchoring() {
    // This is testing the ad-hoc post-processing we do on the pandoc
    // generated markdown (that's where the escaped `|`s come from)
    let actual = gfm_anchorify(
        r#"
\|FOO.1\|
: Some stuff

\|FOO.1::BAR.1\|
: Some other stuff
"#,
    );

    let expected = r#"
<span id="FOO.1">|FOO.1|</span>
: Some stuff

<span id="FOO.1::BAR.1">|FOO.1::BAR.1|</span>
: Some other stuff
"#
    .to_string();

    assert_eq!(actual, expected)
}

#[test]
fn gfm_anchoring_leaves_the_rest_alone() {
    assert_eq!(gfm_anchorify(""), "");
    assert_eq!(gfm_anchorify("|FOO.1| \\|FOO\\| \\|FOO.1|"), "|FOO.1| \\|FOO\\| \\|FOO.1|");
    assert_eq!(
        gfm_anchorify("a\\|FOO.1\\|\\|BAR.2\\|b"),
        "a<span id=\"FOO.1\">|FOO.1|</span><span id=\"BAR.2\">|BAR.2|</span>b"
    );
}

#[test]
fn markdown_is_adjusted_for_its_dialect() {
    assert_eq!(
        adjust_markdown("[\\|FOO.1\\|]{#FOO.1}\n: text \\| more", false),
        "[|FOO.1|]{#FOO.1}\n: text \\| more"
    );
    assert_eq!(
        adjust_markdown("\\|FOO.1\\|\n: text", true),
        "<span id=\"FOO.1\">|FOO.1|</span>\n: text"
    );
}

#[test]
fn gfm_output_is_not_anchored_in_the_tree() {
    let input = wrap_as_doc("<dl><dt>|FOO.1|</dt><dd>see [BAR.1]</dd></dl>");
    let expected =
        wrap_as_doc("<dl><dt>|FOO.1|</dt><dd>see <a href=\"#BAR.1\">BAR.1</a></dd></dl>");
    assert_eq!(linkify_spec_string(None, &input, true).unwrap(), expected);
}

#[test]
fn anchoring_twice_is_anchoring_once() {
    let input = wrap_as_doc(
        "<dl><dt>|FOO.1|</dt><dd>x</dd><dt><em>|FOO.2|</em></dt><dt><a id=\"y\">|FOO.3|</a></dt><dt>|FOO.4| and more</dt><dt><b>|FOO.5|</b><i>z</i></dt></dl>",
    );
    let doc = parse_html(&input);
    let once = anchor_terms(&doc);
    let twice = anchor_terms(&once);
    assert_eq!(once, twice);
    assert_ne!(once, doc);
    assert_eq!(
        to_html(&once),
        wrap_as_doc(
            "<dl><dt><span id=\"FOO.1\">|FOO.1|</span></dt><dd>x</dd><dt><span id=\"FOO.2\"><em>|FOO.2|</em></span></dt><dt><a id=\"y\">|FOO.3|</a></dt><dt>|FOO.4| and more</dt><dt><b>|FOO.5|</b><i>z</i></dt></dl>"
        )
    );
    let once_text = linkify_spec_string(None, &input, false).unwrap();
    assert_eq!(linkify_spec_string(None, &once_text, false).unwrap(), once_text);
}

#[test]
fn naked_definitions_are_detected() {
    let text = vec![Markup::text("|FOO.1::BAR.1|")];
    assert_eq!(as_naked_unit_tag(&text), Some("FOO.1::BAR.1".to_string()));
    let emphasised = vec![Markup::element("em", vec![], vec![Markup::text("|FOO.1::BAR.1|")])];
    assert_eq!(as_naked_unit_tag(&emphasised), Some("FOO.1::BAR.1".to_string()));
    let anchored = vec![Markup::element(
        "a",
        vec![Attribute::plain("id", "FOO.1::BAR.1")],
        vec![Markup::text("|FOO.1::BAR.1|")],
    )];
    assert_eq!(as_naked_unit_tag(&anchored), None);
    let anchored_deeper = vec![Markup::element(
        "em",
        vec![],
        vec![Markup::element(
            "a",
            vec![Attribute::plain("id", "x")],
            vec![Markup::text("|FOO.1::BAR.1|")],
        )],
    )];
    assert_eq!(as_naked_unit_tag(&anchored_deeper), None);
    let branching = vec![Markup::text("|FOO.1::BAR.1|"), Markup::element("em", vec![], vec![])];
    assert_eq!(as_naked_unit_tag(&branching), None);
    assert_eq!(as_naked_unit_tag(&vec![Markup::text("FOO.1::BAR.1")]), None);
    assert_eq!(as_naked_unit_tag(&vec![]), None);
    let other_attribute = vec![Markup::element(
        "em",
        vec![Attribute::plain("class", "id")],
        vec![Markup::text("|FOO.1|")],
    )];
    assert_eq!(as_naked_unit_tag(&other_attribute), Some("FOO.1".to_string()));
}

#[test]
fn references_link_to_known_locations() {
    let mut table = UnitLocations::new();
    table.add("FOO.1", "https://example.com/blob/main/a.md#FOO.1");
    table.add("FOO.1", "ignored");
    assert_eq!(table.get_path("FOO.1"), Some("https://example.com/blob/main/a.md#FOO.1".to_string()));
    assert_eq!(table.get_path("BAR.1"), None);
    let input = wrap_as_doc("<p>see [FOO.1]</p>");
    assert_eq!(
        linkify_spec_string(Some(&table), &input, false).unwrap(),
        wrap_as_doc("<p>see <a href=\"https://example.com/blob/main/a.md#FOO.1\">FOO.1</a></p>")
    );
    let unknown = wrap_as_doc("<p>see [FOO.1] and [BAR.1] and [BAZ.1]</p>");
    let err = linkify_spec_string(Some(&table), &unknown, false).unwrap_err();
    assert_eq!(err, LinkifyError::UnitNotFound("BAR.1".to_string()));
    assert_eq!(err.to_string(), "No location is known for the logical unit BAR.1");
}

#[test]
fn a_text_with_references_becomes_several_nodes() {
    let text = Markup::text("a [FOO.1] b");
    let linked = link_refs(&text, None).unwrap();
    assert_eq!(
        linked,
        vec![
            Markup::text("a "),
            Markup::element(
                "a",
                vec![Attribute::plain("href", "#FOO.1")],
                vec![Markup::text("FOO.1")]
            ),
            Markup::text(" b"),
        ]
    );
    let plain = Markup::text("no reference [here]");
    assert_eq!(link_refs(&plain, None).unwrap(), vec![Markup::text("no reference [here]")]);
    assert_eq!(linkify(None, &plain, false).unwrap(), vec![Markup::text("no reference [here]")]);
    assert_eq!(tag_to_id_ref("FOO.1::BAR.1"), "#FOO.1::BAR.1");
}

#[test]
fn documents_keep_what_is_not_rewritten() {
    let input = "<!DOCTYPE html><html lang=\"en\"><head><title>t &amp; u</title><!-- note --></head><body class=\"a b\"><p id=\"p\">x &lt; y</p><svg viewBox=\"0 0 1 1\"><circle r=\"1\"></circle></svg><script>if (a < b) {}</script></body></html>";
    assert_eq!(linkify_spec_string(None, input, false).unwrap(), input);
    assert_eq!(to_html(&parse_html(input)), input);
    let copy = parse_html(input).copy();
    assert_eq!(to_html(&copy), input);
}

#[test]
fn references_of_a_document_are_found_in_order() {
    let html = wrap_as_doc(
        "<dl><dt>|FOO.1|</dt><dd>see [BAR.1] and [BAZ.2::QUX.1]</dd></dl><p>[BAR.1] [none] <em>[FOO.1]</em></p>",
    );
    assert_eq!(references_of_html(&html), vec!["BAR.1", "BAZ.2::QUX.1", "BAR.1", "FOO.1"]);
    assert_eq!(references_of_html("no references"), Vec::<String>::new());
    assert_eq!(referenced_tags(&Markup::text("[A1.1][B2.2]")), vec!["A1.1", "B2.2"]);
    // A table with the locations of the references alone is enough.
    let mut table = UnitLocations::new();
    for tag in references_of_html(&html) {
        table.add(&tag, "there");
    }
    assert!(linkify_spec_string(Some(&table), &html, false).is_ok());
    assert!(linkify_spec_string(Some(&table), &html, true).is_ok());
}
