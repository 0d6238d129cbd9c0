use tracer::dom::{parse_html, parse_html_fragment, to_html, to_inner_html};
use tracer::markup::{Attribute, Markup, QualifiedName};

#[test]
fn fragments_are_read_as_trees() {
    let doc = parse_html_fragment("<p class=\"c\">a<!-- b --><em>d</em></p>");
    assert_eq!(
        doc,
        Markup::Root(vec![Markup::element(
            "html",
            vec![],
            vec![Markup::element(
                "p",
                vec![Attribute::plain("class", "c")],
                vec![
                    Markup::text("a"),
                    Markup::Comment(" b ".to_string()),
                    Markup::element("em", vec![], vec![Markup::text("d")]),
                ],
            )],
        )])
    );
    assert_eq!(to_html(&doc), "<html><p class=\"c\">a<!-- b --><em>d</em></p></html>");
    assert_eq!(to_inner_html(&doc), "<html><p class=\"c\">a<!-- b --><em>d</em></p></html>");
}

#[test]
fn documents_are_read_as_trees() {
    let doc = parse_html("<!DOCTYPE html><title>t</title><p>x");
    assert_eq!(
        doc,
        Markup::Root(vec![
            Markup::Doctype("html".to_string(), "".to_string(), "".to_string()),
            Markup::element(
                "html",
                vec![],
                vec![
                    Markup::element(
                        "head",
                        vec![],
                        vec![Markup::element("title", vec![], vec![Markup::text("t")])]
                    ),
                    Markup::element(
                        "body",
                        vec![],
                        vec![Markup::element("p", vec![], vec![Markup::text("x")])]
                    ),
                ]
            ),
        ])
    );
    assert_eq!(
        to_html(&doc),
        "<!DOCTYPE html><html><head><title>t</title></head><body><p>x</p></body></html>"
    );
    assert_eq!(parse_html(&to_html(&doc)), doc);
}

#[test]
fn each_kind_of_node_is_written() {
    assert_eq!(to_html(&Markup::text("a < b & c")), "a &lt; b &amp; c");
    assert_eq!(to_html(&Markup::Comment(" x ".to_string())), "<!-- x -->");
    assert_eq!(
        to_html(&Markup::Doctype("html".to_string(), "p".to_string(), "s".to_string())),
        "<!DOCTYPE html>"
    );
    assert_eq!(
        to_html(&Markup::ProcessingInstruction("target".to_string(), "data".to_string())),
        "<?target data>"
    );
    assert_eq!(to_html(&Markup::Root(vec![])), "");
    let element = Markup::element(
        "a",
        vec![Attribute::plain("href", "#x"), Attribute::plain("class", "c")],
        vec![Markup::text("x"), Markup::text("y")],
    );
    // An element keeps its attributes by name.
    assert_eq!(to_html(&element), "<a class=\"c\" href=\"#x\">xy</a>");
    assert_eq!(to_inner_html(&element), "xy");
    assert_eq!(to_inner_html(&Markup::text("x")), "");
    assert_eq!(element.copy(), element);
}

#[test]
fn deep_documents_are_read_whole() {
    let mut html = String::new();
    for _ in 0..200 {
        html.push_str("<div>");
    }
    html.push_str("x");
    let doc = parse_html_fragment(&html);
    let text = to_html(&doc);
    assert!(text.starts_with("<html><div><div>"));
    assert!(text.contains("<div>x</div>"));
    assert_eq!(text.matches("<div>").count(), 200);
}

#[test]
fn attributes_are_held_by_name_and_the_last_of_a_name_stays() {
    let given = vec![
        Attribute::plain("b", "1"),
        Attribute::plain("a", "2"),
        Attribute::plain("b", "3"),
        Attribute::plain("ab", "4"),
        Attribute::plain("B", "5"),
    ];
    let element = Markup::element("p", given, vec![]);
    assert_eq!(to_html(&element), "<p B=\"5\" a=\"2\" ab=\"4\" b=\"3\"></p>");

    // The namespace counts before the local name.
    let linked = Attribute {
        name: QualifiedName {
            prefix: Some("xlink".to_string()),
            ns: "http://www.w3.org/1999/xlink".to_string(),
            local: "a".to_string(),
        },
        value: "1".to_string(),
    };
    let element = Markup::element("p", vec![linked, Attribute::plain("z", "2")], vec![]);
    assert_eq!(to_html(&element), "<p z=\"2\" xlink:a=\"1\"></p>");

    // What was read is written as it is.
    let html = "<p id=\"x\" class=\"c\" data-a=\"1\">t</p>";
    let doc = parse_html_fragment(html);
    assert_eq!(parse_html_fragment(&to_inner_html(&doc)), doc);
    assert_eq!(
        to_inner_html(&doc),
        "<html><p class=\"c\" data-a=\"1\" id=\"x\">t</p></html>"
    );
}
