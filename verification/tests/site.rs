use tracer::graph::of_units;
use tracer::logical_unit::{Kind, LogicalUnit};
use tracer::site::{attr, attrs_to_string, unit_tree_html, Html};

fn unit(id: &str, content: &str) -> LogicalUnit {
    LogicalUnit::new(None, None, None, Kind::Requirement, id, content).unwrap()
}

fn test_units() -> Vec<LogicalUnit> {
    vec![
        unit("FOO.1", "Foo content"),
        unit("FOO.1::BAR.1", "Bar content"),
        unit("FOO.1::BAR.1::BAZ.1", "Baz content"),
        unit("FOO.1::BING.1", "Bing content"),
        unit("FIZ.1", "Fiz content"),
    ]
}

#[test]
fn html_from_unit_graph() {
    let units = test_units();
    let actual = Html::from(&of_units(&units));
    let expected = r#"<html >
  <head >
    <title >
        Context
    </title>
  </head>
  <body >
    <dl >
      <dt id="FOO.1">
        <strong >
            FOO.1
        </strong>
      </dt>
      <dd >
        <p class="content">
            Foo content
        </p>
        <details class="implementations">
          <summary >
              Implemented by...
          </summary>
          <dl >
            <dt id="FOO.1::BING.1">
              <strong >
                  FOO.1::BING.1
              </strong>
            </dt>
            <dd >
              <p class="content">
                  Bing content
              </p>
            </dd>
            <dt id="FOO.1::BAR.1">
              <strong >
                  FOO.1::BAR.1
              </strong>
            </dt>
            <dd >
              <p class="content">
                  Bar content
              </p>
              <details class="implementations">
                <summary >
                    Implemented by...
                </summary>
                <dl >
                  <dt id="FOO.1::BAR.1::BAZ.1">
                    <strong >
                        FOO.1::BAR.1::BAZ.1
                    </strong>
                  </dt>
                  <dd >
                    <p class="content">
                        Baz content
                    </p>
                  </dd>
                </dl>
              </details>
            </dd>
          </dl>
        </details>
      </dd>
      <dt id="FIZ.1">
        <strong >
            FIZ.1
        </strong>
      </dt>
      <dd >
        <p class="content">
            Fiz content
        </p>
      </dd>
    </dl>
  </body>
</html>
"#
    .to_string();

    println!("Expected:\n{}", expected);
    println!("Actual:\n{}", actual.to_string());
    assert_eq!(expected, actual.to_string())
}

#[test]
fn can_write_html() {
    let html = Html::tag(
        "html",
        vec![],
        vec![
            Html::tag(
                "head",
                vec![],
                vec![Html::tag("title", vec![], vec![Html::txt("foo")])],
            ),
            Html::tag(
                "body",
                vec![attr("class", "class1 class2")],
                vec![Html::tag("p", vec![], vec![Html::txt("Some content")])],
            ),
        ],
    );
    let actual = html.to_string();
    let expected = r#"<html >
  <head >
    <title >
        foo
    </title>
  </head>
  <body class="class1 class2">
    <p >
        Some content
    </p>
  </body>
</html>
"#
    .to_string();
    println!("Expected:\n{}", expected);
    println!("Actual:\n{}", actual);
    assert_eq!(expected, actual);
}

#[test]
fn attributes_are_separated_by_spaces() {
    assert_eq!(attrs_to_string(&vec![]), "");
    assert_eq!(attrs_to_string(&vec![attr("a", "1")]), "a=\"1\"");
    assert_eq!(attrs_to_string(&vec![attr("a", "1"), attr("b", "2 3")]), "a=\"1\" b=\"2 3\"");
    assert_eq!(Html::txt("x").to_string(), "  x\n");
    assert_eq!(Html::tag("p", vec![], vec![]).to_string(), "<p >\n</p>\n");
}

#[test]
fn tree_of_an_orphan_and_of_an_empty_context() {
    let units = vec![unit("FOO.1::BAR.1", "Bar")];
    let graph = of_units(&units);
    assert_eq!(
        unit_tree_html(0, &graph),
        vec![
            Html::tag(
                "dt",
                vec![attr("id", "FOO.1::BAR.1")],
                vec![Html::tag("strong", vec![], vec![Html::txt("FOO.1::BAR.1")])]
            ),
            Html::tag(
                "dd",
                vec![],
                vec![Html::tag("p", vec![attr("class", "content")], vec![Html::txt("Bar")])]
            ),
        ]
    );
    let none = Vec::new();
    assert_eq!(
        Html::from(&of_units(&none)).to_string(),
        "<html >\n  <head >\n    <title >\n        Context\n    </title>\n  </head>\n  <body >\n    <dl >\n    </dl>\n  </body>\n</html>\n"
    );
}
