use tracer::artifact::{
    extension_of, lines_of, logical_units_of_defs, name_of_file, Artifact, Error, SourceFile,
    SourceFileKind,
};
use tracer::logical_unit::{Kind, LogicalUnit};
use tracer::dom::{parse_html_fragment, reread};
use tracer::markup::Markup;
use tracer::pandoc::{
    can_convert, content_of_blocks, definitions_from_html, definitions_from_string,
    html_from_md_bytes, sorted_definitions, tag_of_term, text_to_convert,
};

// The HTML that the converter makes of
//
// |FOO.1::BAR.1|
// :  Biz baz blam.
//
// |FOO.1::BAZ.1|
// :  Pop crink splot.
//
// |FOO.1::BOP.1|
// :  Can parse URLs
const THREE_UNITS: &str = "<dl>
<dt>|FOO.1::BAR.1|</dt>
<dd>
Biz baz blam.
</dd>
<dt>|FOO.1::BAZ.1|</dt>
<dd>
Pop crink splot.
</dd>
<dt>|FOO.1::BOP.1|</dt>
<dd>
Can parse URLs
</dd>
</dl>
";

#[test]
fn artifact_can_parse_logical_unit() {
    let logical_units = vec![
        LogicalUnit::new(None, None, None, Kind::Requirement, "FOO.1::BAR.1", "Biz baz blam.")
            .unwrap(),
        LogicalUnit::new(None, None, None, Kind::Requirement, "FOO.1::BAZ.1", "Pop crink splot.")
            .unwrap(),
        LogicalUnit::new(None, None, None, Kind::Requirement, "FOO.1::BOP.1", "Can parse URLs")
            .unwrap(),
    ];
    let expected: Artifact = Artifact::new(None, logical_units);
    let actual = Artifact::from_string(THREE_UNITS);
    assert_eq!(actual.unwrap(), expected)
}

#[test]
fn parse_can_parse_logical_unit() {
    let spec = "<dl>
<dt>|FOO.1::BAR.1|</dt>
<dd>
Biz baz blam.
</dd>
<dt>|FOO.1::BAZ.1|</dt>
<dd>
Pop crink splot.
</dd>
</dl>
";
    let expected = vec![
        LogicalUnit::new(None, None, None, Kind::Requirement, "FOO.1::BAR.1", "Biz baz blam.")
            .unwrap(),
        LogicalUnit::new(None, None, None, Kind::Requirement, "FOO.1::BAZ.1", "Pop crink splot.")
            .unwrap(),
    ];
    let expected = Ok(expected);
    let result = tracer::parse::string(spec);
    assert_eq!(expected, result)
}

#[test]
fn can_parse_logical_unit_within_anchor() {
    // The HTML that the converter makes of
    //
    // <a id="TAG.1::IN-TARGET.1">|TAG.1::IN-ANCHOR-TAG.1|</a>
    // : We can parse tags in an anchor html element.
    let spec = r#"<dl>
<dt><a id="TAG.1::IN-TARGET.1">|TAG.1::IN-ANCHOR-TAG.1|</a></dt>
<dd>
We can parse tags in an anchor html element.
</dd>
</dl>
"#;
    let logical_units = vec![LogicalUnit::new(
        None,
        None,
        None,
        Kind::Requirement,
        "TAG.1::IN-ANCHOR-TAG.1".into(),
        "We can parse tags in an anchor html element.".into(),
    )
    .unwrap()];

    let expected = Artifact::new(None, logical_units);
    let actual = Artifact::from_string(&spec);
    assert_eq!(actual.unwrap(), expected)
}

#[test]
fn can_prase_logical_units_from_rs_file() {
    let src = r#"
// 1
// 2
// 3
///4 |FOO.1::BAR.2::BAZ.1|
fn some_fun() {}
// 6

///8 |FLO.1::BOA.2::BOZ.1|
fn some_other_fun() {}
"#;
    let expected = vec![
        LogicalUnit::new(
            None,
            Some("/"),
            Some(4),
            Kind::Implementation,
            "FOO.1::BAR.2::BAZ.1",
            "",
        )
        .unwrap(),
        LogicalUnit::new(
            None,
            Some("/"),
            Some(8),
            Kind::Implementation,
            "FLO.1::BOA.2::BOZ.1",
            "",
        )
        .unwrap(),
    ];

    let actual = SourceFile::new(SourceFileKind::Rust, "/").units_of_src(src);

    assert_eq!(actual, expected);
}

#[test]
fn find_def_list_with_naked_term() {
    // The HTML that the converter makes of
    //
    // |FOO.1::BAR.1|
    // :  Biz baz blam.
    let input = "<dl>
<dt>|FOO.1::BAR.1|</dt>
<dd>
Biz baz blam.
</dd>
</dl>
";
    let actual = definitions_from_string(input).unwrap();
    let expected: Vec<(String, String)> = vec![("|FOO.1::BAR.1|".into(), "Biz baz blam.".into())];
    assert_eq!(actual, expected)
}

#[test]
fn find_def_list_with_wrapped_term() {
    let input = "<dl>
<dt><a id=\"FOO.1::BAR.1\">|FOO.1::BAR.1|</a></dt>
<dd>
Biz baz blam.
</dd>
</dl>
";
    let actual = definitions_from_string(input).unwrap();
    let expected: Vec<(String, String)> = vec![("|FOO.1::BAR.1|".into(), "Biz baz blam.".into())];
    assert_eq!(actual, expected)
}

#[test]
fn find_def_list_with_nestd_wrapped_term() {
    let input = "<dl>
<dt><a id=\"FOO.1::BAR.1\"><em>|FOO.1::BAR.1|</em></a></dt>
<dd>
Biz baz blam.
</dd>
</dl>
";
    let actual = definitions_from_string(input).unwrap();
    let expected: Vec<(String, String)> = vec![("|FOO.1::BAR.1|".into(), "Biz baz blam.".into())];
    assert_eq!(actual, expected)
}

#[test]
fn definition_blocks_are_joined_by_an_empty_line() {
    let input = "<dl><dt>|FOO.1|</dt><dd>One.</dd><dd>Two.</dd><dt>Other term</dt><dd>Three.</dd></dl>";
    let defs = definitions_from_string(input).unwrap();
    let expected: Vec<(String, String)> = vec![
        ("|FOO.1|".into(), "One.\n\nTwo.".into()),
        ("Other term".into(), "Three.".into()),
    ];
    assert_eq!(defs, expected);
    let units = logical_units_of_defs(None, Some("a.md"), &defs);
    assert_eq!(
        units,
        vec![LogicalUnit::new(None, Some("a.md"), None, Kind::Requirement, "FOO.1", "One.\n\nTwo.")
            .unwrap()]
    );
}

#[test]
fn terms_that_define_no_single_unit_are_left_out() {
    let input = "<dl><dt>|FOO.1| <a id=\"x\"></a></dt><dd>One.</dd><dt><em>|FOO.2|</em> more</dt><dd>Two.</dd><dt>|FOO.0|</dt><dd>Three.</dd><dt>|FOO.3|</dt><dd>Four.</dd></dl>";
    let artifact = Artifact::from_string(input).unwrap();
    assert_eq!(
        artifact.logical_units,
        vec![LogicalUnit::new(None, None, None, Kind::Requirement, "FOO.3", "Four.").unwrap()]
    );
    assert_eq!(artifact.path, None);
}

#[test]
fn malformed_definition_lists_are_fatal() {
    let two_terms = "<p>before</p><dl><dt>|FOO.1|</dt><dt>|FOO.2|</dt><dd>One.</dd></dl>";
    match definitions_from_string(two_terms) {
        Err(tracer::pandoc::Error::DefinitionListParsing(cause, list)) => {
            assert_eq!(cause, "multiple definition terms (not yet supported)");
            assert_eq!(list, "<dl><dt>|FOO.1|</dt><dt>|FOO.2|</dt><dd>One.</dd></dl>");
        }
        other => panic!("unexpected {:?}", other),
    }
    let no_term = "<dl><dd>One.</dd><dt>|FOO.1|</dt></dl>";
    let err = definitions_from_string(no_term).unwrap_err();
    assert_eq!(
        err.to_string(),
        "Parsing definition list. Encountered invalid tags on def list groups while parsing `<dl><dd>One.</dd><dt>|FOO.1|</dt></dl>`"
    );
    assert!(matches!(Artifact::from_string(no_term), Err(Error::Definitions(_))));
    // A run without a partner at the end is left out.
    let expected: Vec<(String, String)> = vec![("|FOO.1|".into(), "One.".into())];
    assert_eq!(
        definitions_from_string("<dl><dt>|FOO.1|</dt><dd>One.</dd><dt>|FOO.2|</dt></dl>").unwrap(),
        expected
    );
    assert!(definitions_from_string("<dl><dd>One.</dd></dl>").unwrap().is_empty());
    assert!(definitions_from_string("<p>no list</p>").unwrap().is_empty());
    assert!(definitions_from_string("").unwrap().is_empty());
}

#[test]
fn every_definition_list_of_a_document_is_read() {
    let doc = parse_html_fragment(
        "<dl><dt>|FOO.1|</dt><dd>One.</dd></dl><div><dl><dt>|FOO.2|</dt><dd>Two.</dd></dl></div>",
    );
    let defs = definitions_from_html(&doc).unwrap();
    let expected: Vec<(String, String)> =
        vec![("|FOO.1|".into(), "One.".into()), ("|FOO.2|".into(), "Two.".into())];
    assert_eq!(defs, expected);
}

#[test]
fn tag_of_a_term_is_its_innermost_html() {
    let doc = parse_html_fragment("<dl><dt><a id=\"x\"><em>a &amp; b</em></a></dt></dl>");
    let terms = tracer::pandoc::select_elements(&doc, "dt", "dt");
    assert_eq!(terms.len(), 1);
    assert_eq!(tag_of_term(terms[0]), "a &amp; b");
}

#[test]
fn converter_output_must_not_be_empty() {
    assert_eq!(html_from_md_bytes(b"<p>x</p>").unwrap(), "<p>x</p>");
    assert_eq!(html_from_md_bytes("gr\u{fc}n".as_bytes()).unwrap(), "gr\u{fc}n");
    assert_eq!(html_from_md_bytes(&[b'a', 0xff, b'b']).unwrap(), "a\u{fffd}b");
    let err = html_from_md_bytes(b"").unwrap_err();
    assert_eq!(err, tracer::pandoc::Error::PandocData("no data received from pandoc".into()));
    assert_eq!(err.to_string(), "Processing data from pandoc: no data received from pandoc");
}

#[test]
fn kind_of_source_file_is_told_by_the_extension() {
    assert_eq!(SourceFileKind::of_path("docs/units.md"), Ok(SourceFileKind::Markdown));
    assert_eq!(SourceFileKind::of_path("src/main.rs"), Ok(SourceFileKind::Rust));
    assert_eq!(SourceFileKind::of_path("a.b/c.tar.gz"), Err(Error::SourceFileExt("gz".into())));
    assert_eq!(SourceFileKind::of_path("a.md/README"), Err(Error::SourceFileNoExt("a.md/README".into())));
    assert_eq!(SourceFileKind::of_path(".md"), Err(Error::SourceFileNoExt(".md".into())));
    assert_eq!(SourceFileKind::of_path("x."), Err(Error::SourceFileExt("".into())));
    assert_eq!(extension_of("a/b.c"), Some("c".to_string()));
    assert_eq!(name_of_file("a/b.c"), Some("b.c".to_string()));
    assert_eq!(name_of_file("b.c"), Some("b.c".to_string()));
    assert_eq!(name_of_file("a/b.c/"), Some("b.c".to_string()));
    assert_eq!(name_of_file("a/.."), None);
    assert_eq!(extension_of(".."), None);
    assert_eq!(extension_of("a.md/"), Some("md".to_string()));
    assert_eq!(
        Error::SourceFileExt("gz".into()).to_string(),
        "no source file defined file for gz files"
    );
    assert_eq!(
        Error::SourceFileNoExt("x".into()).to_string(),
        "cannot determine source file for x, because it has no extension"
    );
}

#[test]
fn lines_end_with_line_feeds() {
    assert_eq!(lines_of(""), Vec::<String>::new());
    assert_eq!(lines_of("a"), vec!["a"]);
    assert_eq!(lines_of("a\n"), vec!["a"]);
    assert_eq!(lines_of("a\r\nb\r"), vec!["a", "b\r"]);
    assert_eq!(lines_of("\n\na\n\n"), vec!["", "", "a", ""]);
    for text in ["", "a", "a\n", "a\r\nb\r", "\n\na\n\n", "x\ny\r\n\r\nz"] {
        let expected: Vec<String> = text.lines().map(|l| l.to_string()).collect();
        let expected = if text.ends_with('\r') { lines_of(text) } else { expected };
        assert_eq!(lines_of(text), expected);
    }
}

#[test]
fn artifact_of_a_file_goes_by_its_kind() {
    let rust = Artifact::from_file(None, "src/lib.rs", "// |FOO.1|\n// |FOO.1|\nfn f() {}\n// |BAR.1| |BAZ.1|").unwrap();
    assert_eq!(rust.path, Some("src/lib.rs".to_string()));
    assert_eq!(
        rust.logical_units,
        vec![
            LogicalUnit::new(None, Some("src/lib.rs"), Some(0), Kind::Implementation, "FOO.1", "").unwrap(),
            LogicalUnit::new(None, Some("src/lib.rs"), Some(1), Kind::Implementation, "FOO.1", "").unwrap(),
            LogicalUnit::new(None, Some("src/lib.rs"), Some(3), Kind::Implementation, "BAR.1", "").unwrap(),
        ]
    );
    let markdown = Artifact::from_file(None, "units.md", THREE_UNITS).unwrap();
    assert_eq!(markdown.logical_units.len(), 3);
    assert_eq!(markdown.logical_units[0].file, Some("units.md".to_string()));
    assert_eq!(
        Artifact::from_file(None, "notes.txt", ""),
        Err(Error::SourceFileExt("txt".into()))
    );
    let file = SourceFile::of_path("a.rs").unwrap();
    assert_eq!(file.unit_of_src_line(7, "nothing here"), None);
}

#[test]
fn artifact_takes_each_unit_once() {
    let unit = LogicalUnit::new(None, None, None, Kind::Requirement, "FOO.1", "x").unwrap();
    let other = LogicalUnit::new(None, None, None, Kind::Requirement, "FOO.1", "y").unwrap();
    let artifact = Artifact::new(None, vec![unit.clone(), other.clone(), unit.clone()]);
    assert_eq!(artifact.logical_units, vec![unit.clone(), other.clone()]);
    assert!(unit.same_as(&unit.copy()));
    assert!(!unit.same_as(&other));
    assert_eq!(
        artifact.to_string(),
        "Artifact from source 'None' content: LOGICAL-UNIT{repo: None, file: None, id: FOO.1, kind: Requirement, content: \"x\"} LOGICAL-UNIT{repo: None, file: None, id: FOO.1, kind: Requirement, content: \"y\"}"
    );
}

#[test]
fn units_of_a_parsed_document() {
    let html = "<dl><dt>|FOO.1|</dt><dd>One.</dd><dt><a id=\"x\"><em>|FOO.2|</em></a></dt><dd>Two.</dd><dd>More.</dd><dt>|FOO.3| and</dt><dd>Three.</dd><dt><em>|FOO.4|</em><!-- c --></dt><dd>Four.</dd></dl>";
    let doc = parse_html_fragment(html);
    let units = tracer::artifact::units_of_markup(None, Some("a.md"), &doc).unwrap();
    assert_eq!(
        units,
        vec![
            LogicalUnit::new(None, Some("a.md"), None, Kind::Requirement, "FOO.1", "One.").unwrap(),
            LogicalUnit::new(None, Some("a.md"), None, Kind::Requirement, "FOO.2", "Two.\n\nMore.")
                .unwrap(),
        ]
    );
    // The tags of the terms tell the same units.
    let defs = definitions_from_html(&doc).unwrap();
    assert_eq!(logical_units_of_defs(None, Some("a.md"), &defs), units);
    let terms = tracer::pandoc::select_elements(&doc, "dt", "dt");
    let ids: Vec<Option<String>> = terms.iter().map(|t| tracer::pandoc::id_of_term(t)).collect();
    assert_eq!(ids, vec![Some("FOO.1".to_string()), Some("FOO.2".to_string()), None, None]);
    assert!(tracer::artifact::units_of_html(None, None, "<dl><dd>x</dd><dt>y</dt></dl>").is_err());
}

#[test]
fn file_names_and_extensions_are_those_of_paths() {
    let paths = [
        "", ".", "..", "/", "//", "a", "a/", "a//", "a/.", "a/./", "a/..", "a/../", "./a", "../a",
        "a.md", "a.md/", "a.md/.", "a.md/..", "dir.d/a", "dir.d/a.rs", ".hidden", ".hidden.md",
        "a.", "a..", "..a", "a.b.c", "/a/b.rs", "a/b/.c", "a/.b.c/", "/.", "/..", "./.", "a/./.",
        "units.md//", "x/y.tar.gz", "gr\u{fc}n.m\u{e4}",
    ];
    for path in paths {
        let std_path = std::path::Path::new(path);
        let name = std_path.file_name().map(|n| n.to_str().unwrap().to_string());
        let ext = std_path.extension().map(|e| e.to_str().unwrap().to_string());
        assert_eq!(name_of_file(path), name, "file name of {:?}", path);
        assert_eq!(extension_of(path), ext, "extension of {:?}", path);
    }
}

#[test]
fn artifact_of_a_file_holds_its_path_or_tells_what_is_wrong() {
    assert_eq!(
        Artifact::from_file(None, "README", "x"),
        Err(Error::SourceFileNoExt("README".into()))
    );
    assert_eq!(
        Artifact::from_file(None, "docs/..", "x"),
        Err(Error::SourceFileNoExt("docs/..".into()))
    );
    assert_eq!(
        Artifact::from_file(None, "notes.txt", "x"),
        Err(Error::SourceFileExt("txt".into()))
    );
    assert_eq!(
        Artifact::from_file(None, "a.rs", "").unwrap().path,
        Some("a.rs".to_string())
    );
    assert_eq!(
        Artifact::from_file(None, "a.md", "<p>x</p>").unwrap().path,
        Some("a.md".to_string())
    );
    assert!(matches!(
        Artifact::from_file(None, "a.md", "<dl><dd>x</dd><dt>y</dt></dl>"),
        Err(Error::Definitions(_))
    ));
}

#[test]
fn a_definition_with_a_stray_list_item_is_left_out() {
    // A list item outside any list, in a style, a quotation and an anchor.
    for stray in [
        "<dd> <b><li></li></b></dd>",
        "<dd> \u{e4}<i><li>x</li></i></dd>",
        "<dd> <blockquote><li>x</li></blockquote></dd>",
        "<dd> <a href=\"u\"><li>x</li></a></dd>",
        "<dd> <q><li>x</li></q></dd>",
        "<dd> <cite><div><li>x</li></div></cite></dd>",
        "<dd><div> a<b><li>xx\u{e9}</li></b></div></dd>",
    ] {
        let html = format!(
            "<dl><dt>|FOO.1|</dt>{}<dd>Two.</dd><dt>|FOO.2|</dt><dd>Three.</dd></dl>",
            stray
        );
        let doc = parse_html_fragment(&html);
        let found = sorted_definitions(&doc).unwrap();
        let expected: Vec<(String, String)> = vec![("|FOO.2|".into(), "Three.".into())];
        assert_eq!(found.read, expected, "{}", stray);
        assert_eq!(found.left_out, vec!["|FOO.1|".to_string()], "{}", stray);
        assert_eq!(definitions_from_string(&html).unwrap(), expected);
        let blocks = tracer::pandoc::select_elements(&doc, "dd", "dd");
        assert!(!can_convert(blocks[0]));
        assert!(can_convert(blocks[1]));
        let units = tracer::parse::string(&html).unwrap();
        assert_eq!(units.len(), 1);
        assert_eq!(units[0].id.to_string(), "FOO.2");
    }
    // A list item outside any list and outside any such element is
    // converted.
    let plain = definitions_from_string("<dl><dt>t</dt><dd> <li>x</li></dd></dl>").unwrap();
    assert_eq!(plain.len(), 1);
    assert!(plain[0].1.contains('x'), "{:?}", plain[0].1);
    let doc = parse_html_fragment("<dd> <u><li>x</li></u></dd>");
    assert!(can_convert(&doc));
}

#[test]
fn lists_in_a_definition_are_converted() {
    let html = "<dl><dt>|FOO.1|</dt><dd>Items:<ul><li>one</li><li><b>two</b><ol><li>deep</li></ol></li></ul></dd><dd><blockquote><p>said <a href=\"u\">so</a></p></blockquote></dd></dl>";
    let doc = parse_html_fragment(html);
    for block in tracer::pandoc::select_elements(&doc, "dd", "dd") {
        assert!(can_convert(block));
    }
    let found = sorted_definitions(&doc).unwrap();
    assert!(found.left_out.is_empty());
    let defs = found.read;
    assert_eq!(defs.len(), 1);
    assert!(defs[0].1.contains("* one"), "{:?}", defs[0].1);
    assert!(defs[0].1.contains("**two**"), "{:?}", defs[0].1);
    assert!(defs[0].1.contains("1. deep"), "{:?}", defs[0].1);
    assert!(defs[0].1.contains("> said [so](u)"), "{:?}", defs[0].1);
}

#[test]
fn only_running_text_is_converted() {
    // What a parser has rules of its own for is not handed on.
    for block in [
        "<table><tbody><tr><td>x</td></tr></tbody></table>",
        "x<!-- note -->",
        "<svg><circle></circle></svg>",
        "<math><mtext>x</mtext></math>",
        "<script>x</script>",
        "<style>x</style>",
        "<select><option>x</option></select>",
        "<textarea>x</textarea>",
        "<template>x</template>",
        "<iframe>x</iframe>",
        "<form>x</form>",
        "<button>x</button>",
        "<custom-thing>x</custom-thing>",
    ] {
        assert_eq!(text_to_convert(block), None, "{}", block);
        let html = format!("<dl><dt>|FOO.1|</dt><dd>{}</dd></dl>", block);
        let found = sorted_definitions(&parse_html_fragment(&html)).unwrap();
        assert!(found.read.is_empty(), "{}", block);
        assert_eq!(found.left_out, vec!["|FOO.1|".to_string()], "{}", block);
    }
    // A text that is read as something else than it says.
    let nested = "<math><mtext><table><mglyph><style><!--</style><img title=\"--><math><mtext><table><mglyph><style><!--</style><img title='--><div> a<b><li>xx\u{e9}'>\"></table></mtext></math>";
    assert_eq!(text_to_convert(nested), None);
    let html = format!("<dl><dt>|FOO.1|</dt><dd>{}</dd></dl>", nested);
    assert!(definitions_from_string(&html).unwrap().is_empty());
    assert!(tracer::parse::string(&html).unwrap().is_empty());
}

#[test]
fn a_block_is_converted_as_the_parser_reads_it() {
    // The text that is converted is that of the whole document.
    let (document, html) = reread("<p>a <b>b</b></p>");
    assert_eq!(html, "<html><head></head><body><p>a <b>b</b></p></body></html>");
    assert!(can_convert(&document));
    let (again, same) = reread(&html);
    assert_eq!(again, document);
    assert_eq!(same, html);
    assert_eq!(text_to_convert("<p>a <b>b</b></p>"), Some(html));

    // A list item that only the written HTML has, outside any list.
    let comment = Markup::Comment("--> <li>x</li><b>y</b><!--".to_string());
    let hidden = Markup::element("b", vec![], vec![Markup::text(" "), comment]);
    let paragraph = Markup::element("p", vec![], vec![Markup::text("kept")]);
    assert_eq!(content_of_blocks(&vec![&hidden, &paragraph]), None);
    assert_eq!(content_of_blocks(&vec![&paragraph]), Some("kept".to_string()));
    assert_eq!(
        content_of_blocks(&vec![&paragraph, &paragraph]),
        Some("kept\n\nkept".to_string())
    );
    assert_eq!(content_of_blocks(&vec![]), Some(String::new()));

    // A list item that the parser leaves out.
    let item = Markup::element("li", vec![], vec![Markup::text("  x")]);
    let select = Markup::element("select", vec![], vec![item]);
    let list = Markup::element("ul", vec![], vec![select]);
    let styled = Markup::element("b", vec![], vec![Markup::text(" "), list]);
    assert_eq!(content_of_blocks(&vec![&styled]), None);

    // A list written in a paragraph stands behind it once it is read.
    let items = Markup::element(
        "ol",
        vec![],
        vec![Markup::element("li", vec![], vec![Markup::text("one")])],
    );
    let nested = Markup::element("p", vec![], vec![Markup::text("Items:"), items]);
    let content = content_of_blocks(&vec![&nested]).unwrap();
    assert!(content.contains("Items:"), "{:?}", content);
    assert!(content.contains("1. one"), "{:?}", content);

    // An element in capitals is none that a parser gives.
    let shouted = Markup::element("P", vec![], vec![Markup::text("x")]);
    assert!(!can_convert(&shouted));
    assert_eq!(content_of_blocks(&vec![&shouted]), Some("x".to_string()));
}

#[test]
fn artifacts_are_compared_whatever_the_order_of_their_units() {
    let a = LogicalUnit::new(None, None, None, Kind::Requirement, "FOO.1", "one").unwrap();
    let b = LogicalUnit::new(None, None, None, Kind::Requirement, "FOO.2", "two").unwrap();
    let x = Artifact::new(None, vec![a.clone(), b.clone(), a.clone()]);
    let y = Artifact::new(None, vec![b.clone(), a.clone()]);
    assert_eq!(x.logical_units, vec![a.clone(), b.clone()]);
    assert!(x.same_as(&y));
    assert!(y.same_as(&x));
    assert_eq!(x, y);
    let less = Artifact::new(None, vec![a.clone()]);
    assert!(!x.same_as(&less));
    assert!(!less.same_as(&x));
    assert_ne!(x, less);
    assert_ne!(x, Artifact::new(Some("f.md".to_string()), vec![a, b]));
}
