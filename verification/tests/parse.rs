use tracer::cmd::context::{is_name_taken, list_lines};
use tracer::cmd::repo::{is_repo_registered, list_line};
use tracer::linkify::unit_path;
use tracer::logical_unit::{Id, Kind, LogicalUnit};
use tracer::parse::{
    logical_unit_definiendum_of, logical_units_of_deflist, pandoc_block_to_string,
    pandoc_blocks_list_to_string, pandoc_inline_to_string, pandoc_inlines_to_string, parse_ast,
    string, Block, Inline, QuoteType,
};
use tracer::repo::{Location, Repo};
use tracer::specs::{ProjectSpecifications, SpecificationParseError};
use tracer::text::{contains, join, replace_all, starts_with, strip_suffix};

fn text(s: &str) -> Inline {
    Inline::Str(s.to_string())
}

#[test]
fn inlines_are_written_as_markdown() {
    let inlines = vec![
        text("a"),
        Inline::Space,
        Inline::Emph(vec![text("b")]),
        Inline::SoftBreak,
        Inline::Strong(vec![text("c"), Inline::Space, text("d")]),
        Inline::LineBreak,
        Inline::Quoted(QuoteType::SingleQuote, vec![text("e")]),
        Inline::Quoted(QuoteType::DoubleQuote, vec![text("f")]),
        Inline::Link(vec![text("g")], "http://h".to_string()),
        Inline::Image(vec![text("i")], "j.png".to_string()),
        Inline::Code("k".to_string()),
        Inline::Other,
    ];
    assert_eq!(
        pandoc_inlines_to_string(&inlines),
        "a *b*\n**c d**\\\n'e'\"f\"[g](http://h)![i](j.png)`k`"
    );
    assert_eq!(pandoc_inline_to_string(&Inline::Other), "");
    assert_eq!(pandoc_inlines_to_string(&vec![]), "");
}

#[test]
fn blocks_are_separated_by_empty_lines() {
    let first = vec![Block::Para(vec![text("one")]), Block::Plain(vec![text("two")])];
    let second = vec![Block::Other, Block::Para(vec![text("three")])];
    assert_eq!(pandoc_block_to_string(&first[0]), "one");
    assert_eq!(pandoc_block_to_string(&Block::DefinitionList(vec![])), "");
    assert_eq!(
        pandoc_blocks_list_to_string(&vec![first, second]),
        "one\n\ntwo\n\n\n\nthree"
    );
}

#[test]
fn term_of_a_single_piece_defines_a_unit() {
    assert_eq!(logical_unit_definiendum_of(&vec![text("|FOO.1|")]), Some("FOO.1".to_string()));
    assert_eq!(
        logical_unit_definiendum_of(&vec![Inline::Emph(vec![Inline::Strong(vec![Inline::Link(
            vec![text("|FOO.1::BAR.2|")],
            "u".to_string()
        )])])]),
        Some("FOO.1::BAR.2".to_string())
    );
    assert_eq!(logical_unit_definiendum_of(&vec![text("|FOO.1|"), Inline::Space]), None);
    assert_eq!(logical_unit_definiendum_of(&vec![text("FOO.1")]), None);
    assert_eq!(logical_unit_definiendum_of(&vec![Inline::Code("|FOO.1|".to_string())]), None);
    assert_eq!(logical_unit_definiendum_of(&vec![]), None);
}

#[test]
fn units_are_read_from_the_definition_lists_of_a_document() {
    let list = vec![
        (vec![text("|FOO.1|")], vec![vec![Block::Plain(vec![text("Foo.")])]]),
        (vec![text("Other")], vec![vec![Block::Plain(vec![text("No unit.")])]]),
        (
            vec![Inline::Emph(vec![text("|FOO.1::BAR.1|")])],
            vec![
                vec![Block::Para(vec![text("Bar"), Inline::Space, text("one.")])],
                vec![Block::Para(vec![text("Bar two.")])],
            ],
        ),
    ];
    let expected = vec![
        LogicalUnit::new(None, Some("a.md"), None, Kind::Requirement, "FOO.1", "Foo.").unwrap(),
        LogicalUnit::new(
            None,
            Some("a.md"),
            None,
            Kind::Requirement,
            "FOO.1::BAR.1",
            "Bar one.\n\nBar two.",
        )
        .unwrap(),
    ];
    assert_eq!(logical_units_of_deflist(Some("a.md"), &list), expected);
    let blocks = vec![
        Block::Para(vec![text("Preamble")]),
        Block::DefinitionList(list),
        Block::Other,
        Block::DefinitionList(vec![(
            vec![text("|BAZ.1|")],
            vec![vec![Block::Plain(vec![text("Baz.")])]],
        )]),
    ];
    let units = parse_ast(None, &blocks);
    let ids: Vec<String> = units.iter().map(|u| u.id.to_string()).collect();
    assert_eq!(ids, vec!["FOO.1", "FOO.1::BAR.1", "BAZ.1"]);
    assert_eq!(units[2].file, None);
}

#[test]
fn units_of_converted_documents() {
    let html = "<dl><dt>|FOO.1|</dt><dd>Foo.</dd><dt>|FOO.1|</dt><dd>Foo.</dd></dl>";
    let units = string(html).unwrap();
    assert_eq!(units.len(), 2);
    assert_eq!(units[0], units[1]);
    assert_eq!(tracer::parse::file("a.md", html).unwrap()[0].file, Some("a.md".to_string()));
    assert!(string("<dl><dd>x</dd><dt>y</dt></dl>").is_err());
}

#[test]
fn specifications_need_distinct_ids() {
    let unit = |id: &str, content: &str| {
        LogicalUnit::new(None, None, None, Kind::Requirement, id, content).unwrap()
    };
    let specs =
        ProjectSpecifications::from_units(vec![unit("FOO.1", "a"), unit("BAR.1", "b")]).unwrap();
    assert_eq!(specs.len(), 2);
    assert_eq!(specs.get(&Id::new("BAR.1").unwrap()).unwrap().content, "b");
    let err = ProjectSpecifications::from_units(vec![
        unit("FOO.1", "a"),
        unit("BAR.1", "b"),
        unit("FOO.1", "c"),
        unit("BAR.1", "d"),
    ])
    .unwrap_err();
    assert_eq!(
        err,
        SpecificationParseError::DuplicateLogicalUnit(
            "FOO.1".to_string(),
            unit("FOO.1", "a").to_string(),
            unit("FOO.1", "c").to_string()
        )
    );
}

#[test]
fn unit_is_located_in_its_repo() {
    let repo = Repo::new(Location::new_local(
        "/r".to_string(),
        Some("git@github.com:owner/project.git".to_string()),
        Some("main".to_string()),
    ));
    assert_eq!(
        unit_path(&repo, Some("docs/a.md"), "FOO.1"),
        "https://github.com/owner/project/blob/main/docs/a.md#FOO.1"
    );
    let local = Repo::new(Location::new_local("/r".to_string(), None, None));
    assert_eq!(unit_path(&local, None, "FOO.1"), "/r/blob/master/#FOO.1");
    assert_eq!(local.get_upstream_url(), None);
    assert_eq!(repo.get_branch(), Some("main".to_string()));
    assert!(repo.same_as(&repo.copy()));
    assert!(!repo.same_as(&local));
}

#[test]
fn units_are_shown_in_full_and_on_one_line() {
    let repo = Repo::new(Location::new_local("/r".to_string(), None, None));
    let unit = LogicalUnit::new(
        Some(repo),
        Some("a.md"),
        Some(12),
        Kind::Verification,
        "FOO.1::BAR.2",
        "Two\nlines",
    )
    .unwrap();
    assert_eq!(
        unit.info_text(),
        "tag:\tFOO.1::BAR.2\nkind:\tVerification\nrepo:\t/r\nfile:\ta.md\nline:\t12\nrefs:\t\n\nTwo\nlines\n"
    );
    assert_eq!(unit.synopsis_line(), "FOO.1::BAR.2\t/r\tTwo lines");
    let bare = LogicalUnit::new(None, None, None, Kind::Model, "FOO.1", "x").unwrap();
    assert_eq!(
        bare.info_text(),
        "tag:\tFOO.1\nkind:\tModel\nrepo:\t\nfile:\t\nline:\t\nrefs:\t\n\nx\n"
    );
    let zero = LogicalUnit::new(None, None, Some(0), Kind::Model, "FOO.1", "").unwrap();
    assert!(zero.info_text().contains("line:\t0\n"));
}

#[test]
fn lists_mark_the_current_context() {
    let names = vec!["a".to_string(), "b".to_string()];
    assert_eq!(list_lines(&names, Some("b")), vec!["  a", "* b"]);
    assert_eq!(list_lines(&names, None), vec!["  a", "  b"]);
    assert!(is_name_taken("x: UNIQUE constraint failed: context.name"));
    assert!(!is_name_taken("UNIQUE constraint failed: repo.path"));
    assert!(is_repo_registered(
        "UNIQUE constraint failed: context_repo.context, context_repo.repo"
    ));
    assert!(!is_repo_registered(""));
    let repo = Repo::new(Location::new_local("/r".to_string(), None, None));
    assert_eq!(list_line(&repo), "  /r");
    assert_eq!(
        tracer::cmd::context::Error::ContextExists("a".into()).to_string(),
        "A context named a already exists"
    );
    assert_eq!(
        tracer::cmd::repo::Error::RepoNotFound("/x".into()).to_string(),
        "No repo found at path /x"
    );
    assert_eq!(
        tracer::cmd::repo::Error::RepoExists("/x".into()).to_string(),
        "The repo /x is already registered in the current context"
    );
}

#[test]
fn texts_are_searched_and_replaced_as_std_does() {
    for (s, from, to) in [
        ("aaa", "aa", "b"),
        ("abcabc", "bc", ""),
        ("", "x", "y"),
        ("xyz", "xyz", "xyzxyz"),
        ("a\nb\n", "\n", " "),
        ("gr\u{fc}n gr\u{fc}n", "\u{fc}", "ue"),
        ("ab", "", "-"),
        ("", "", "x"),
    ] {
        assert_eq!(replace_all(s, from, to), s.replace(from, to));
        assert_eq!(contains(s, from), s.contains(from));
        assert_eq!(starts_with(s, from), s.starts_with(from));
        assert_eq!(strip_suffix(s, from), s.strip_suffix(from).unwrap_or(s));
    }
    assert!(contains("abc", ""));
    assert!(contains("", ""));
    assert_eq!(join(&vec![], ", "), "");
    assert_eq!(join(&vec!["a".to_string()], ", "), "a");
    assert_eq!(join(&vec!["a".to_string(), "".to_string(), "b".to_string()], ", "), "a, , b");
}
