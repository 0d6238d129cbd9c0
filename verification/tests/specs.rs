use std::str::FromStr;
use tracer::cmd::format::{Format, ParseFormatError};
use tracer::context::Context;
use tracer::locations::{
    contexts_dir, find_all_supported_source_files, is_hidden, join_path, source_file_is_supported,
    tracer_db, tracer_dir, tracer_home,
};
use tracer::logical_unit::{Id, Kind, LogicalUnit};
use tracer::luid::{LogicalUnitId, LogicalUnitIdPart};
use tracer::specs::{merge_project_lu_maps, ProjectSpecifications, SpecificationParseError};
use tracer::util::some_if;

#[test]
fn luid_test_simple_luid_parsing() {
    assert_eq!(
        LogicalUnitId(vec![LogicalUnitIdPart {
            tag: "SPEC-INPUT".to_string(),
            version: 1
        },]),
        LogicalUnitId::from_str("SPEC-INPUT.1").unwrap(),
    );
}

#[test]
fn luid_test_complex_luid_parsing() {
    assert_eq!(
        LogicalUnitId(vec![
            LogicalUnitIdPart {
                tag: "SPEC-INPUT".to_string(),
                version: 1
            },
            LogicalUnitIdPart {
                tag: "HELLO-WORLD".to_string(),
                version: 2
            },
            LogicalUnitIdPart {
                tag: "TO-SOMEONE".to_string(),
                version: 3
            },
        ]),
        LogicalUnitId::from_str("SPEC-INPUT.1::HELLO-WORLD.2::TO-SOMEONE.3").unwrap(),
    );
}

#[test]
fn luid_renders_its_parts() {
    let id = LogicalUnitId::from_parts(vec![
        LogicalUnitIdPart { tag: "SPEC-INPUT".to_string(), version: 1 },
        LogicalUnitIdPart { tag: "HELLO-WORLD".to_string(), version: 20 },
    ]);
    assert_eq!(id.to_string(), "SPEC-INPUT.1::HELLO-WORLD.20");
    assert_eq!(id.0[1].to_string(), "HELLO-WORLD.20");
    assert_eq!(LogicalUnitId::from_str(&id.to_string()).unwrap(), id);
    assert!(LogicalUnitId::from_str("SPEC-INPUT").is_err());
    assert_eq!(LogicalUnitId::from_parts(vec![]).to_string(), "");
}

fn unit(id: &str, file: &str) -> LogicalUnit {
    LogicalUnit::new(None, Some(file), None, Kind::Requirement, id, "content").unwrap()
}

fn specs(units: Vec<LogicalUnit>) -> ProjectSpecifications {
    let mut specs = ProjectSpecifications::new();
    for unit in units {
        specs.insert(unit).unwrap();
    }
    specs
}

#[test]
fn merging_keeps_all_units_of_both() {
    let dest = specs(vec![unit("FOO.1", "a.md"), unit("FOO.2", "a.md")]);
    let src = specs(vec![unit("BAR.1", "b.md")]);
    let merged = merge_project_lu_maps(dest, src).unwrap();
    assert_eq!(merged.len(), 3);
    let ids: Vec<String> = merged.units().iter().map(|u| u.id.to_string()).collect();
    assert_eq!(ids, vec!["FOO.1", "FOO.2", "BAR.1"]);
    assert_eq!(merged.get(&Id::new("BAR.1").unwrap()), Some(&unit("BAR.1", "b.md")));
    assert_eq!(merged.get(&Id::new("BAR.2").unwrap()), None);
    let empty = merge_project_lu_maps(ProjectSpecifications::new(), ProjectSpecifications::default())
        .unwrap();
    assert_eq!(empty.len(), 0);
}

#[test]
fn merging_rejects_a_shared_id_and_names_both_units() {
    let dest = specs(vec![unit("FOO.1", "a.md"), unit("FOO.2", "a.md")]);
    let src = specs(vec![unit("BAR.1", "b.md"), unit("FOO.2", "b.md"), unit("FOO.1", "b.md")]);
    let err = merge_project_lu_maps(dest, src).unwrap_err();
    assert_eq!(
        err,
        SpecificationParseError::DuplicateLogicalUnit(
            "FOO.2".to_string(),
            "LOGICAL-UNIT{repo: None, file: a.md, id: FOO.2, kind: Requirement, content: \"content\"}"
                .to_string(),
            "LOGICAL-UNIT{repo: None, file: b.md, id: FOO.2, kind: Requirement, content: \"content\"}"
                .to_string(),
        )
    );
    assert_eq!(
        err.to_string(),
        "duplicate logical unit found with ID: FOO.2: LOGICAL-UNIT{repo: None, file: a.md, id: FOO.2, kind: Requirement, content: \"content\"} and LOGICAL-UNIT{repo: None, file: b.md, id: FOO.2, kind: Requirement, content: \"content\"}"
    );
}

#[test]
fn inserting_a_duplicate_changes_nothing() {
    let mut specs = specs(vec![unit("FOO.1", "a.md")]);
    let err = specs.insert(unit("FOO.1", "b.md")).unwrap_err();
    assert!(matches!(err, SpecificationParseError::DuplicateLogicalUnit(_, _, _)));
    assert_eq!(specs.len(), 1);
    assert_eq!(specs.units()[0], unit("FOO.1", "a.md"));
    assert_eq!(
        SpecificationParseError::PandocError("x".into()).to_string(),
        "Pandoc execution failed: x"
    );
    assert_eq!(
        SpecificationParseError::PandocASTParseError("x".into()).to_string(),
        "failed to parse Pandoc AST: x"
    );
}

#[test]
fn formats_are_named() {
    assert_eq!(Format::from_str("csv"), Ok(Format::Csv));
    assert_eq!(Format::from_str("json"), Ok(Format::Json));
    assert_eq!(Format::from_str("CSV"), Err(ParseFormatError("CSV".to_string())));
    assert_eq!(Format::from_str("yaml").unwrap_err().to_string(), "unable to parse format yaml");
    assert_eq!(Format::Csv.to_string(), "csv");
    assert_eq!(Format::Json.to_string(), "json");
    assert_eq!(Format::default(), Format::Json);
}

#[test]
fn local_data_lives_below_the_home() {
    assert_eq!(tracer_home(Some("/custom"), Some("/home/u")), Some("/custom".to_string()));
    assert_eq!(tracer_home(None, Some("/home/u")), Some("/home/u".to_string()));
    assert_eq!(tracer_home(None, None), None);
    assert_eq!(tracer_dir(Some("/home/u")), Ok("/home/u/.tracer".to_string()));
    assert_eq!(tracer_dir(Some("/home/u/")), Ok("/home/u/.tracer".to_string()));
    assert_eq!(tracer_db(Some("/home/u")), Ok("/home/u/.tracer/tracer.db".to_string()));
    assert_eq!(contexts_dir(Some("/home/u")), Ok("/home/u/.tracer/contexts".to_string()));
    assert_eq!(tracer_dir(None).unwrap_err().to_string(), "Cannot identify home directory");
    assert!(tracer_db(None).is_err());
    assert!(contexts_dir(None).is_err());
    assert_eq!(join_path("", "x"), "x");
}

#[test]
fn hidden_and_foreign_files_are_not_searched() {
    assert!(is_hidden(".git"));
    assert!(!is_hidden("a.rs"));
    assert!(source_file_is_supported("src/a.rs"));
    assert!(source_file_is_supported("docs/b.md"));
    assert!(!source_file_is_supported("docs/.b.md"));
    assert!(!source_file_is_supported("docs/b.txt"));
    assert!(!source_file_is_supported("docs"));
    let found: Vec<String> =
        ["r/a.rs", "r/.hidden.rs", "r/b.md", "r/c", "r/d.txt"].iter().map(|s| s.to_string()).collect();
    assert_eq!(find_all_supported_source_files(&found), vec!["r/a.rs", "r/b.md"]);
}

#[test]
fn small_things() {
    assert_eq!(some_if(true, || 1), Some(1));
    assert_eq!(some_if(false, || 1), None);
    let context = Context::new("work".to_string());
    assert_eq!(context.name, "work");
    assert_eq!(context.to_string(), "work");
    assert!(Context::new("a".to_string()) < Context::new("b".to_string()));
}
