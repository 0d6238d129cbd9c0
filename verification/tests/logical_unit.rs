use tracer::logical_unit::{Id, Kind, LogicalUnit};
use tracer::repo::{normalize_repo_url, Location, Repo};

#[test]
fn can_normalize_repo_url() {
    assert_eq!(
        normalize_repo_url("git@github.com:informalsystems/themis-tracer.git"),
        "https://github.com/informalsystems/themis-tracer".to_string()
    )
}

#[test]
fn other_urls_stay_as_they_are() {
    assert_eq!(
        normalize_repo_url("https://example.com/project.git"),
        "https://example.com/project.git"
    );
    assert_eq!(normalize_repo_url(""), "");
    assert_eq!(
        normalize_repo_url("git@github.com:owner/project"),
        "https://github.com/owner/project"
    );
}

#[test]
fn id_round_trips_through_its_text() {
    for text in ["FOO.1", "FOO.1::BAR.2::BAZ.3", "TRC-TAG.1::SYNTAX.1::IMPL.12", "_a.4294967295"] {
        let id = Id::new(text).unwrap();
        assert_eq!(id.to_string(), text);
        assert_eq!(Id::new(&id.to_string()).unwrap(), id);
    }
}

#[test]
fn id_parts_and_parent() {
    let id = Id::new("FOO.1::BAR.2::BAZ.3").unwrap();
    assert_eq!(
        id.parts(),
        vec![
            ("FOO".to_string(), 1),
            ("BAR".to_string(), 2),
            ("BAZ".to_string(), 3)
        ]
    );
    assert_eq!(id.len(), 3);
    let parent = id.parent().unwrap();
    assert_eq!(parent, Id::new("FOO.1::BAR.2").unwrap());
    assert!(parent.is_parent_of(&id));
    assert!(!id.is_parent_of(&parent));
    let root = parent.parent().unwrap();
    assert_eq!(root.to_string(), "FOO.1");
    assert_eq!(root.parent(), None);
    assert!(id.same_as(&Id::new("FOO.1::BAR.2::BAZ.3").unwrap()));
    assert!(!id.same_as(&Id::new("FOO.1::BAR.2::BAZ.4").unwrap()));
    assert_eq!(Id::from_parts(id.parts()), id);
}

#[test]
fn ids_are_ordered_part_by_part() {
    let a = Id::new("FOO.1").unwrap();
    let b = Id::new("FOO.1::BAR.1").unwrap();
    let c = Id::new("FOO.2").unwrap();
    assert!(a < b);
    assert!(b < c);
}

#[test]
fn invalid_id_is_rejected() {
    assert!(Id::new("FOO").is_err());
    let err = LogicalUnit::new(None, None, None, Kind::Requirement, "FOO::1", "content")
        .unwrap_err();
    assert_eq!(err.input, "FOO::1");
}

#[test]
fn unit_holds_what_it_was_made_of() {
    let repo = Repo::new(Location::new_local(
        "/some/repo".to_string(),
        Some("git@github.com:owner/project.git".to_string()),
        None,
    ));
    let unit = LogicalUnit::new(
        Some(repo.clone()),
        Some("units.md"),
        Some(7),
        Kind::Model,
        "FOO.1::BAR.1",
        "Two\nlines",
    )
    .unwrap();
    assert_eq!(unit.id, Id::new("FOO.1::BAR.1").unwrap());
    assert_eq!(unit.kind, Kind::Model);
    assert_eq!(unit.repo, Some(repo.clone()));
    assert_eq!(unit.file, Some("units.md".to_string()));
    assert_eq!(unit.line, Some(7));
    assert_eq!(unit.content, "Two\nlines");
    assert!(unit.references.is_empty());
    assert_eq!(unit.parent_id(), Some(Id::new("FOO.1").unwrap()));
    assert_eq!(
        unit.synopsis(),
        (
            "FOO.1::BAR.1".to_string(),
            "/some/repo".to_string(),
            "Two lines".to_string()
        )
    );
    assert_eq!(
        unit.to_string(),
        "LOGICAL-UNIT{repo: /some/repo, file: units.md, id: FOO.1::BAR.1, kind: Model, content: \"Two\nlines\"}"
    );
    assert_eq!(repo.get_url(), "https://github.com/owner/project");
    assert_eq!(repo.path(), "/some/repo");
}

#[test]
fn unit_without_a_source() {
    let unit = LogicalUnit::new(None, None, None, Kind::Requirement, "FOO.1", "").unwrap();
    assert_eq!(
        unit.synopsis(),
        ("FOO.1".to_string(), "".to_string(), "".to_string())
    );
    assert_eq!(
        unit.to_string(),
        "LOGICAL-UNIT{repo: None, file: None, id: FOO.1, kind: Requirement, content: \"\"}"
    );
    assert_eq!(unit.parent_id(), None);
}

#[test]
fn repo_follows_its_remote() {
    let mut repo = Repo::new(Location::new_local("/r".to_string(), None, None));
    assert_eq!(repo.get_url(), "/r");
    assert_eq!(repo.path_as_string(), "/r");
    repo.set_remote(Some("https://example.com/x"), Some("main"));
    assert_eq!(repo.get_url(), "https://example.com/x");
    let mut location = Location::new_local("/r".to_string(), None, None);
    location.set_upstream_url(Some("u"));
    location.set_default_branch(Some("b"));
    assert_eq!(location.get_upstream_url(), Some("u".to_string()));
    assert_eq!(location.get_default_branch(), Some("b".to_string()));
    assert_eq!(location.to_string(), "/r");
}

#[test]
fn kinds_have_names() {
    assert_eq!(Kind::Requirement.to_string(), "Requirement");
    assert_eq!(Kind::Model.to_string(), "Model");
    assert_eq!(Kind::Implementation.to_string(), "Implementation");
    assert_eq!(Kind::Verification.to_string(), "Verification");
}

#[test]
fn parts_of_an_identifier_are_checked() {
    let part = |tag: &str, version: u32| (tag.to_string(), version);
    assert!(Id::are_parts(&vec![part("FOO", 1)]));
    assert!(Id::are_parts(&vec![part("FOO", 1), part("B-_9", 4294967295)]));
    assert!(!Id::are_parts(&vec![]));
    assert!(!Id::are_parts(&vec![part("F", 1)]));
    assert!(!Id::are_parts(&vec![part("FOO", 0)]));
    assert!(!Id::are_parts(&vec![part("FOO", 1), part("9A", 1)]));
    assert!(!Id::are_parts(&vec![part("FO.O", 1)]));
    let parts = vec![part("FOO", 1), part("BAR", 2)];
    assert!(Id::are_parts(&parts));
    assert_eq!(Id::from_parts(parts).to_string(), "FOO.1::BAR.2");
    assert_eq!(Id::new("FOO.1").unwrap().clone(), Id::new("FOO.1").unwrap());
}
