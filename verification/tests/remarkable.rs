use obsidible::remarkable::{
    child_path, ensure_dir_step, remote_basename, remote_parent, EnsureAction, RemoteWalk, RmEntry,
};

fn entry(name: &str, entry_type: &str) -> RmEntry {
    RmEntry {
        id: format!("id-{name}"),
        name: name.to_string(),
        entry_type: entry_type.to_string(),
        version: 1,
        modified_client: "2024-01-01T00:00:00Z".to_string(),
        current_page: 0,
        parent: String::new(),
    }
}

#[test]
fn entry_kinds() {
    assert!(entry("a", "CollectionType").is_directory());
    assert!(!entry("a", "CollectionType").is_document());
    assert!(entry("a", "DocumentType").is_document());
    assert!(!entry("a", "DocumentType").is_directory());
    assert!(!entry("a", "collectiontype").is_directory());
}

#[test]
fn basenames_and_parents() {
    assert_eq!(remote_basename("/Quick Notes/Meeting"), "Meeting");
    assert_eq!(remote_basename("Tasks"), "Tasks");
    assert_eq!(remote_basename("/a/"), "");
    assert_eq!(remote_parent("/Briefings/2024/May"), Some("/Briefings/2024"));
    assert_eq!(remote_parent("/Briefings"), None);
    assert_eq!(remote_parent("Briefings"), None);
}

#[test]
fn child_paths() {
    assert_eq!(child_path("/", "Tasks"), "/Tasks");
    assert_eq!(child_path("/Work", "Tasks"), "/Work/Tasks");
}

#[test]
fn walk_lists_depth_first() {
    let mut walk = RemoteWalk::new("/");
    let mut listed = Vec::new();
    while let Some(dir) = walk.next_dir() {
        listed.push(dir.clone());
        let entries = match dir.as_str() {
            "/" => vec![entry("A", "CollectionType"), entry("doc1", "DocumentType"), entry("B", "CollectionType")],
            "/A" => vec![entry("doc2", "DocumentType")],
            _ => vec![],
        };
        walk.visit(&dir, entries);
    }
    assert_eq!(listed, vec!["/", "/B", "/A"]);
    let found: Vec<&str> = walk.found.iter().map(|(p, _)| p.as_str()).collect();
    assert_eq!(found, vec!["/doc1", "/A/doc2"]);
}

#[test]
fn child_path_round_trip() {
    for dir in ["/", "/Work", "/Work/2024"] {
        let p = child_path(dir, "Notes");
        assert_eq!(remote_basename(&p), "Notes");
        if dir != "/" {
            assert_eq!(remote_parent(&p), Some(dir));
        } else {
            assert_eq!(remote_parent(&p), None);
        }
    }
}

#[test]
fn parents_shrink_to_none() {
    let mut path = "/a/bb/ccc/dddd";
    let mut chain = Vec::new();
    while let Some(parent) = remote_parent(path) {
        assert!(parent.len() < path.len());
        chain.push(parent);
        path = parent;
    }
    assert_eq!(chain, vec!["/a/bb/ccc", "/a/bb", "/a"]);
}

#[test]
fn visit_sorts_every_entry_once() {
    let mut walk = RemoteWalk::new("/Work");
    let dir = walk.next_dir().unwrap();
    let entries = vec![
        entry("x", "DocumentType"),
        entry("sub", "CollectionType"),
        entry("y", "SomethingElse"),
    ];
    walk.visit(&dir, entries);
    assert_eq!(walk.pending, vec!["/Work/sub".to_string()]);
    let found: Vec<(&str, &str)> = walk
        .found
        .iter()
        .map(|(p, e)| (p.as_str(), e.name.as_str()))
        .collect();
    assert_eq!(found, vec![("/Work/x", "x"), ("/Work/y", "y")]);
    assert!(walk.found.iter().all(|(_, e)| !e.is_directory()));
}

#[test]
fn finished_walk_finds_each_document_once() {
    let mut walk = RemoteWalk::new("/");
    while let Some(dir) = walk.next_dir() {
        let entries = match dir.as_str() {
            "/" => vec![entry("A", "CollectionType"), entry("d1", "DocumentType")],
            "/A" => vec![entry("B", "CollectionType"), entry("d2", "DocumentType"), entry("d3", "DocumentType")],
            "/A/B" => vec![entry("d4", "DocumentType")],
            _ => vec![],
        };
        walk.visit(&dir, entries);
    }
    let mut found: Vec<&str> = walk.found.iter().map(|(p, _)| p.as_str()).collect();
    found.sort();
    assert_eq!(found, vec!["/A/B/d4", "/A/d2", "/A/d3", "/d1"]);
}

#[test]
fn ensure_dir_steps() {
    assert_eq!(ensure_dir_step("/A/B", true), EnsureAction::Done);
    assert_eq!(
        ensure_dir_step("/A/B", false),
        EnsureAction::EnsureParentThenMkdir("/A".to_string())
    );
    assert_eq!(ensure_dir_step("/A", false), EnsureAction::Mkdir);
    assert_eq!(ensure_dir_step("A", false), EnsureAction::Mkdir);
}
