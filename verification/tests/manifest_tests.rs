use shed::manifest::resolve::{
    include_input_candidate_path, resolve, Event, Load, Lookup, Manifest, Request, Snapshot, Step,
};
use shed::manifest::{ManifestFile, RootItem};

fn manifest(name: &str, manifests: Vec<Manifest>) -> Manifest {
    Manifest { name: name.into(), path: name.into(), manifests, items: Vec::new() }
}

#[test]
fn gets_manifest_at_indexes() {
    let root = manifest(
        "root",
        vec![manifest("child", vec![manifest("first", Vec::new()), manifest("second", Vec::new())])],
    );

    assert_eq!(root.get(&[]), Some(&root));
    assert_eq!(root.get(&[0]).map(|manifest| manifest.name.as_str()), Some("child"));
    assert_eq!(root.get(&[0, 1]).map(|manifest| manifest.name.as_str()), Some("second"));
    assert_eq!(root.get(&[1]), None);
    assert_eq!(root.get(&[0, 2]), None);
}

fn file(includes: &[&str], items: Vec<RootItem>) -> ManifestFile {
    ManifestFile { includes: includes.iter().map(|s| s.to_string()).collect(), items }
}

fn item(path: &str, shed: &str) -> RootItem {
    RootItem { path: path.into(), shed: shed.into(), items: None }
}

/// Drives a resolution to the end, answering each question from the given
/// file system.
fn run(
    name: &str,
    canonical: &dyn Fn(&str) -> Lookup,
    read: &dyn Fn(&str) -> Load,
) -> (shed::manifest::resolve::Outcome, Vec<Event>, Vec<String>) {
    let mut snapshot = Snapshot::new();
    let mut asked = Vec::new();
    loop {
        match resolve(name, &snapshot) {
            Step::Finished { outcome, events } => return (outcome, events, asked),
            Step::Needs(Request::Canonicalize(path)) => {
                asked.push(format!("canonicalize {path}"));
                let answer = canonical(&path);
                assert!(snapshot.record_lookup(path, answer));
            }
            Step::Needs(Request::Read(path)) => {
                asked.push(format!("read {path}"));
                let answer = read(&path);
                snapshot.record_load(path, answer);
            }
        }
    }
}

fn found(path: &str) -> Lookup {
    Lookup::Found(path.to_string())
}

#[test]
fn resolves_includes_in_declaration_order() {
    let canonical = |path: &str| match path {
        "root.yaml" => found("/m/root.yaml"),
        "/m/a.yaml" => found("/m/a.yaml"),
        "/m/b.yaml" => Lookup::Missing,
        "/m/b.yml" => found("/m/b.yml"),
        _ => Lookup::Missing,
    };
    let read = |path: &str| match path {
        "/m/root.yaml" => Load::Parsed(file(&["a", "b"], vec![item("/etc/r", "r")])),
        "/m/a.yaml" => Load::Parsed(file(&[], vec![item("/etc/a", "a")])),
        "/m/b.yml" => Load::Parsed(file(&[], Vec::new())),
        _ => Load::Unreadable("no such file".into()),
    };
    let (outcome, events, asked) = run("root", &canonical, &read);
    assert_eq!(outcome.errors, 0);
    assert_eq!(outcome.resolved, 3);
    let root = outcome.manifest.expect("the tree is kept when nothing failed");
    assert_eq!(root.path, "/m/root.yaml");
    assert_eq!(root.manifests.len(), 2);
    assert_eq!(root.manifests[0].name, "a");
    assert_eq!(root.manifests[0].items, vec![item("/etc/a", "a")]);
    assert_eq!(root.manifests[1].path, "/m/b.yml");
    assert_eq!(root.get(&[1]).map(|m| m.name.as_str()), Some("b"));
    assert!(asked.contains(&"canonicalize /m/b.yml".to_string()));
    assert!(matches!(events.last(), Some(Event::Finished { resolved: 3, errors: 0 })));
    let resolved = events.iter().filter(|e| matches!(e, Event::Resolved { .. })).count();
    assert_eq!(resolved, 3);
}

#[test]
fn missing_include_discards_the_tree_and_counts_the_error() {
    let canonical = |path: &str| match path {
        "root.yaml" => found("/m/root.yaml"),
        _ => Lookup::Missing,
    };
    let read = |path: &str| match path {
        "/m/root.yaml" => Load::Parsed(file(&["gone"], Vec::new())),
        _ => Load::Unreadable("unexpected".into()),
    };
    let (outcome, events, _) = run("root", &canonical, &read);
    assert!(outcome.manifest.is_none());
    assert_eq!(outcome.errors, 1);
    assert_eq!(outcome.resolved, 0);
    let error = events.iter().find_map(|e| match e {
        Event::Error { name, error } => Some((name.clone(), format!("{error:?}"))),
        _ => None,
    });
    let (name, error) = error.expect("the failure is reported");
    assert_eq!(name, "gone");
    assert!(error.contains("/m/gone.yaml"));
    assert!(error.contains("/m/gone.yml"));
}

#[test]
fn include_cycle_is_an_error() {
    let canonical = |path: &str| match path {
        "root.yaml" => found("/m/root.yaml"),
        "/m/root.yaml" => found("/m/root.yaml"),
        _ => Lookup::Missing,
    };
    let read = |path: &str| match path {
        "/m/root.yaml" => Load::Parsed(file(&["root"], Vec::new())),
        _ => Load::Unreadable("unexpected".into()),
    };
    let (outcome, events, _) = run("root", &canonical, &read);
    assert!(outcome.manifest.is_none());
    assert_eq!(outcome.errors, 1);
    assert!(events.iter().any(|e| matches!(
        e,
        Event::Error { error: shed::manifest::resolve::Error::Cycle { .. }, .. }
    )));
}

#[test]
fn unreadable_root_is_one_error() {
    let canonical = |path: &str| match path {
        "root.yaml" => found("/m/root.yaml"),
        _ => Lookup::Missing,
    };
    let read = |_: &str| Load::Malformed("bad".into());
    let (outcome, events, _) = run("root", &canonical, &read);
    assert!(outcome.manifest.is_none());
    assert_eq!((outcome.resolved, outcome.errors), (0, 1));
    assert_eq!(events.len(), 3);
}

#[test]
fn repeated_includes_are_kept_each_time() {
    let canonical = |path: &str| match path {
        "root.yaml" => found("/m/root.yaml"),
        "/m/shared.yaml" => found("/m/shared.yaml"),
        _ => Lookup::Missing,
    };
    let read = |path: &str| match path {
        "/m/root.yaml" => Load::Parsed(file(&["shared", "shared"], Vec::new())),
        "/m/shared.yaml" => Load::Parsed(file(&[], Vec::new())),
        _ => Load::Unreadable("unexpected".into()),
    };
    let (outcome, _, _) = run("root", &canonical, &read);
    let root = outcome.manifest.unwrap();
    assert_eq!(root.manifests.len(), 2);
    assert_eq!(outcome.resolved, 3);
}

#[test]
fn a_canonical_path_without_parent_is_not_recorded() {
    let mut snapshot = Snapshot::new();
    assert!(!snapshot.record_lookup("root.yaml".into(), Lookup::Found("/".into())));
    assert!(snapshot.record_lookup("root.yaml".into(), Lookup::Missing));
}

#[test]
fn candidate_paths_join_the_directory_unless_absolute() {
    assert_eq!(include_input_candidate_path("/m", "a", "yaml"), "/m/a.yaml");
    assert_eq!(include_input_candidate_path("/m/", "a", "yml"), "/m/a.yml");
    assert_eq!(include_input_candidate_path("/m", "/abs/a", "yaml"), "/abs/a.yaml");
}

#[test]
fn prefers_yaml_and_falls_back_to_yml_only_when_yaml_is_missing() {
    let canonical = |path: &str| match path {
        "preferred.yaml" => found("/m/preferred.yaml"),
        "preferred.yml" => found("/m/preferred.yml"),
        "fallback.yaml" => Lookup::Missing,
        "fallback.yml" => found("/m/fallback.yml"),
        "broken.yaml" => Lookup::Failed("permission denied".into()),
        _ => Lookup::Missing,
    };
    let read = |path: &str| match path {
        "/m/preferred.yaml" => Load::Parsed(file(&[], vec![item("/yaml", "yaml")])),
        "/m/preferred.yml" => Load::Parsed(file(&[], vec![item("/yml", "yml")])),
        "/m/fallback.yml" => Load::Parsed(file(&[], Vec::new())),
        _ => Load::Unreadable("unexpected".into()),
    };
    let (outcome, _, asked) = run("preferred", &canonical, &read);
    assert_eq!(outcome.manifest.unwrap().items, vec![item("/yaml", "yaml")]);
    assert!(!asked.contains(&"canonicalize preferred.yml".to_string()));
    let (outcome, _, _) = run("fallback", &canonical, &read);
    assert_eq!(outcome.manifest.unwrap().path, "/m/fallback.yml");
    let (outcome, events, asked) = run("broken", &canonical, &read);
    assert!(outcome.manifest.is_none());
    assert!(!asked.contains(&"canonicalize broken.yml".to_string()));
    assert!(events.iter().any(|e| matches!(
        e,
        Event::Error { error: shed::manifest::resolve::Error::Io { .. }, .. }
    )));
}

#[test]
fn appends_suffixes_even_when_the_logical_name_has_an_extension() {
    let canonical = |path: &str| match path {
        "root.yaml.yml" => found("/m/root.yaml.yml"),
        _ => Lookup::Missing,
    };
    let read = |_: &str| Load::Parsed(file(&[], Vec::new()));
    let (outcome, _, asked) = run("root.yaml", &canonical, &read);
    assert_eq!(asked[0], "canonicalize root.yaml.yaml");
    assert_eq!(outcome.manifest.unwrap().path, "/m/root.yaml.yml");
}

#[test]
fn resolves_absolute_includes() {
    let canonical = |path: &str| match path {
        "root.yaml" => found("/m/root.yaml"),
        "/elsewhere/shared.yaml" => found("/elsewhere/shared.yaml"),
        _ => Lookup::Missing,
    };
    let read = |path: &str| match path {
        "/m/root.yaml" => Load::Parsed(file(&["/elsewhere/shared"], Vec::new())),
        "/elsewhere/shared.yaml" => Load::Parsed(file(&[], Vec::new())),
        _ => Load::Unreadable("unexpected".into()),
    };
    let (outcome, _, _) = run("root", &canonical, &read);
    let root = outcome.manifest.unwrap();
    assert_eq!(root.manifests[0].path, "/elsewhere/shared.yaml");
    assert_eq!(root.manifests[0].name, "/elsewhere/shared");
}

#[test]
fn reports_all_sibling_failures_and_discards_the_partial_tree() {
    let canonical = |path: &str| match path {
        "root.yaml" => found("/m/root.yaml"),
        "/m/valid.yaml" => found("/m/valid.yaml"),
        _ => Lookup::Missing,
    };
    let read = |path: &str| match path {
        "/m/root.yaml" => Load::Parsed(file(&["missing-one", "valid", "missing-two"], Vec::new())),
        "/m/valid.yaml" => Load::Parsed(file(&[], Vec::new())),
        _ => Load::Unreadable("unexpected".into()),
    };
    let (outcome, events, _) = run("root", &canonical, &read);
    assert!(outcome.manifest.is_none());
    assert_eq!(outcome.errors, 2);
    assert_eq!(outcome.resolved, 1);
    let failed: Vec<&str> = events
        .iter()
        .filter_map(|e| match e {
            Event::Error { name, .. } => Some(name.as_str()),
            _ => None,
        })
        .collect();
    assert_eq!(failed, vec!["missing-one", "missing-two"]);
    assert!(matches!(events.last(), Some(Event::Finished { resolved: 1, errors: 2 })));
}
