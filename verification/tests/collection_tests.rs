use shed::collection::{
    resolve, Canonical, CollectionAnswers, CollectionError, CollectionFile, CollectionLoad,
    CollectionRequest, CollectionStep, ResolvedCollection,
};

fn collection(is_abstract: bool, inherit: &[&str], items: &[&str]) -> CollectionFile {
    CollectionFile {
        is_abstract,
        inherit: inherit.iter().map(|s| s.to_string()).collect(),
        items: items.iter().map(|s| s.to_string()).collect(),
    }
}

/// Answers every question from the given tables until resolution ends.
fn run(
    path: &str,
    canonical: &dyn Fn(&str) -> Canonical,
    read: &dyn Fn(&str) -> CollectionLoad,
) -> (Result<ResolvedCollection, CollectionError>, Vec<String>) {
    let mut answers = CollectionAnswers::new();
    let mut asked = Vec::new();
    loop {
        match resolve(path, "/cfg", &answers) {
            CollectionStep::Done(result) => return (result, asked),
            CollectionStep::Needs(CollectionRequest::Canonicalize(p)) => {
                asked.push(format!("canonicalize {p}"));
                let answer = canonical(&p);
                answers.canonical.push((p, answer));
            }
            CollectionStep::Needs(CollectionRequest::Read(p)) => {
                asked.push(format!("read {p}"));
                let answer = read(&p);
                answers.loads.push((p, answer));
            }
        }
    }
}

fn found(path: &str) -> Canonical {
    Canonical::Found(path.to_string())
}

#[test]
fn inherited_items_come_first_and_only_once() {
    let canonical = |p: &str| found(p);
    let read = |p: &str| match p {
        "/cfg/desktop.yaml" => {
            CollectionLoad::Parsed(collection(false, &["base", "shell"], &["editors/neovim", "git"]))
        }
        "/cfg/base.yaml" => CollectionLoad::Parsed(collection(true, &[], &["git", "ssh"])),
        "/cfg/shell.yaml" => CollectionLoad::Parsed(collection(true, &["base"], &["zsh", "ssh"])),
        _ => CollectionLoad::Unreadable("missing".into()),
    };
    let (result, asked) = run("/cfg/desktop.yaml", &canonical, &read);
    let resolved = result.unwrap();
    assert!(!resolved.abstract_root);
    assert_eq!(resolved.item_refs, vec!["git", "ssh", "zsh", "editors/neovim"]);
    assert_eq!(asked[0], "read /cfg/desktop.yaml");
    assert_eq!(asked[1], "canonicalize /cfg/desktop.yaml");
}

#[test]
fn abstract_roots_are_reported() {
    let canonical = |p: &str| found(p);
    let read = |_: &str| CollectionLoad::Parsed(collection(true, &[], &["a"]));
    let (result, _) = run("/cfg/base.yaml", &canonical, &read);
    assert_eq!(
        result.unwrap(),
        ResolvedCollection { abstract_root: true, item_refs: vec!["a".to_string()] }
    );
}

#[test]
fn inheritance_cycle_names_the_chain() {
    let canonical = |p: &str| found(p);
    let read = |p: &str| match p {
        "/cfg/a.yaml" => CollectionLoad::Parsed(collection(false, &["b"], &[])),
        "/cfg/b.yaml" => CollectionLoad::Parsed(collection(false, &["a"], &[])),
        _ => CollectionLoad::Unreadable("missing".into()),
    };
    let (result, _) = run("/cfg/a.yaml", &canonical, &read);
    assert_eq!(result.unwrap_err(), CollectionError::Cycle("a -> b -> a".into()));
}

#[test]
fn failures_are_reported_with_their_path() {
    let canonical = |p: &str| match p {
        "/cfg/gone.yaml" => Canonical::Failed("No such file".into()),
        _ => found(p),
    };
    let read = |p: &str| match p {
        "/cfg/top.yaml" => CollectionLoad::Parsed(collection(false, &["gone"], &[])),
        "/cfg/bad.yaml" => CollectionLoad::Malformed("invalid type".into()),
        _ => CollectionLoad::Unreadable("denied".into()),
    };
    let (result, _) = run("/cfg/top.yaml", &canonical, &read);
    assert_eq!(
        result.unwrap_err(),
        CollectionError::Canonicalize { path: "/cfg/gone.yaml".into(), message: "No such file".into() }
    );
    let (result, _) = run("/cfg/bad.yaml", &canonical, &read);
    assert_eq!(
        result.unwrap_err(),
        CollectionError::Yaml { path: "/cfg/bad.yaml".into(), message: "invalid type".into() }
    );
    let (result, _) = run("/cfg/other.yaml", &canonical, &read);
    assert_eq!(
        result.unwrap_err(),
        CollectionError::Read { path: "/cfg/other.yaml".into(), message: "denied".into() }
    );
}

#[test]
fn diamond_inheritance_is_resolved_once() {
    let canonical = |p: &str| found(p);
    let read = |p: &str| match p {
        "/cfg/top.yaml" => CollectionLoad::Parsed(collection(false, &["left", "right"], &["top"])),
        "/cfg/left.yaml" => CollectionLoad::Parsed(collection(false, &["base"], &["left"])),
        "/cfg/right.yaml" => CollectionLoad::Parsed(collection(false, &["base"], &["right"])),
        "/cfg/base.yaml" => CollectionLoad::Parsed(collection(false, &[], &["base"])),
        _ => CollectionLoad::Unreadable("missing".into()),
    };
    let (result, asked) = run("/cfg/top.yaml", &canonical, &read);
    assert_eq!(result.unwrap().item_refs, vec!["base", "left", "right", "top"]);
    let base_reads = asked.iter().filter(|a| a.as_str() == "read /cfg/base.yaml").count();
    assert_eq!(base_reads, 1);
}

#[test]
fn default_files_are_empty() {
    let file = CollectionFile::default();
    assert!(!file.is_abstract && file.inherit.is_empty() && file.items.is_empty());
    let manifest = shed::manifest::ManifestFile::default();
    assert!(manifest.includes.is_empty() && manifest.items.is_empty());
}

#[test]
fn inherited_names_are_relative_to_the_inheriting_file() {
    let canonical = |p: &str| found(p);
    let read = |p: &str| match p {
        "/cfg/root.yaml" => CollectionLoad::Parsed(collection(false, &["sub/x"], &[])),
        "/cfg/sub/x.yaml" => CollectionLoad::Parsed(collection(false, &["y"], &[])),
        "/cfg/sub/y.yaml" => CollectionLoad::Parsed(collection(false, &[], &["a"])),
        _ => CollectionLoad::Unreadable("missing".into()),
    };
    let (result, asked) = run("/cfg/root.yaml", &canonical, &read);
    assert_eq!(result.unwrap().item_refs, vec!["a"]);
    assert!(!asked.iter().any(|a| a.as_str() == "read /cfg/y.yaml"));
}
