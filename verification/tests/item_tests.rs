use shed::item::{expand_home, item_file_path, load_all, load_item, ItemEntry, ItemError, ItemFile};

#[test]
fn expands_a_leading_home() {
    let home = Some("/home/u".to_string());
    assert_eq!(expand_home("$HOME/.bashrc", &home), "/home/u/.bashrc");
    assert_eq!(expand_home("$HOME", &home), "/home/u");
    assert_eq!(expand_home("/etc/x", &home), "/etc/x");
    assert_eq!(expand_home("/etc/$HOME", &home), "/etc/$HOME");
    assert_eq!(expand_home("$HOM", &home), "$HOM");
}

#[test]
fn only_a_complete_leading_home_is_expanded() {
    let home = Some("/home/u".to_string());
    assert_eq!(expand_home("$HOMEDIR/x", &home), "$HOMEDIR/x");
    assert_eq!(expand_home("$HOME_x", &home), "$HOME_x");
}

#[test]
fn an_unset_home_leaves_paths_and_any_set_one_is_used() {
    assert_eq!(expand_home("$HOME/.vimrc", &None), "$HOME/.vimrc");
    assert_eq!(expand_home("$HOME/.vimrc", &Some(String::new())), "/.vimrc");
    assert_eq!(expand_home("$HOME/.vimrc", &Some("home/u".to_string())), "home/u/.vimrc");
    let file = ItemFile::Parsed(vec![entry("$HOME/.bashrc", "rc")]);
    let item = load_item("a", "/cfg", "/sync", &None, file).unwrap();
    assert_eq!(item.entries[0].system, "$HOME/.bashrc");
}

#[test]
fn item_files_live_in_the_config_directory() {
    assert_eq!(item_file_path("/cfg", "editors/neovim"), "/cfg/editors/neovim.yaml");
}

fn entry(system: &str, shed: &str) -> ItemEntry {
    ItemEntry { system: system.into(), shed: shed.into() }
}

#[test]
fn loads_an_item_with_resolved_paths() {
    let home = Some("/home/u".to_string());
    let file = ItemFile::Parsed(vec![entry("$HOME/.config/nvim", "nvim"), entry("/etc/x", "x")]);
    let item = load_item("editors/neovim", "/cfg", "/sync", &home, file).unwrap();
    assert_eq!(item.name, "editors/neovim");
    assert_eq!(item.shed_base, "/sync/editors/neovim");
    assert_eq!(item.entries.len(), 2);
    assert_eq!(item.entries[0].system, "/home/u/.config/nvim");
    assert_eq!(item.entries[0].shed, "/sync/editors/neovim/nvim");
    assert_eq!(item.entries[1].system, "/etc/x");
}

#[test]
fn failed_files_give_errors() {
    assert_eq!(
        load_item("a", "/cfg", "/sync", &None, ItemFile::Missing).unwrap_err(),
        ItemError::NotFound("/cfg/a.yaml".into())
    );
    assert_eq!(
        load_item("a", "/cfg", "/sync", &None, ItemFile::Unreadable("denied".into())).unwrap_err(),
        ItemError::Io("/cfg/a.yaml".into(), "denied".into())
    );
    assert_eq!(
        load_item("a", "/cfg", "/sync", &None, ItemFile::Malformed("bad".into())).unwrap_err(),
        ItemError::Yaml("/cfg/a.yaml".into(), "bad".into())
    );
}

#[test]
fn load_all_stops_at_the_first_failure() {
    let refs = vec!["a".to_string(), "b".to_string(), "c".to_string()];
    let files = vec![
        ItemFile::Parsed(vec![entry("/x", "x")]),
        ItemFile::Missing,
        ItemFile::Malformed("bad".into()),
    ];
    assert_eq!(
        load_all(&refs, "/cfg", "/sync", &None, files).unwrap_err(),
        ItemError::NotFound("/cfg/b.yaml".into())
    );
    let files = vec![
        ItemFile::Parsed(vec![entry("/x", "x")]),
        ItemFile::Parsed(Vec::new()),
        ItemFile::Parsed(vec![entry("/y", "/abs")]),
    ];
    let items = load_all(&refs, "/cfg", "/sync", &None, files).unwrap();
    assert_eq!(items.len(), 3);
    assert_eq!(items[2].entries[0].shed, "/abs");
    assert!(items[1].entries.is_empty());
}
