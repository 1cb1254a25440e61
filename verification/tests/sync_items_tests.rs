use shed::manifest::resolve::Manifest;
use shed::manifest::{ChildItem, RootItem};
use shed::sync_items::items_of;

fn manifest(path: &str, manifests: Vec<Manifest>, items: Vec<RootItem>) -> Manifest {
    Manifest { name: path.to_string(), path: path.to_string(), manifests, items }
}

fn root(path: &str, shed: &str, items: Option<Vec<ChildItem>>) -> RootItem {
    RootItem { path: path.to_string(), shed: shed.to_string(), items }
}

#[test]
fn items_of_a_manifest_tree_come_from_includes_first() {
    let included = manifest("/m/inc.yaml", Vec::new(), vec![root("/sys/a", "a", None)]);
    let tree = manifest(
        "/m/root.yaml",
        vec![included],
        vec![root("$HOME/b", "b", Some(vec![ChildItem::Path("x".to_string())]))],
    );
    let items = items_of(&tree, &Some("/h".to_string()));
    assert_eq!(items.len(), 2);
    assert_eq!(items[0].name, "/sys/a");
    assert_eq!(items[0].shed_base, "/m/a");
    assert_eq!(items[0].entries.len(), 1);
    assert_eq!(items[0].entries[0].system, "/sys/a");
    assert_eq!(items[0].entries[0].shed, "/m/a");
    assert_eq!(items[1].name, "$HOME/b");
    assert_eq!(items[1].shed_base, "/m/b");
    assert_eq!(items[1].entries[0].system, "/h/b/x");
    assert_eq!(items[1].entries[0].shed, "/m/b/x");

    let unset = items_of(&tree, &None);
    assert_eq!(unset[1].entries[0].system, "$HOME/b/x");
}
