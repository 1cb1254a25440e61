use shed::manifest::{ChildItem, Item as ChildObject, ManifestFile, RootItem};
use shed::plan2;
use shed::plan3;

fn root(path: &str, shed: &str, items: Option<Vec<ChildItem>>) -> RootItem {
    RootItem { path: path.to_string(), shed: shed.to_string(), items }
}

fn file(items: Vec<RootItem>) -> ManifestFile {
    ManifestFile { includes: Vec::new(), items }
}

fn editor_manifest() -> ManifestFile {
    file(vec![
        root(
            "/system/editor",
            "config/editor",
            Some(vec![
                ChildItem::Path("init.lua".to_string()),
                ChildItem::Item(ChildObject {
                    path: "local-settings.json".to_string(),
                    shed: Some("settings.json".to_string()),
                    items: None,
                }),
            ]),
        ),
        root("/system/shellrc", "shell/shellrc", None),
    ])
}

fn leaf2(src: &str, dst: &str) -> plan2::Item {
    plan2::Item::Leaf(plan2::Leaf { src: src.to_string(), dst: dst.to_string() })
}

fn leaf3(src: &str, dst: &str) -> plan3::Item {
    plan3::Item::Leaf(plan3::Leaf { src: src.to_string(), dst: dst.to_string() })
}

#[test]
fn plans_put_from_system_to_shed() {
    let manifest = plan2::Manifest::new("/repo/manifests", editor_manifest());
    let actual = plan2::Planner::new(plan2::Direction::Put).plan(vec![manifest]);
    let expected = vec![
        plan2::Item::Dir(plan2::Dir {
            dst: "/repo/manifests/config/editor".to_string(),
            items: vec![
                leaf2("/system/editor/init.lua", "/repo/manifests/config/editor/init.lua"),
                leaf2(
                    "/system/editor/local-settings.json",
                    "/repo/manifests/config/editor/settings.json",
                ),
            ],
        }),
        leaf2("/system/shellrc", "/repo/manifests/shell/shellrc"),
    ];
    assert_eq!(actual, expected);
}

#[test]
fn plans_get_from_shed_to_system() {
    let manifest = plan2::Manifest::new("/repo/manifests", editor_manifest());
    let actual = plan2::Planner::new(plan2::Direction::Get).plan(vec![manifest]);
    let expected = vec![
        plan2::Item::Dir(plan2::Dir {
            dst: "/system/editor".to_string(),
            items: vec![
                leaf2("/repo/manifests/config/editor/init.lua", "/system/editor/init.lua"),
                leaf2(
                    "/repo/manifests/config/editor/settings.json",
                    "/system/editor/local-settings.json",
                ),
            ],
        }),
        leaf2("/repo/manifests/shell/shellrc", "/system/shellrc"),
    ];
    assert_eq!(actual, expected);
}

#[test]
fn groups_destinations_across_manifests() {
    let manifest1 = plan3::Manifest::new(
        "/manifest1",
        file(vec![
            root("/dir/dst-item1", "src-item1", None),
            root("/dir/dst-item2", "src-item2", None),
        ]),
    );
    let manifest2 = plan3::Manifest::new(
        "/manifest2",
        file(vec![
            root("/dir/dst-item3", "src-item3", None),
            root("/dir/dst-item4", "src-item4", None),
        ]),
    );
    let actual = plan3::Planner::new(plan3::Direction::Get).plan(vec![manifest1, manifest2]);
    let expected = vec![plan3::Item::Dir(plan3::Dir {
        dst: "/dir".to_string(),
        items: vec![
            leaf3("/manifest1/src-item1", "/dir/dst-item1"),
            leaf3("/manifest1/src-item2", "/dir/dst-item2"),
            leaf3("/manifest2/src-item3", "/dir/dst-item3"),
            leaf3("/manifest2/src-item4", "/dir/dst-item4"),
        ],
    })];
    assert_eq!(actual, expected);
}

#[test]
fn keeps_a_single_destination_as_a_leaf() {
    let manifest = plan3::Manifest::new("/manifest", file(vec![root("/dst/file", "src/file", None)]));
    let actual = plan3::Planner::new(plan3::Direction::Get).plan(vec![manifest]);
    assert_eq!(actual, vec![leaf3("/manifest/src/file", "/dst/file")]);
}

#[test]
fn creates_separate_groups_for_unrelated_destinations() {
    let manifest = plan3::Manifest::new(
        "/manifest",
        file(vec![
            root("/first/a", "a", None),
            root("/first/b", "b", None),
            root("/second/c", "c", None),
            root("/second/d", "d", None),
        ]),
    );
    let actual = plan3::Planner::new(plan3::Direction::Get).plan(vec![manifest]);
    assert_eq!(
        actual,
        vec![
            plan3::Item::Dir(plan3::Dir {
                dst: "/first".to_string(),
                items: vec![leaf3("/manifest/a", "/first/a"), leaf3("/manifest/b", "/first/b")],
            }),
            plan3::Item::Dir(plan3::Dir {
                dst: "/second".to_string(),
                items: vec![leaf3("/manifest/c", "/second/c"), leaf3("/manifest/d", "/second/d")],
            }),
        ]
    );
}

#[test]
fn put_plans_group_by_shed_destination() {
    let manifest = plan3::Manifest::new(
        "/repo",
        file(vec![root("/home/a", "cfg/a", None), root("/home/b", "cfg/b", None)]),
    );
    let actual = plan3::Planner::new(plan3::Direction::Put).plan(vec![manifest]);
    assert_eq!(
        actual,
        vec![plan3::Item::Dir(plan3::Dir {
            dst: "/repo/cfg".to_string(),
            items: vec![leaf3("/home/a", "/repo/cfg/a"), leaf3("/home/b", "/repo/cfg/b")],
        })]
    );
}

#[test]
fn get_mirrors_put_on_the_same_manifest() {
    let put = plan3::Planner::new(plan3::Direction::Put)
        .plan(vec![plan3::Manifest::new("/repo", file(vec![root("/etc/x", "x", None)]))]);
    let get = plan3::Planner::new(plan3::Direction::Get)
        .plan(vec![plan3::Manifest::new("/repo", file(vec![root("/etc/x", "x", None)]))]);
    assert_eq!(put, vec![leaf3("/etc/x", "/repo/x")]);
    assert_eq!(get, vec![leaf3("/repo/x", "/etc/x")]);
}

#[test]
fn absolute_shed_paths_replace_the_manifest_location() {
    let manifest = plan2::Manifest::new("/repo", file(vec![root("/etc/x", "/elsewhere/x", None)]));
    let actual = plan2::Planner::new(plan2::Direction::Put).plan(vec![manifest]);
    assert_eq!(actual, vec![leaf2("/etc/x", "/elsewhere/x")]);
}

#[test]
fn group_leaves_keeps_lone_copies_as_leaves() {
    let leaves = vec![
        plan3::Leaf { src: "s1".to_string(), dst: "/a/x".to_string() },
        plan3::Leaf { src: "s2".to_string(), dst: "/b/y".to_string() },
        plan3::Leaf { src: "s3".to_string(), dst: "/a/z".to_string() },
    ];
    let grouped = plan3::group_leaves(leaves);
    assert_eq!(
        grouped,
        vec![
            plan3::Item::Dir(plan3::Dir {
                dst: "/a".to_string(),
                items: vec![leaf3("s1", "/a/x"), leaf3("s3", "/a/z")],
            }),
            leaf3("s2", "/b/y"),
        ]
    );
}

#[test]
fn plans_nothing_for_no_manifests() {
    assert!(plan3::Planner::new(plan3::Direction::Get).plan(Vec::new()).is_empty());
    assert!(plan2::Planner::new(plan2::Direction::Put).plan(Vec::new()).is_empty());
}

fn mirror2(get: &plan2::Item, put: &plan2::Item) -> bool {
    match (get, put) {
        (plan2::Item::Leaf(g), plan2::Item::Leaf(p)) => g.src == p.dst && g.dst == p.src,
        (plan2::Item::Dir(g), plan2::Item::Dir(p)) => {
            g.items.len() == p.items.len()
                && g.items.iter().zip(p.items.iter()).all(|(g, p)| mirror2(g, p))
        }
        _ => false,
    }
}

fn nested_manifest() -> ManifestFile {
    file(vec![root(
        "/system/app",
        "app",
        Some(vec![
            ChildItem::Path("a".to_string()),
            ChildItem::Item(ChildObject {
                path: "lua".to_string(),
                shed: None,
                items: Some(vec![ChildItem::Path("init.lua".to_string())]),
            }),
        ]),
    )])
}

#[test]
fn tree_plan_for_get_mirrors_the_plan_for_put() {
    let put = plan2::Planner::new(plan2::Direction::Put)
        .plan(vec![plan2::Manifest::new("/repo", nested_manifest())]);
    let get = plan2::Planner::new(plan2::Direction::Get)
        .plan(vec![plan2::Manifest::new("/repo", nested_manifest())]);
    assert_eq!(put.len(), get.len());
    assert!(get.iter().zip(put.iter()).all(|(g, p)| mirror2(g, p)));
    match (&put[0], &get[0]) {
        (plan2::Item::Dir(p), plan2::Item::Dir(g)) => {
            assert_eq!(p.dst, "/repo/app");
            assert_eq!(g.dst, "/system/app");
        }
        _ => panic!("expected directories"),
    }
}

#[test]
fn group_leaves_compares_parents_component_by_component() {
    let leaves = vec![
        plan3::Leaf { src: "s1".to_string(), dst: "/r/x//y/a".to_string() },
        plan3::Leaf { src: "s2".to_string(), dst: "/r/x/y/b".to_string() },
    ];
    let grouped = plan3::group_leaves(leaves);
    assert_eq!(grouped.len(), 1);
    match &grouped[0] {
        plan3::Item::Dir(dir) => {
            assert!(std::path::Path::new(&dir.dst) == std::path::Path::new("/r/x/y"));
            assert_eq!(dir.items, vec![leaf3("s1", "/r/x//y/a"), leaf3("s2", "/r/x/y/b")]);
        }
        plan3::Item::Leaf(_) => panic!("expected one directory"),
    }
}
