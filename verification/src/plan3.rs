//! Planning as groups: every endpoint is resolved to one copy first, then
//! copies whose destinations share a parent directory are grouped under it.
//! Parent directories are compared component by component.

use vstd::prelude::*;

use crate::manifest::{item_shed, ChildItem, RootItem};
use crate::paths::{joined, join_path, normal_form, parent_of, path_normal, path_parent};
pub use crate::plan2::{Dir, Direction, Item, Leaf, Manifest, PlanNode, endpoints, nodes_of};

verus! {

/// A resolved copy as a pair of paths: source, then destination.
pub type Copy = (Seq<char>, Seq<char>);

/// The copies of an item at `system` and `shed` with the given children,
/// in declaration order.
pub open spec fn resolved(
    direction: Direction,
    system: Seq<char>,
    shed: Seq<char>,
    children: Option<Vec<ChildItem>>,
) -> Seq<Copy>
    decreases children,
{
    match children {
        Some(children) => resolved_children(direction, system, shed, children@),
        None => seq![endpoints(direction, system, shed)],
    }
}

/// The copies of the children under `system` and `shed`, in order.
pub open spec fn resolved_children(
    direction: Direction,
    system: Seq<char>,
    shed: Seq<char>,
    children: Seq<ChildItem>,
) -> Seq<Copy>
    decreases children,
{
    if children.len() == 0 {
        seq![]
    } else {
        resolved_children(direction, system, shed, children.drop_last()) + resolved_child(
            direction,
            system,
            shed,
            children.last(),
        )
    }
}

/// The copies of one child under `system` and `shed`.
pub open spec fn resolved_child(
    direction: Direction,
    system: Seq<char>,
    shed: Seq<char>,
    child: ChildItem,
) -> Seq<Copy>
    decreases child,
{
    match child {
        ChildItem::Path(path) => seq![endpoints(direction, joined(system, path@), joined(shed, path@))],
        ChildItem::Item(item) => resolved(
            direction,
            joined(system, item.path@),
            joined(shed, item_shed(item)),
            item.items,
        ),
    }
}

/// The copies of a top-level item of a manifest at `location`.
pub open spec fn resolved_root(direction: Direction, location: Seq<char>, root: RootItem) -> Seq<Copy> {
    resolved(direction, root.path@, joined(location, root.shed@), root.items)
}

/// The copies of a manifest's top-level items, in order.
pub open spec fn resolved_roots(direction: Direction, location: Seq<char>, roots: Seq<RootItem>) -> Seq<
    Copy,
>
    decreases roots.len(),
{
    if roots.len() == 0 {
        seq![]
    } else {
        resolved_roots(direction, location, roots.drop_last()) + resolved_root(
            direction,
            location,
            roots.last(),
        )
    }
}

/// The copies of all manifests, manifest by manifest.
pub open spec fn resolved_manifests(direction: Direction, manifests: Seq<Manifest>) -> Seq<Copy>
    decreases manifests.len(),
{
    if manifests.len() == 0 {
        seq![]
    } else {
        resolved_manifests(direction, manifests.drop_last()) + resolved_roots(
            direction,
            manifests.last().location@,
            manifests.last().file.items@,
        )
    }
}

/// The copies that planned leaves denote.
pub open spec fn copies_of(leaves: Seq<Leaf>) -> Seq<Copy> {
    leaves.map_values(|leaf: Leaf| (leaf.src@, leaf.dst@))
}

/// The directory under which a destination is grouped: its parent, unless it
/// has none or the parent is empty.
pub open spec fn group_key(dst: Seq<char>) -> Option<Seq<char>> {
    match path_parent(dst) {
        Some(parent) => if parent.len() > 0 {
            Some(parent)
        } else {
            None
        },
        None => None,
    }
}

/// What copies are grouped by: the group key rebuilt from its components,
/// so that parents naming the same directory by the same components are one
/// group.
pub open spec fn group_id(dst: Seq<char>) -> Option<Seq<char>> {
    match group_key(dst) {
        Some(parent) => Some(path_normal(parent)),
        None => None,
    }
}

/// The group id of the `i`-th copy.
pub open spec fn key_at(copies: Seq<Copy>, i: int) -> Option<Seq<char>> {
    group_id(copies[i].1)
}

/// The `i`-th copy starts a group: it has no group key, or no earlier copy
/// has its group id.
pub open spec fn leads_group(copies: Seq<Copy>, i: int) -> bool {
    key_at(copies, i) is None || forall|j: int| 0 <= j < i ==> key_at(copies, j) != key_at(copies, i)
}

/// The indices below `n` at which a group starts, in increasing order.
pub open spec fn leaders(copies: Seq<Copy>, n: nat) -> Seq<int>
    decreases n,
{
    if n == 0 {
        seq![]
    } else if leads_group(copies, n - 1) {
        leaders(copies, (n - 1) as nat).push(n - 1)
    } else {
        leaders(copies, (n - 1) as nat)
    }
}

/// The copies with a given group id.
pub open spec fn has_key(key: Option<Seq<char>>) -> spec_fn(Copy) -> bool {
    |copy: Copy| group_id(copy.1) == key
}

/// The members, among the first `n` copies, of the group that copy `i` starts:
/// the copy alone when it has no key, else every copy with its group id, in
/// order.
pub open spec fn members(copies: Seq<Copy>, n: nat, i: int) -> Seq<Copy> {
    if key_at(copies, i) is None {
        seq![copies[i]]
    } else {
        copies.take(n as int).filter(has_key(key_at(copies, i)))
    }
}

/// The planned item of the group that copy `i` starts: a lone copy stays a
/// leaf, several copies become a directory at the parent of the copy that
/// starts the group.
pub open spec fn group_node(copies: Seq<Copy>, i: int) -> PlanNode {
    let group = members(copies, copies.len(), i);
    if group.len() == 1 {
        PlanNode::Leaf { src: group[0].0, dst: group[0].1 }
    } else {
        PlanNode::Dir {
            dst: group_key(copies[i].1)->0,
            items: group.map_values(|copy: Copy| PlanNode::Leaf { src: copy.0, dst: copy.1 }),
        }
    }
}

/// The grouped plan: one item per group, in the order the groups start.
pub open spec fn grouped(copies: Seq<Copy>) -> Seq<PlanNode> {
    leaders(copies, copies.len()).map_values(|i: int| group_node(copies, i))
}

/// The indices that `leaders` lists are the indices below `n` that start a
/// group, each once and in increasing order.
pub proof fn lemma_leaders(copies: Seq<Copy>, n: nat)
    requires
        n <= copies.len(),
    ensures
        forall|g: int|
            0 <= g < leaders(copies, n).len() ==> 0 <= #[trigger] leaders(copies, n)[g] < n
                && leads_group(copies, leaders(copies, n)[g]),
        forall|g: int, h: int|
            0 <= g < h < leaders(copies, n).len() ==> #[trigger] leaders(copies, n)[g]
                < #[trigger] leaders(copies, n)[h],
        forall|i: int|
            0 <= i < n && #[trigger] leads_group(copies, i) ==> exists|g: int|
                0 <= g < leaders(copies, n).len() && leaders(copies, n)[g] == i,
    decreases n,
{
    if n > 0 {
        lemma_leaders(copies, (n - 1) as nat);
        let prev = leaders(copies, (n - 1) as nat);
        if leads_group(copies, n - 1) {
            assert forall|i: int|
                0 <= i < n && #[trigger] leads_group(copies, i) implies exists|g: int|
                0 <= g < leaders(copies, n).len() && leaders(copies, n)[g] == i by {
                if i == n - 1 {
                    assert(leaders(copies, n)[prev.len() as int] == i);
                } else {
                    let g = choose|g: int| 0 <= g < prev.len() && prev[g] == i;
                    assert(leaders(copies, n)[g] == i);
                }
            }
        }
    }
}

/// Some copy with a key implies that a group with that key starts at or
/// before it.
proof fn lemma_key_has_leader(copies: Seq<Copy>, i: int)
    requires
        0 <= i < copies.len(),
    ensures
        exists|j: int| 0 <= j <= i && leads_group(copies, j) && key_at(copies, j) == key_at(copies, i),
    decreases i,
{
    if !leads_group(copies, i) {
        let j = choose|j: int| 0 <= j < i && key_at(copies, j) == key_at(copies, i);
        lemma_key_has_leader(copies, j);
    }
}

/// Two groups with keys have different keys.
proof fn lemma_keys_distinct(copies: Seq<Copy>, n: nat, g: int, h: int)
    requires
        n <= copies.len(),
        0 <= g < leaders(copies, n).len(),
        0 <= h < leaders(copies, n).len(),
        g != h,
        key_at(copies, leaders(copies, n)[g]) is Some,
    ensures
        key_at(copies, leaders(copies, n)[g]) != key_at(copies, leaders(copies, n)[h]),
{
    lemma_leaders(copies, n);
    let a = leaders(copies, n)[g];
    let b = leaders(copies, n)[h];
    if g < h {
        assert(a < b);
    } else {
        assert(b < a);
    }
}

fn copy_leaf(leaf: &Leaf) -> (copy: Leaf)
    ensures
        copy.src@ == leaf.src@,
        copy.dst@ == leaf.dst@,
{
    Leaf { src: leaf.src.clone(), dst: leaf.dst.clone() }
}

/// The group key of a destination path.
fn destination_key(dst: &String) -> (key: Option<String>)
    ensures
        key.deep_view() == group_key(dst@),
{
    match parent_of(dst.as_str()) {
        Some(parent) => {
            if parent.as_str().unicode_len() > 0 {
                Some(parent)
            } else {
                None
            }
        },
        None => None,
    }
}

fn same_key(a: &Option<String>, b: &Option<String>) -> (same: bool)
    ensures
        same == (b is Some && a.deep_view() == b.deep_view()),
{
    match b {
        Some(wanted) => match a {
            Some(present) => present.eq(wanted),
            None => false,
        },
        None => false,
    }
}

/// Groups copies whose destinations share a non-empty parent directory.
pub fn group_leaves(leaves: Vec<Leaf>) -> (items: Vec<Item>)
    ensures
        nodes_of(items@) == grouped(copies_of(leaves@)),
{
    let ghost copies = copies_of(leaves@);
    let mut keys: Vec<Option<String>> = Vec::new();
    let mut parents: Vec<Option<String>> = Vec::new();
    let mut groups: Vec<Vec<Leaf>> = Vec::new();
    for k in 0..leaves.len()
        invariant
            copies == copies_of(leaves@),
            keys@.len() == groups@.len(),
            parents@.len() == groups@.len(),
            keys@.len() == leaders(copies, k as nat).len(),
            forall|g: int|
                0 <= g < keys@.len() ==> (#[trigger] keys@[g]).deep_view() == key_at(
                    copies,
                    leaders(copies, k as nat)[g],
                ),
            forall|g: int|
                0 <= g < parents@.len() ==> (#[trigger] parents@[g]).deep_view() == group_key(
                    copies[leaders(copies, k as nat)[g]].1,
                ),
            forall|g: int|
                0 <= g < groups@.len() ==> copies_of((#[trigger] groups@[g])@) == members(
                    copies,
                    k as nat,
                    leaders(copies, k as nat)[g],
                ),
    {
        let ghost old_keys = keys@;
        let ghost old_groups = groups@;
        let ghost old_leaders = leaders(copies, k as nat);
        let ghost next = (k + 1) as nat;
        proof {
            lemma_leaders(copies, k as nat);
            assert(copies.take(k + 1) =~= copies.take(k as int).push(copies[k as int]));
        }
        let parent = destination_key(&leaves[k].dst);
        let key = match &parent {
            Some(p) => Some(normal_form(p.as_str())),
            None => None,
        };
        assert(key.deep_view() == key_at(copies, k as int));
        let mut found: Option<usize> = None;
        let mut g: usize = 0;
        while g < keys.len()
            invariant
                0 <= g <= keys@.len(),
                keys@ == old_keys,
                found is None ==> forall|h: int|
                    0 <= h < g ==> !(key is Some && (#[trigger] keys@[h]).deep_view()
                        == key.deep_view()),
                found matches Some(f) ==> f < keys@.len() && key is Some
                    && keys@[f as int].deep_view() == key.deep_view(),
            decreases keys@.len() - g,
        {
            if found.is_none() && same_key(&keys[g], &key) {
                found = Some(g);
            }
            g = g + 1;
        }
        let leaf = copy_leaf(&leaves[k]);
        match found {
            Some(f) => {
                proof {
                    let i = old_leaders[f as int];
                    // The group exists, so this copy does not start a group.
                    assert(!leads_group(copies, k as int)) by {
                        assert(0 <= i < k && key_at(copies, i) == key_at(copies, k as int));
                    }
                    assert(leaders(copies, next) == old_leaders);
                    assert forall|h: int| 0 <= h < old_leaders.len() && h != f implies key_at(
                        copies,
                        old_leaders[h],
                    ) != key_at(copies, k as int) by {
                        lemma_keys_distinct(copies, k as nat, f as int, h);
                    }
                }
                groups[f].push(leaf);
                proof {
                    assert forall|h: int| 0 <= h < groups@.len() implies copies_of(
                        (#[trigger] groups@[h])@,
                    ) == members(copies, next, leaders(copies, next)[h]) by {
                        let i = old_leaders[h];
                        copies.take(k as int).lemma_filter_push(
                            copies[k as int],
                            has_key(key_at(copies, i)),
                        );
                        if h == f {
                            assert(copies_of(groups@[h]@) =~= copies_of(old_groups[h]@).push(
                                copies[k as int],
                            ));
                        } else {
                            assert(groups@[h] == old_groups[h]);
                        }
                    }
                }
            },
            None => {
                proof {
                    // No earlier copy has this key, so this copy starts a group.
                    assert(leads_group(copies, k as int)) by {
                        if key_at(copies, k as int) is Some {
                            assert forall|j: int| 0 <= j < k implies key_at(copies, j) != key_at(
                                copies,
                                k as int,
                            ) by {
                                if key_at(copies, j) == key_at(copies, k as int) {
                                    lemma_key_has_leader(copies, j);
                                    let l = choose|l: int|
                                        0 <= l <= j && leads_group(copies, l) && key_at(copies, l)
                                            == key_at(copies, j);
                                    let h = choose|h: int|
                                        0 <= h < old_leaders.len() && old_leaders[h] == l;
                                    assert(keys@[h].deep_view() == key.deep_view());
                                }
                            }
                        }
                    }
                    assert(leaders(copies, next) == old_leaders.push(k as int));
                }
                let mut group: Vec<Leaf> = Vec::new();
                group.push(leaf);
                keys.push(key);
                parents.push(parent);
                groups.push(group);
                proof {
                    assert forall|h: int| 0 <= h < groups@.len() implies copies_of(
                        (#[trigger] groups@[h])@,
                    ) == members(copies, next, leaders(copies, next)[h]) by {
                        if h < old_groups.len() {
                            let i = old_leaders[h];
                            copies.take(k as int).lemma_filter_push(
                                copies[k as int],
                                has_key(key_at(copies, i)),
                            );
                            if key_at(copies, i) is Some {
                                assert(key_at(copies, i) != key_at(copies, k as int));
                            }
                            assert(groups@[h] == old_groups[h]);
                        } else {
                            let kk = key_at(copies, k as int);
                            assert(copies_of(groups@[h]@) =~= seq![copies[k as int]]);
                            if kk is Some {
                                copies.take(k as int).lemma_filter_push(copies[k as int], has_key(kk));
                                assert forall|j: int| 0 <= j < k implies !has_key(kk)(
                                    copies.take(k as int)[j],
                                ) by {
                                    assert(copies.take(k as int)[j] == copies[j]);
                                    assert(key_at(copies, j) != key_at(copies, k as int));
                                }
                                copies.take(k as int).lemma_all_neg_filter_empty(has_key(kk));
                                assert(copies.take(k as int).filter(has_key(kk)) =~= Seq::<
                                    Copy,
                                >::empty());
                            }
                        }
                    }
                }
            },
        }
    }
    let ghost n = leaves@.len() as nat;
    proof {
        lemma_leaders(copies, n);
        assert(copies.take(n as int) =~= copies);
    }
    let mut items: Vec<Item> = Vec::new();
    for g in 0..groups.len()
        invariant
            copies == copies_of(leaves@),
            n == copies.len(),
            copies.take(n as int) == copies,
            keys@.len() == groups@.len(),
            parents@.len() == groups@.len(),
            keys@.len() == leaders(copies, n).len(),
            forall|h: int|
                0 <= h < keys@.len() ==> (#[trigger] keys@[h]).deep_view() == key_at(
                    copies,
                    leaders(copies, n)[h],
                ),
            forall|h: int|
                0 <= h < parents@.len() ==> (#[trigger] parents@[h]).deep_view() == group_key(
                    copies[leaders(copies, n)[h]].1,
                ),
            forall|h: int|
                0 <= h < groups@.len() ==> copies_of((#[trigger] groups@[h])@) == members(
                    copies,
                    n,
                    leaders(copies, n)[h],
                ),
            nodes_of(items@) == leaders(copies, n).take(g as int).map_values(
                |i: int| group_node(copies, i),
            ),
    {
        let group = &groups[g];
        let ghost i = leaders(copies, n)[g as int];
        let item = if group.len() == 1 {
            Item::Leaf(copy_leaf(&group[0]))
        } else {
            let dst = match &parents[g] {
                Some(parent) => parent.clone(),
                None => {
                    // A group without a key holds its leading copy alone.
                    proof {
                        assert(copies_of(group@).len() == 1);
                    }
                    String::new()
                },
            };
            let mut entries: Vec<Item> = Vec::new();
            for m in 0..group.len()
                invariant
                    nodes_of(entries@) == copies_of(group@).take(m as int).map_values(
                        |copy: Copy| PlanNode::Leaf { src: copy.0, dst: copy.1 },
                    ),
            {
                let entry = Item::Leaf(copy_leaf(&group[m]));
                proof {
                    crate::plan2::lemma_nodes_of_push(entries@, entry);
                    assert(copies_of(group@).take(m + 1).map_values(
                        |copy: Copy| PlanNode::Leaf { src: copy.0, dst: copy.1 },
                    ) =~= copies_of(group@).take(m as int).map_values(
                        |copy: Copy| PlanNode::Leaf { src: copy.0, dst: copy.1 },
                    ).push(PlanNode::Leaf { src: copies_of(group@)[m as int].0, dst: copies_of(group@)[m as int].1 }));
                }
                entries.push(entry);
            }
            proof {
                assert(copies_of(group@).take(group@.len() as int) =~= copies_of(group@));
            }
            Item::Dir(Dir { dst, items: entries })
        };
        proof {
            crate::plan2::lemma_nodes_of_push(items@, item);
            assert(leaders(copies, n).take(g + 1).map_values(|i: int| group_node(copies, i))
                =~= leaders(copies, n).take(g as int).map_values(|i: int| group_node(copies, i)).push(
                group_node(copies, i),
            ));
        }
        items.push(item);
    }
    proof {
        assert(leaders(copies, n).take(groups@.len() as int) =~= leaders(copies, n));
    }
    items
}

} // verus!

verus! {

proof fn lemma_copies_of_push(leaves: Seq<Leaf>, leaf: Leaf)
    ensures
        copies_of(leaves.push(leaf)) == copies_of(leaves).push((leaf.src@, leaf.dst@)),
{
    assert(copies_of(leaves.push(leaf)) =~= copies_of(leaves).push((leaf.src@, leaf.dst@)));
}

pub struct Planner {
    pub direction: Direction,
}

impl Planner {
    pub fn new(direction: Direction) -> (planner: Self)
        ensures
            planner.direction == direction,
    {
        Planner { direction }
    }

    /// Resolves all endpoints, then groups leaves with the same destination parent.
    pub fn plan(&self, manifests: Vec<Manifest>) -> (items: Vec<Item>)
        ensures
            nodes_of(items@) == grouped(resolved_manifests(self.direction, manifests@)),
    {
        let mut leaves: Vec<Leaf> = Vec::new();
        for m in 0..manifests.len()
            invariant
                copies_of(leaves@) == resolved_manifests(self.direction, manifests@.take(m as int)),
        {
            let manifest = &manifests[m];
            for r in 0..manifest.file.items.len()
                invariant
                    manifest == manifests@[m as int],
                    copies_of(leaves@) == resolved_manifests(self.direction, manifests@.take(m as int))
                        + resolved_roots(
                        self.direction,
                        manifest.location@,
                        manifest.file.items@.take(r as int),
                    ),
            {
                self.resolve_root(&manifest.location, &manifest.file.items[r], &mut leaves);
                proof {
                    assert(manifest.file.items@.take(r + 1).drop_last() =~= manifest.file.items@.take(
                        r as int,
                    ));
                }
            }
            proof {
                assert(manifest.file.items@.take(manifest.file.items@.len() as int)
                    =~= manifest.file.items@);
                assert(manifests@.take(m + 1).drop_last() =~= manifests@.take(m as int));
            }
        }
        proof {
            assert(manifests@.take(manifests@.len() as int) =~= manifests@);
        }
        group_leaves(leaves)
    }

    /// Appends the copies of one top-level item of a manifest at `location`.
    pub fn resolve_root(&self, location: &String, item: &RootItem, leaves: &mut Vec<Leaf>)
        ensures
            copies_of(final(leaves)@) == copies_of(old(leaves)@) + resolved_root(
                self.direction,
                location@,
                *item,
            ),
    {
        let system = String::from_str(item.path.as_str());
        let shed = join_path(location.as_str(), item.shed.as_str());
        self.resolve_item(system, shed, &item.items, leaves);
    }

    fn resolve_child(
        &self,
        system_parent: &String,
        shed_parent: &String,
        item: &ChildItem,
        leaves: &mut Vec<Leaf>,
    )
        ensures
            copies_of(final(leaves)@) == copies_of(old(leaves)@) + resolved_child(
                self.direction,
                system_parent@,
                shed_parent@,
                *item,
            ),
        decreases *item,
    {
        match item {
            ChildItem::Path(path) => {
                let system = join_path(system_parent.as_str(), path.as_str());
                let shed = join_path(shed_parent.as_str(), path.as_str());
                self.push_copy(system, shed, leaves);
            },
            ChildItem::Item(child) => {
                let shed_suffix = match &child.shed {
                    Some(shed) => shed.as_str(),
                    None => child.path.as_str(),
                };
                let system = join_path(system_parent.as_str(), child.path.as_str());
                let shed = join_path(shed_parent.as_str(), shed_suffix);
                self.resolve_item(system, shed, &child.items, leaves);
            },
        }
    }

    fn resolve_item(
        &self,
        system: String,
        shed: String,
        children: &Option<Vec<ChildItem>>,
        leaves: &mut Vec<Leaf>,
    )
        ensures
            copies_of(final(leaves)@) == copies_of(old(leaves)@) + resolved(
                self.direction,
                system@,
                shed@,
                *children,
            ),
        decreases *children,
    {
        match children {
            Some(kids) => {
                let ghost start = copies_of(leaves@);
                for i in 0..kids.len()
                    invariant
                        *children == Some(*kids),
                        copies_of(leaves@) == start + resolved_children(
                            self.direction,
                            system@,
                            shed@,
                            kids@.take(i as int),
                        ),
                {
                    proof {
                        assert(decreases_to!(*children => (*children)->0));
                        assert(decreases_to!(*kids => kids@));
                        assert(decreases_to!(kids@ => kids@[i as int]));
                    }
                    self.resolve_child(&system, &shed, &kids[i], leaves);
                    proof {
                        assert(kids@.take(i + 1).drop_last() =~= kids@.take(i as int));
                        assert(kids@.take(i + 1).last() == kids@[i as int]);
                    }
                }
                proof {
                    assert(kids@.take(kids@.len() as int) =~= kids@);
                }
            },
            None => self.push_copy(system, shed, leaves),
        }
    }

    fn push_copy(&self, system: String, shed: String, leaves: &mut Vec<Leaf>)
        ensures
            copies_of(final(leaves)@) == copies_of(old(leaves)@).push(
                endpoints(self.direction, system@, shed@),
            ),
    {
        let (src, dst) = match self.direction {
            Direction::Put => (system, shed),
            Direction::Get => (shed, system),
        };
        let leaf = Leaf { src, dst };
        proof {
            lemma_copies_of_push(leaves@, leaf);
        }
        leaves.push(leaf);
    }
}

} // verus!

verus! {

/// Copies with source and destination exchanged.
pub open spec fn swapped(copies: Seq<Copy>) -> Seq<Copy> {
    copies.map_values(|copy: Copy| (copy.1, copy.0))
}

/// The copies that a planned tree holds, in order.
pub open spec fn leaves_in(node: PlanNode) -> Seq<Copy>
    decreases node,
{
    match node {
        PlanNode::Leaf { src, dst } => seq![(src, dst)],
        PlanNode::Dir { dst, items } => leaves_in_all(items),
    }
}

/// The copies that a sequence of planned trees holds, in order.
pub open spec fn leaves_in_all(nodes: Seq<PlanNode>) -> Seq<Copy>
    decreases nodes,
{
    if nodes.len() == 0 {
        seq![]
    } else {
        leaves_in_all(nodes.drop_last()) + leaves_in(nodes.last())
    }
}

proof fn lemma_swapped_add(a: Seq<Copy>, b: Seq<Copy>)
    ensures
        swapped(a + b) == swapped(a) + swapped(b),
{
    assert(swapped(a + b) =~= swapped(a) + swapped(b));
}

/// Getting copies every endpoint of putting back: the copies resolved for
/// `Get` are those resolved for `Put` with source and destination exchanged.
pub proof fn lemma_get_mirrors_put(
    system: Seq<char>,
    shed: Seq<char>,
    children: Option<Vec<ChildItem>>,
)
    ensures
        resolved(Direction::Get, system, shed, children) == swapped(
            resolved(Direction::Put, system, shed, children),
        ),
    decreases children,
{
    match children {
        Some(kids) => {
            assert(decreases_to!(children => children->0));
            lemma_get_mirrors_put_children(system, shed, kids@);
        },
        None => {
            assert(swapped(seq![endpoints(Direction::Put, system, shed)]) =~= seq![
                endpoints(Direction::Get, system, shed),
            ]);
        },
    }
}

/// The mirror law for a sequence of children.
pub proof fn lemma_get_mirrors_put_children(
    system: Seq<char>,
    shed: Seq<char>,
    children: Seq<ChildItem>,
)
    ensures
        resolved_children(Direction::Get, system, shed, children) == swapped(
            resolved_children(Direction::Put, system, shed, children),
        ),
    decreases children,
{
    if children.len() > 0 {
        lemma_get_mirrors_put_children(system, shed, children.drop_last());
        lemma_get_mirrors_put_child(system, shed, children.last());
        lemma_swapped_add(
            resolved_children(Direction::Put, system, shed, children.drop_last()),
            resolved_child(Direction::Put, system, shed, children.last()),
        );
    } else {
        assert(swapped(seq![]) =~= Seq::<Copy>::empty());
    }
}

/// The mirror law for one child.
pub proof fn lemma_get_mirrors_put_child(system: Seq<char>, shed: Seq<char>, child: ChildItem)
    ensures
        resolved_child(Direction::Get, system, shed, child) == swapped(
            resolved_child(Direction::Put, system, shed, child),
        ),
    decreases child,
{
    match child {
        ChildItem::Path(path) => {
            let s = joined(system, path@);
            let d = joined(shed, path@);
            assert(swapped(seq![endpoints(Direction::Put, s, d)]) =~= seq![
                endpoints(Direction::Get, s, d),
            ]);
        },
        ChildItem::Item(item) => {
            lemma_get_mirrors_put(joined(system, item.path@), joined(shed, item_shed(item)), item.items);
        },
    }
}

/// Grouping aside, both planners see the same copies: the copies that the
/// grouping planner resolves for an item are the leaves of the tree that the
/// tree planner builds for it, in the same order.
pub proof fn lemma_resolved_are_tree_leaves(
    direction: Direction,
    system: Seq<char>,
    shed: Seq<char>,
    children: Option<Vec<ChildItem>>,
)
    ensures
        resolved(direction, system, shed, children) == leaves_in(
            crate::plan2::planned(direction, system, shed, children),
        ),
    decreases children,
{
    match children {
        Some(kids) => {
            assert(decreases_to!(children => children->0));
            lemma_resolved_children_are_tree_leaves(direction, system, shed, kids@);
        },
        None => {},
    }
}

/// The leaves law for a sequence of children.
pub proof fn lemma_resolved_children_are_tree_leaves(
    direction: Direction,
    system: Seq<char>,
    shed: Seq<char>,
    children: Seq<ChildItem>,
)
    ensures
        resolved_children(direction, system, shed, children) == leaves_in_all(
            crate::plan2::planned_children(direction, system, shed, children),
        ),
    decreases children,
{
    if children.len() > 0 {
        lemma_resolved_children_are_tree_leaves(direction, system, shed, children.drop_last());
        lemma_resolved_child_is_tree_leaves(direction, system, shed, children.last());
        let nodes = crate::plan2::planned_children(direction, system, shed, children);
        assert(nodes.drop_last() =~= crate::plan2::planned_children(
            direction,
            system,
            shed,
            children.drop_last(),
        ));
    }
}

/// The leaves law for one child.
pub proof fn lemma_resolved_child_is_tree_leaves(
    direction: Direction,
    system: Seq<char>,
    shed: Seq<char>,
    child: ChildItem,
)
    ensures
        resolved_child(direction, system, shed, child) == leaves_in(
            crate::plan2::planned_child(direction, system, shed, child),
        ),
    decreases child,
{
    match child {
        ChildItem::Path(path) => {},
        ChildItem::Item(item) => {
            lemma_resolved_are_tree_leaves(
                direction,
                joined(system, item.path@),
                joined(shed, item_shed(item)),
                item.items,
            );
        },
    }
}

/// Every directory of a grouped plan holds at least two copies, all of them
/// leaves whose destination lies directly in the directory (its parent has
/// the directory's components), and no two directories of one plan have a
/// destination with the same components.
pub proof fn lemma_grouped_directories(copies: Seq<Copy>)
    ensures
        forall|g: int|
            0 <= g < grouped(copies).len() && (#[trigger] grouped(copies)[g]) is Dir ==> {
                &&& grouped(copies)[g]->items.len() >= 2
                &&& forall|e: int|
                    0 <= e < grouped(copies)[g]->items.len() ==> {
                        &&& (#[trigger] grouped(copies)[g]->items[e]) is Leaf
                        &&& group_id(grouped(copies)[g]->items[e]->Leaf_dst) == Some(
                            path_normal(grouped(copies)[g]->Dir_dst),
                        )
                    }
            },
        forall|g: int, h: int|
            0 <= g < grouped(copies).len() && 0 <= h < grouped(copies).len() && g != h
                && (#[trigger] grouped(copies)[g]) is Dir && (#[trigger] grouped(copies)[h]) is Dir
                ==> path_normal(grouped(copies)[g]->Dir_dst) != path_normal(grouped(copies)[h]->Dir_dst),
{
    let n = copies.len();
    lemma_leaders(copies, n);
    assert(copies.take(n as int) =~= copies);
    assert forall|g: int|
        0 <= g < grouped(copies).len() && (#[trigger] grouped(copies)[g]) is Dir implies {
        &&& grouped(copies)[g]->items.len() >= 2
        &&& forall|e: int|
            0 <= e < grouped(copies)[g]->items.len() ==> {
                &&& (#[trigger] grouped(copies)[g]->items[e]) is Leaf
                &&& group_id(grouped(copies)[g]->items[e]->Leaf_dst) == Some(
                    path_normal(grouped(copies)[g]->Dir_dst),
                )
            }
    } by {
        let i = leaders(copies, n)[g];
        let key = key_at(copies, i);
        let group = members(copies, n, i);
        assert(key is Some);
        copies.lemma_filter_contains(has_key(key), i);
        assert(group.len() >= 2);
        assert forall|e: int| 0 <= e < group.len() implies group_id(#[trigger] group[e].1) == key by {
            copies.lemma_filter_pred(has_key(key), e);
        }
    }
    assert forall|g: int, h: int|
        0 <= g < grouped(copies).len() && 0 <= h < grouped(copies).len() && g != h
            && (#[trigger] grouped(copies)[g]) is Dir && (#[trigger] grouped(copies)[h]) is Dir
        implies path_normal(grouped(copies)[g]->Dir_dst) != path_normal(grouped(copies)[h]->Dir_dst) by {
        let i = leaders(copies, n)[g];
        assert(key_at(copies, i) is Some);
        lemma_keys_distinct(copies, n, g, h);
    }
}

} // verus!

verus! {

/// How many copies the groups started at the given leaders hold among the
/// first `n` copies.
pub open spec fn members_total(copies: Seq<Copy>, n: nat, starts: Seq<int>) -> nat
    decreases starts.len(),
{
    if starts.len() == 0 {
        0
    } else {
        members_total(copies, n, starts.drop_last()) + members(copies, n, starts.last()).len()
    }
}

/// How many of the given leaders have the same key as copy `i`.
spec fn sharing_key(copies: Seq<Copy>, starts: Seq<int>, i: int) -> nat
    decreases starts.len(),
{
    if starts.len() == 0 {
        0
    } else {
        sharing_key(copies, starts.drop_last(), i) + if key_at(copies, starts.last()) is Some
            && key_at(copies, starts.last()) == key_at(copies, i) {
            1nat
        } else {
            0nat
        }
    }
}

/// One more copy adds itself to the group of each leader that shares its
/// key.
proof fn lemma_total_grows(copies: Seq<Copy>, n: nat, starts: Seq<int>)
    requires
        0 < n <= copies.len(),
        forall|j: int| 0 <= j < starts.len() ==> 0 <= #[trigger] starts[j] < n - 1,
    ensures
        members_total(copies, n, starts) == members_total(copies, (n - 1) as nat, starts)
            + sharing_key(copies, starts, n - 1),
    decreases starts.len(),
{
    if starts.len() > 0 {
        let rest = starts.drop_last();
        assert forall|j: int| 0 <= j < rest.len() implies 0 <= #[trigger] rest[j] < n - 1 by {
            assert(rest[j] == starts[j]);
        }
        lemma_total_grows(copies, n, rest);
        let l = starts.last();
        assert(0 <= l < n - 1);
        let key = key_at(copies, l);
        if key is Some {
            let before = copies.take(n - 1);
            assert(copies.take(n as int) =~= before.push(copies[n - 1]));
            before.lemma_filter_push(copies[n - 1], has_key(key));
            assert(has_key(key)(copies[n - 1]) == (key_at(copies, n - 1) == key));
        }
    }
}

/// Among leaders with distinct keys, at most one shares a key, and one does
/// when some leader has that key.
proof fn lemma_sharing_once(copies: Seq<Copy>, starts: Seq<int>, i: int)
    requires
        forall|g: int, h: int|
            0 <= g < starts.len() && 0 <= h < starts.len() && g != h && key_at(
                copies,
                #[trigger] starts[g],
            ) is Some ==> key_at(copies, starts[g]) != key_at(copies, #[trigger] starts[h]),
    ensures
        sharing_key(copies, starts, i) <= 1,
        (exists|g: int|
            0 <= g < starts.len() && key_at(copies, #[trigger] starts[g]) is Some && key_at(
                copies,
                starts[g],
            ) == key_at(copies, i)) ==> sharing_key(copies, starts, i) == 1,
    decreases starts.len(),
{
    if starts.len() > 0 {
        let rest = starts.drop_last();
        assert forall|g: int, h: int|
            0 <= g < rest.len() && 0 <= h < rest.len() && g != h && key_at(
                copies,
                #[trigger] rest[g],
            ) is Some implies key_at(copies, rest[g]) != key_at(copies, #[trigger] rest[h]) by {
            assert(rest[g] == starts[g] && rest[h] == starts[h]);
        }
        lemma_sharing_once(copies, rest, i);
        let last = starts.last();
        if key_at(copies, last) is Some && key_at(copies, last) == key_at(copies, i) {
            assert(sharing_key(copies, rest, i) == 0) by {
                if sharing_key(copies, rest, i) > 0 {
                    lemma_sharing_witness(copies, rest, i);
                    let g = choose|g: int|
                        0 <= g < rest.len() && key_at(copies, #[trigger] rest[g]) is Some
                            && key_at(copies, rest[g]) == key_at(copies, i);
                    assert(starts[g] == rest[g]);
                    assert(key_at(copies, starts[g]) != key_at(copies, starts[starts.len() - 1]));
                }
            }
        } else {
            if exists|g: int|
                0 <= g < starts.len() && key_at(copies, #[trigger] starts[g]) is Some && key_at(
                    copies,
                    starts[g],
                ) == key_at(copies, i) {
                let g = choose|g: int|
                    0 <= g < starts.len() && key_at(copies, #[trigger] starts[g]) is Some
                        && key_at(copies, starts[g]) == key_at(copies, i);
                assert(g < rest.len());
                assert(rest[g] == starts[g]);
            }
        }
    }
}

proof fn lemma_sharing_witness(copies: Seq<Copy>, starts: Seq<int>, i: int)
    requires
        sharing_key(copies, starts, i) > 0,
    ensures
        exists|g: int|
            0 <= g < starts.len() && key_at(copies, #[trigger] starts[g]) is Some && key_at(
                copies,
                starts[g],
            ) == key_at(copies, i),
    decreases starts.len(),
{
    let rest = starts.drop_last();
    if sharing_key(copies, rest, i) > 0 {
        lemma_sharing_witness(copies, rest, i);
        let g = choose|g: int|
            0 <= g < rest.len() && key_at(copies, #[trigger] rest[g]) is Some && key_at(
                copies,
                rest[g],
            ) == key_at(copies, i);
        assert(starts[g] == rest[g]);
    } else {
        assert(starts[starts.len() - 1] == starts.last());
    }
}

/// The groups among the first `n` copies hold `n` copies between them.
proof fn lemma_members_total(copies: Seq<Copy>, n: nat)
    requires
        n <= copies.len(),
    ensures
        members_total(copies, n, leaders(copies, n)) == n,
    decreases n,
{
    if n > 0 {
        let m = (n - 1) as nat;
        lemma_members_total(copies, m);
        lemma_leaders(copies, m);
        let starts = leaders(copies, m);
        lemma_total_grows(copies, n, starts);
        assert forall|g: int, h: int|
            0 <= g < starts.len() && 0 <= h < starts.len() && g != h && key_at(
                copies,
                #[trigger] starts[g],
            ) is Some implies key_at(copies, starts[g]) != key_at(copies, #[trigger] starts[h]) by {
            lemma_keys_distinct(copies, m, g, h);
        }
        lemma_sharing_once(copies, starts, m as int);
        let key = key_at(copies, m as int);
        if leads_group(copies, m as int) {
            assert(leaders(copies, n) == starts.push(m as int));
            assert(starts.push(m as int).drop_last() =~= starts);
            assert(sharing_key(copies, starts, m as int) == 0) by {
                if sharing_key(copies, starts, m as int) > 0 {
                    lemma_sharing_witness(copies, starts, m as int);
                    let g = choose|g: int|
                        0 <= g < starts.len() && key_at(copies, #[trigger] starts[g]) is Some
                            && key_at(copies, starts[g]) == key_at(copies, m as int);
                    assert(0 <= starts[g] < m);
                }
            }
            // The new group holds the new copy alone.
            if key is Some {
                let before = copies.take(m as int);
                before.lemma_filter_push(copies[m as int], has_key(key));
                assert(copies.take(n as int) =~= before.push(copies[m as int]));
                assert forall|j: int| 0 <= j < before.len() implies !has_key(key)(
                    before[j],
                ) by {
                    assert(before[j] == copies[j]);
                    assert(key_at(copies, j) != key_at(copies, m as int));
                }
                before.lemma_all_neg_filter_empty(has_key(key));
            }
        } else {
            assert(leaders(copies, n) == starts);
            lemma_key_has_leader(copies, m as int);
            let j = choose|j: int|
                0 <= j <= m && leads_group(copies, j) && key_at(copies, j) == key_at(
                    copies,
                    m as int,
                );
            assert(j < m);
            let g = choose|g: int| 0 <= g < starts.len() && starts[g] == j;
            assert(key is Some);
            assert(key_at(copies, starts[g]) is Some && key_at(copies, starts[g]) == key);
        }
    }
}

/// How many copies a planned group holds: one for a leaf, its entries for
/// a directory.
pub open spec fn group_size(node: PlanNode) -> nat {
    match node {
        PlanNode::Leaf { .. } => 1,
        PlanNode::Dir { items, .. } => items.len(),
    }
}

/// The copies the planned groups hold between them.
pub open spec fn grouped_total(nodes: Seq<PlanNode>) -> nat
    decreases nodes.len(),
{
    if nodes.len() == 0 {
        0
    } else {
        grouped_total(nodes.drop_last()) + group_size(nodes.last())
    }
}

proof fn lemma_grouped_total(copies: Seq<Copy>, k: int)
    requires
        0 <= k <= leaders(copies, copies.len()).len(),
    ensures
        grouped_total(grouped(copies).take(k)) == members_total(
            copies,
            copies.len(),
            leaders(copies, copies.len()).take(k),
        ),
    decreases k,
{
    if k > 0 {
        lemma_grouped_total(copies, k - 1);
        let starts = leaders(copies, copies.len());
        assert(grouped(copies).take(k).drop_last() =~= grouped(copies).take(k - 1));
        assert(starts.take(k).drop_last() =~= starts.take(k - 1));
        let i = starts[k - 1];
        assert(grouped(copies)[k - 1] == group_node(copies, i));
        let group = members(copies, copies.len(), i);
        if group.len() != 1 {
            assert(group_size(group_node(copies, i)) == group.len());
        }
    }
}

/// Grouping keeps every copy: the groups of a plan hold exactly as many
/// copies as were planned, each copy in one group.
pub proof fn lemma_grouping_keeps_every_copy(copies: Seq<Copy>)
    ensures
        grouped_total(grouped(copies)) == copies.len(),
{
    let n = copies.len();
    lemma_members_total(copies, n);
    let starts = leaders(copies, n);
    lemma_grouped_total(copies, starts.len() as int);
    assert(grouped(copies).take(starts.len() as int) =~= grouped(copies));
    assert(starts.take(starts.len() as int) =~= starts);
}

} // verus!
