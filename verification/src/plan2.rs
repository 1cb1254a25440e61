//! Planning as a tree: every manifest item becomes one planned item, and an
//! item with children becomes a directory whose entries are its children.

use vstd::prelude::*;

use crate::manifest::{item_shed, ChildItem, ManifestFile, RootItem};
use crate::paths::{joined, join_path};

verus! {

/// A planned directory: the destination prefix and the items under it.
#[derive(Debug, PartialEq)]
pub struct Dir {
    pub dst: String,
    pub items: Vec<Item>,
}

/// A planned copy from `src` to `dst`.
#[derive(Debug, PartialEq)]
pub struct Leaf {
    pub src: String,
    pub dst: String,
}

/// A planned item.
#[derive(Debug, PartialEq)]
pub enum Item {
    Dir(Dir),
    Leaf(Leaf),
}

/// Which way copies go: `Put` copies system to shed, `Get` shed to system.
#[derive(Clone, Copy, Debug, PartialEq, Eq)]
pub enum Direction {
    Put,
    Get,
}

/// A parsed manifest and the directory containing it.
pub struct Manifest {
    pub location: String,
    pub file: ManifestFile,
}

impl Manifest {
    pub fn new(location: &str, file: ManifestFile) -> (manifest: Self)
        ensures
            manifest.location@ == location@,
            manifest.file == file,
    {
        Manifest { location: String::from_str(location), file }
    }
}

/// A plan as a mathematical tree.
pub enum PlanNode {
    Dir { dst: Seq<char>, items: Seq<PlanNode> },
    Leaf { src: Seq<char>, dst: Seq<char> },
}

/// The tree that a planned item denotes.
pub open spec fn node_of(item: Item) -> PlanNode
    decreases item,
{
    match item {
        Item::Dir(dir) => PlanNode::Dir { dst: dir.dst@, items: nodes_of(dir.items@) },
        Item::Leaf(leaf) => PlanNode::Leaf { src: leaf.src@, dst: leaf.dst@ },
    }
}

/// The trees that a sequence of planned items denotes.
pub open spec fn nodes_of(items: Seq<Item>) -> Seq<PlanNode>
    decreases items,
{
    if items.len() == 0 {
        seq![]
    } else {
        nodes_of(items.drop_last()).push(node_of(items.last()))
    }
}

/// Source and destination of a copy between a system and a shed path.
pub open spec fn endpoints(direction: Direction, system: Seq<char>, shed: Seq<char>) -> (Seq<
    char,
>, Seq<char>) {
    match direction {
        Direction::Put => (system, shed),
        Direction::Get => (shed, system),
    }
}

/// The side that receives copies.
pub open spec fn destination(direction: Direction, system: Seq<char>, shed: Seq<char>) -> Seq<char> {
    endpoints(direction, system, shed).1
}

/// A planned copy between a system and a shed path.
pub open spec fn leaf_node(direction: Direction, system: Seq<char>, shed: Seq<char>) -> PlanNode {
    PlanNode::Leaf {
        src: endpoints(direction, system, shed).0,
        dst: endpoints(direction, system, shed).1,
    }
}

/// The plan of an item at `system` and `shed` with the given children.
pub open spec fn planned(
    direction: Direction,
    system: Seq<char>,
    shed: Seq<char>,
    children: Option<Vec<ChildItem>>,
) -> PlanNode
    decreases children,
{
    match children {
        Some(children) => PlanNode::Dir {
            dst: destination(direction, system, shed),
            items: planned_children(direction, system, shed, children@),
        },
        None => leaf_node(direction, system, shed),
    }
}

/// The plans of the children under `system` and `shed`, in order.
pub open spec fn planned_children(
    direction: Direction,
    system: Seq<char>,
    shed: Seq<char>,
    children: Seq<ChildItem>,
) -> Seq<PlanNode>
    decreases children,
{
    if children.len() == 0 {
        seq![]
    } else {
        planned_children(direction, system, shed, children.drop_last()).push(
            planned_child(direction, system, shed, children.last()),
        )
    }
}

/// The plan of one child under `system` and `shed`.
pub open spec fn planned_child(
    direction: Direction,
    system: Seq<char>,
    shed: Seq<char>,
    child: ChildItem,
) -> PlanNode
    decreases child,
{
    match child {
        ChildItem::Path(path) => leaf_node(direction, joined(system, path@), joined(shed, path@)),
        ChildItem::Item(item) => planned(
            direction,
            joined(system, item.path@),
            joined(shed, item_shed(item)),
            item.items,
        ),
    }
}

/// The plan of a top-level item of a manifest at `location`.
pub open spec fn planned_root(direction: Direction, location: Seq<char>, root: RootItem) -> PlanNode {
    planned(direction, root.path@, joined(location, root.shed@), root.items)
}

/// The plans of a manifest's top-level items, in order.
pub open spec fn planned_roots(direction: Direction, location: Seq<char>, roots: Seq<RootItem>) -> Seq<
    PlanNode,
>
    decreases roots.len(),
{
    if roots.len() == 0 {
        seq![]
    } else {
        planned_roots(direction, location, roots.drop_last()).push(
            planned_root(direction, location, roots.last()),
        )
    }
}

/// The plans of all manifests' items, manifest by manifest.
pub open spec fn planned_manifests(direction: Direction, manifests: Seq<Manifest>) -> Seq<PlanNode>
    decreases manifests.len(),
{
    if manifests.len() == 0 {
        seq![]
    } else {
        planned_manifests(direction, manifests.drop_last()) + planned_roots(
            direction,
            manifests.last().location@,
            manifests.last().file.items@,
        )
    }
}

pub(crate) proof fn lemma_nodes_of_push(items: Seq<Item>, item: Item)
    ensures
        nodes_of(items.push(item)) == nodes_of(items).push(node_of(item)),
{
    assert(items.push(item).drop_last() =~= items);
}

/// Whether `get` is the mirror of `put`: the same shape, every leaf with
/// source and destination exchanged, every directory matched by a directory.
pub open spec fn mirror_of(get: PlanNode, put: PlanNode) -> bool
    decreases put,
{
    match put {
        PlanNode::Leaf { src, dst } => get == PlanNode::Leaf { src: dst, dst: src },
        PlanNode::Dir { dst, items } => match get {
            PlanNode::Dir { dst: _, items: get_items } => mirrors_of(get_items, items),
            PlanNode::Leaf { .. } => false,
        },
    }
}

/// Whether `gets` mirrors `puts` position by position.
pub open spec fn mirrors_of(gets: Seq<PlanNode>, puts: Seq<PlanNode>) -> bool
    decreases puts,
{
    &&& gets.len() == puts.len()
    &&& puts.len() > 0 ==> {
        &&& mirrors_of(gets.drop_last(), puts.drop_last())
        &&& mirror_of(gets.last(), puts.last())
    }
}

/// The destination of a planned directory.
pub open spec fn dir_destination(node: PlanNode) -> Option<Seq<char>> {
    match node {
        PlanNode::Dir { dst, .. } => Some(dst),
        PlanNode::Leaf { .. } => None,
    }
}

/// Getting mirrors putting: the `Get` plan of an item has the shape of its
/// `Put` plan with every copy reversed; an item with children is a directory
/// at its shed side when putting and at its system side when getting.
pub proof fn lemma_plan_get_mirrors_put(
    system: Seq<char>,
    shed: Seq<char>,
    children: Option<Vec<ChildItem>>,
)
    ensures
        mirror_of(planned(Direction::Get, system, shed, children), planned(Direction::Put, system, shed, children)),
        children is Some ==> dir_destination(planned(Direction::Put, system, shed, children)) == Some(shed),
        children is Some ==> dir_destination(planned(Direction::Get, system, shed, children)) == Some(system),
    decreases children,
{
    match children {
        Some(kids) => {
            assert(decreases_to!(children => children->0));
            lemma_plan_children_get_mirrors_put(system, shed, kids@);
        },
        None => {},
    }
}

/// The mirror law for a sequence of children.
pub proof fn lemma_plan_children_get_mirrors_put(
    system: Seq<char>,
    shed: Seq<char>,
    children: Seq<ChildItem>,
)
    ensures
        mirrors_of(
            planned_children(Direction::Get, system, shed, children),
            planned_children(Direction::Put, system, shed, children),
        ),
    decreases children,
{
    if children.len() > 0 {
        lemma_plan_children_get_mirrors_put(system, shed, children.drop_last());
        lemma_plan_child_get_mirrors_put(system, shed, children.last());
        let gets = planned_children(Direction::Get, system, shed, children);
        let puts = planned_children(Direction::Put, system, shed, children);
        assert(gets.drop_last() =~= planned_children(Direction::Get, system, shed, children.drop_last()));
        assert(puts.drop_last() =~= planned_children(Direction::Put, system, shed, children.drop_last()));
    }
}

/// The mirror law for one child.
pub proof fn lemma_plan_child_get_mirrors_put(system: Seq<char>, shed: Seq<char>, child: ChildItem)
    ensures
        mirror_of(
            planned_child(Direction::Get, system, shed, child),
            planned_child(Direction::Put, system, shed, child),
        ),
    decreases child,
{
    match child {
        ChildItem::Path(_) => {},
        ChildItem::Item(item) => {
            lemma_plan_get_mirrors_put(joined(system, item.path@), joined(shed, item_shed(item)), item.items);
        },
    }
}

proof fn lemma_mirrors_of_add(gets: Seq<PlanNode>, puts: Seq<PlanNode>, more_gets: Seq<PlanNode>, more_puts: Seq<PlanNode>)
    requires
        mirrors_of(gets, puts),
        mirrors_of(more_gets, more_puts),
    ensures
        mirrors_of(gets + more_gets, puts + more_puts),
    decreases more_puts.len(),
{
    if more_puts.len() == 0 {
        assert(gets + more_gets =~= gets);
        assert(puts + more_puts =~= puts);
    } else {
        lemma_mirrors_of_add(gets, puts, more_gets.drop_last(), more_puts.drop_last());
        assert((gets + more_gets).drop_last() =~= gets + more_gets.drop_last());
        assert((puts + more_puts).drop_last() =~= puts + more_puts.drop_last());
    }
}

/// The mirror law for the top-level items of a manifest at `location`.
pub proof fn lemma_plan_roots_get_mirrors_put(location: Seq<char>, roots: Seq<RootItem>)
    ensures
        mirrors_of(
            planned_roots(Direction::Get, location, roots),
            planned_roots(Direction::Put, location, roots),
        ),
    decreases roots.len(),
{
    if roots.len() > 0 {
        lemma_plan_roots_get_mirrors_put(location, roots.drop_last());
        let root = roots.last();
        lemma_plan_get_mirrors_put(root.path@, joined(location, root.shed@), root.items);
        let gets = planned_roots(Direction::Get, location, roots);
        let puts = planned_roots(Direction::Put, location, roots);
        assert(gets.drop_last() =~= planned_roots(Direction::Get, location, roots.drop_last()));
        assert(puts.drop_last() =~= planned_roots(Direction::Put, location, roots.drop_last()));
    }
}

/// Getting mirrors putting for whole plans: planning the same manifests for
/// `Get` gives, position by position, the mirror of planning them for `Put`.
pub proof fn lemma_plans_get_mirrors_put(manifests: Seq<Manifest>)
    ensures
        mirrors_of(
            planned_manifests(Direction::Get, manifests),
            planned_manifests(Direction::Put, manifests),
        ),
    decreases manifests.len(),
{
    if manifests.len() > 0 {
        lemma_plans_get_mirrors_put(manifests.drop_last());
        let last = manifests.last();
        lemma_plan_roots_get_mirrors_put(last.location@, last.file.items@);
        lemma_mirrors_of_add(
            planned_manifests(Direction::Get, manifests.drop_last()),
            planned_manifests(Direction::Put, manifests.drop_last()),
            planned_roots(Direction::Get, last.location@, last.file.items@),
            planned_roots(Direction::Put, last.location@, last.file.items@),
        );
    }
}

/// A plan before a direction is chosen: every node keeps both its system
/// and its shed side.
pub enum SideNode {
    Dir { system: Seq<char>, shed: Seq<char>, items: Seq<SideNode> },
    Leaf { system: Seq<char>, shed: Seq<char> },
}

/// The sides of an item at `system` and `shed` with the given children.
pub open spec fn sides(system: Seq<char>, shed: Seq<char>, children: Option<Vec<ChildItem>>) -> SideNode
    decreases children,
{
    match children {
        Some(children) => SideNode::Dir { system, shed, items: sides_children(system, shed, children@) },
        None => SideNode::Leaf { system, shed },
    }
}

/// The sides of the children under `system` and `shed`, in order.
pub open spec fn sides_children(system: Seq<char>, shed: Seq<char>, children: Seq<ChildItem>) -> Seq<
    SideNode,
>
    decreases children,
{
    if children.len() == 0 {
        seq![]
    } else {
        sides_children(system, shed, children.drop_last()).push(
            sides_child(system, shed, children.last()),
        )
    }
}

/// The sides of one child under `system` and `shed`.
pub open spec fn sides_child(system: Seq<char>, shed: Seq<char>, child: ChildItem) -> SideNode
    decreases child,
{
    match child {
        ChildItem::Path(path) => SideNode::Leaf { system: joined(system, path@), shed: joined(shed, path@) },
        ChildItem::Item(item) => sides(joined(system, item.path@), joined(shed, item_shed(item)), item.items),
    }
}

/// A two-sided plan oriented in a direction: every leaf copies from the
/// source side to the destination side, every directory sits at its
/// destination side (the shed side when putting, the system side when
/// getting).
pub open spec fn oriented(direction: Direction, node: SideNode) -> PlanNode
    decreases node,
{
    match node {
        SideNode::Leaf { system, shed } => leaf_node(direction, system, shed),
        SideNode::Dir { system, shed, items } => PlanNode::Dir {
            dst: destination(direction, system, shed),
            items: oriented_all(direction, items),
        },
    }
}

/// Two-sided plans oriented in a direction, in order.
pub open spec fn oriented_all(direction: Direction, nodes: Seq<SideNode>) -> Seq<PlanNode>
    decreases nodes,
{
    if nodes.len() == 0 {
        seq![]
    } else {
        oriented_all(direction, nodes.drop_last()).push(oriented(direction, nodes.last()))
    }
}

/// Both directions plan one two-sided tree: the plan of an item in either
/// direction is its sides oriented in that direction. So wherever putting
/// places a directory at a node's shed side, getting places one at that
/// node's system side, and every copy runs the other way.
pub proof fn lemma_plan_orients_sides(
    direction: Direction,
    system: Seq<char>,
    shed: Seq<char>,
    children: Option<Vec<ChildItem>>,
)
    ensures
        planned(direction, system, shed, children) == oriented(direction, sides(system, shed, children)),
    decreases children,
{
    match children {
        Some(kids) => {
            assert(decreases_to!(children => children->0));
            lemma_plan_children_orient_sides(direction, system, shed, kids@);
        },
        None => {},
    }
}

/// The orientation law for a sequence of children.
pub proof fn lemma_plan_children_orient_sides(
    direction: Direction,
    system: Seq<char>,
    shed: Seq<char>,
    children: Seq<ChildItem>,
)
    ensures
        planned_children(direction, system, shed, children) == oriented_all(
            direction,
            sides_children(system, shed, children),
        ),
    decreases children,
{
    if children.len() > 0 {
        lemma_plan_children_orient_sides(direction, system, shed, children.drop_last());
        lemma_plan_child_orients_sides(direction, system, shed, children.last());
        let nodes = sides_children(system, shed, children);
        assert(nodes.drop_last() =~= sides_children(system, shed, children.drop_last()));
    }
}

/// The orientation law for one child.
pub proof fn lemma_plan_child_orients_sides(
    direction: Direction,
    system: Seq<char>,
    shed: Seq<char>,
    child: ChildItem,
)
    ensures
        planned_child(direction, system, shed, child) == oriented(
            direction,
            sides_child(system, shed, child),
        ),
    decreases child,
{
    match child {
        ChildItem::Path(_) => {},
        ChildItem::Item(item) => {
            lemma_plan_orients_sides(
                direction,
                joined(system, item.path@),
                joined(shed, item_shed(item)),
                item.items,
            );
        },
    }
}

/// The two-sided plans of a manifest's top-level items.
pub open spec fn sides_roots(location: Seq<char>, roots: Seq<RootItem>) -> Seq<SideNode>
    decreases roots.len(),
{
    if roots.len() == 0 {
        seq![]
    } else {
        sides_roots(location, roots.drop_last()).push(
            sides(roots.last().path@, joined(location, roots.last().shed@), roots.last().items),
        )
    }
}

/// The two-sided plans of all manifests' items, manifest by manifest.
pub open spec fn sides_manifests(manifests: Seq<Manifest>) -> Seq<SideNode>
    decreases manifests.len(),
{
    if manifests.len() == 0 {
        seq![]
    } else {
        sides_manifests(manifests.drop_last()) + sides_roots(
            manifests.last().location@,
            manifests.last().file.items@,
        )
    }
}

proof fn lemma_oriented_all_add(direction: Direction, a: Seq<SideNode>, b: Seq<SideNode>)
    ensures
        oriented_all(direction, a + b) == oriented_all(direction, a) + oriented_all(direction, b),
    decreases b.len(),
{
    if b.len() == 0 {
        assert(a + b =~= a);
        assert(oriented_all(direction, a) + oriented_all(direction, b) =~= oriented_all(direction, a));
    } else {
        lemma_oriented_all_add(direction, a, b.drop_last());
        assert((a + b).drop_last() =~= a + b.drop_last());
        assert((a + b).last() == b.last());
        assert(oriented_all(direction, a) + oriented_all(direction, b) =~= (oriented_all(
            direction,
            a,
        ) + oriented_all(direction, b.drop_last())).push(oriented(direction, b.last())));
    }
}

/// The orientation law for the top-level items of a manifest.
pub proof fn lemma_plan_roots_orient_sides(direction: Direction, location: Seq<char>, roots: Seq<RootItem>)
    ensures
        planned_roots(direction, location, roots) == oriented_all(direction, sides_roots(location, roots)),
    decreases roots.len(),
{
    if roots.len() > 0 {
        lemma_plan_roots_orient_sides(direction, location, roots.drop_last());
        let root = roots.last();
        lemma_plan_orients_sides(direction, root.path@, joined(location, root.shed@), root.items);
        assert(sides_roots(location, roots).drop_last() =~= sides_roots(location, roots.drop_last()));
    }
}

/// Whole plans in either direction orient the same two-sided plans: what
/// `Planner::plan` gives for `Put` and for `Get` on the same manifests
/// differs only in orientation.
pub proof fn lemma_plans_orient_sides(direction: Direction, manifests: Seq<Manifest>)
    ensures
        planned_manifests(direction, manifests) == oriented_all(direction, sides_manifests(manifests)),
    decreases manifests.len(),
{
    if manifests.len() > 0 {
        lemma_plans_orient_sides(direction, manifests.drop_last());
        let last = manifests.last();
        lemma_plan_roots_orient_sides(direction, last.location@, last.file.items@);
        lemma_oriented_all_add(
            direction,
            sides_manifests(manifests.drop_last()),
            sides_roots(last.location@, last.file.items@),
        );
    }
}

pub struct Planner {
    pub direction: Direction,
}

impl Planner {
    pub fn new(direction: Direction) -> (planner: Self)
        ensures
            planner.direction == direction,
    {
        Planner { direction }
    }

    /// Converts manifests, already loaded in include order, into planned items.
    pub fn plan(&self, manifests: Vec<Manifest>) -> (items: Vec<Item>)
        ensures
            nodes_of(items@) == planned_manifests(self.direction, manifests@),
    {
        let mut items: Vec<Item> = Vec::new();
        for m in 0..manifests.len()
            invariant
                nodes_of(items@) == planned_manifests(self.direction, manifests@.take(m as int)),
        {
            let manifest = &manifests[m];
            let ghost before = items@;
            for r in 0..manifest.file.items.len()
                invariant
                    manifest == manifests@[m as int],
                    nodes_of(items@) == planned_manifests(self.direction, manifests@.take(m as int))
                        + planned_roots(
                        self.direction,
                        manifest.location@,
                        manifest.file.items@.take(r as int),
                    ),
            {
                let item = self.plan_root(&manifest.location, &manifest.file.items[r]);
                proof {
                    lemma_nodes_of_push(items@, item);
                    assert(manifest.file.items@.take(r + 1).drop_last() =~= manifest.file.items@.take(
                        r as int,
                    ));
                }
                items.push(item);
            }
            proof {
                assert(manifest.file.items@.take(manifest.file.items@.len() as int)
                    =~= manifest.file.items@);
                assert(manifests@.take(m + 1).drop_last() =~= manifests@.take(m as int));
            }
        }
        proof {
            assert(manifests@.take(manifests@.len() as int) =~= manifests@);
        }
        items
    }

    fn plan_root(&self, location: &String, item: &RootItem) -> (planned_item: Item)
        ensures
            node_of(planned_item) == planned_root(self.direction, location@, *item),
    {
        let system = String::from_str(item.path.as_str());
        let shed = join_path(location.as_str(), item.shed.as_str());
        self.plan_item(system, shed, &item.items)
    }

    fn plan_child(&self, system_parent: &String, shed_parent: &String, item: &ChildItem) -> (planned_item:
        Item)
        ensures
            node_of(planned_item) == planned_child(
                self.direction,
                system_parent@,
                shed_parent@,
                *item,
            ),
        decreases *item,
    {
        match item {
            ChildItem::Path(path) => {
                let system = join_path(system_parent.as_str(), path.as_str());
                let shed = join_path(shed_parent.as_str(), path.as_str());
                let (src, dst) = self.endpoints(system, shed);
                Item::Leaf(Leaf { src, dst })
            },
            ChildItem::Item(child) => {
                let shed_suffix = match &child.shed {
                    Some(shed) => shed.as_str(),
                    None => child.path.as_str(),
                };
                let system = join_path(system_parent.as_str(), child.path.as_str());
                let shed = join_path(shed_parent.as_str(), shed_suffix);
                self.plan_item(system, shed, &child.items)
            },
        }
    }

    fn plan_item(&self, system: String, shed: String, children: &Option<Vec<ChildItem>>) -> (planned_item:
        Item)
        ensures
            node_of(planned_item) == planned(self.direction, system@, shed@, *children),
        decreases *children,
    {
        match children {
            Some(kids) => {
                let dst = self.destination(&system, &shed);
                let mut items: Vec<Item> = Vec::new();
                for i in 0..kids.len()
                    invariant
                        *children == Some(*kids),
                        nodes_of(items@) == planned_children(
                            self.direction,
                            system@,
                            shed@,
                            kids@.take(i as int),
                        ),
                {
                    proof {
                        assert(decreases_to!(*children => (*children)->0));
                        assert(decreases_to!(*kids => kids@));
                        assert(decreases_to!(kids@ => kids@[i as int]));
                        assert(decreases_to!(*children => kids@[i as int]));
                    }
                    let item = self.plan_child(&system, &shed, &kids[i]);
                    proof {
                        lemma_nodes_of_push(items@, item);
                        assert(kids@.take(i + 1).drop_last() =~= kids@.take(i as int));
                    }
                    items.push(item);
                }
                proof {
                    assert(kids@.take(kids@.len() as int) =~= kids@);
                }
                Item::Dir(Dir { dst, items })
            },
            None => {
                let (src, dst) = self.endpoints(system, shed);
                Item::Leaf(Leaf { src, dst })
            },
        }
    }

    fn endpoints(&self, system: String, shed: String) -> (pair: (String, String))
        ensures
            pair.0@ == endpoints(self.direction, system@, shed@).0,
            pair.1@ == endpoints(self.direction, system@, shed@).1,
    {
        match self.direction {
            Direction::Put => (system, shed),
            Direction::Get => (shed, system),
        }
    }

    fn destination(&self, system: &String, shed: &String) -> (dst: String)
        ensures
            dst@ == destination(self.direction, system@, shed@),
    {
        match self.direction {
            Direction::Put => shed.clone(),
            Direction::Get => system.clone(),
        }
    }
}

} // verus!
