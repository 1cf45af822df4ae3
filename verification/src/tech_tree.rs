//! The graph of technologies and their prerequisites.
//!
//! The nodes stand in a list and name each other by their places in it. A
//! technology that is named as a prerequisite and is not among the
//! technologies given gets a node without a record: a dangling node.

use vstd::prelude::*;
use crate::data::{Technology, TechnologyView};
use crate::ordered_map::{lemma_ascending_canonical, OrderedMap};
use crate::text::{copy_strings, str_eq, views};

verus! {

/// A node of the graph: a technology, or the name of one that is not known.
#[derive(Debug)]
pub struct Node {
    /// The identifier of the technology; no two nodes of a graph have the
    /// same.
    pub name: String,
    /// The record of the technology; `None` in a dangling node.
    pub data: Option<Technology>,
    pub(crate) prev: Vec<usize>,
    pub(crate) next: Vec<usize>,
}

/// A `Node` by what it holds.
pub struct NodeView {
    pub name: Seq<char>,
    pub data: Option<TechnologyView>,
    /// The places of the prerequisites of this node, in the order in which
    /// the technology names them.
    pub predecessors: Seq<usize>,
    /// The places of the nodes that name this one as a prerequisite.
    pub successors: Seq<usize>,
}

impl View for Node {
    type V = NodeView;

    closed spec fn view(&self) -> NodeView {
        NodeView {
            name: self.name@,
            data: match self.data {
                Some(t) => Some(t@),
                None => None,
            },
            predecessors: self.prev@,
            successors: self.next@,
        }
    }
}

/// The node of a technology that is known by its name only.
pub open spec fn dangling(name: Seq<char>) -> NodeView {
    NodeView { name, data: None, predecessors: Seq::empty(), successors: Seq::empty() }
}

impl Node {
    /// A dangling node for the technology `name`.
    pub fn from_name(name: String) -> (node: Node)
        ensures
            node@ == dangling(name@),
    {
        Node { prev: Vec::new(), next: Vec::new(), name, data: None }
    }

    /// The places of the prerequisites of this node.
    pub fn predecessors(&self) -> (r: &Vec<usize>)
        ensures
            r@ == self@.predecessors,
    {
        &self.prev
    }

    /// The places of the nodes that name this one as a prerequisite.
    pub fn successors(&self) -> (r: &Vec<usize>)
        ensures
            r@ == self@.successors,
    {
        &self.next
    }
}

/// What each node of `nodes` holds.
pub open spec fn node_views(nodes: Seq<Node>) -> Seq<NodeView> {
    Seq::new(nodes.len(), |k: int| nodes[k]@)
}

/// The names of the nodes, in their order.
pub open spec fn names(nodes: Seq<NodeView>) -> Seq<Seq<char>> {
    Seq::new(nodes.len(), |k: int| nodes[k].name)
}

/// Whether a node of `nodes` has the name `name`.
pub open spec fn has_node(nodes: Seq<NodeView>, name: Seq<char>) -> bool {
    names(nodes).contains(name)
}

/// The place of the node with the name `name`; the length of `nodes` where
/// there is none.
pub open spec fn position(nodes: Seq<NodeView>, name: Seq<char>) -> int {
    if has_node(nodes, name) {
        names(nodes).index_of(name)
    } else {
        nodes.len() as int
    }
}

/// `nodes`, with a dangling node for `name` at the end where no node had
/// that name.
pub open spec fn with_node(nodes: Seq<NodeView>, name: Seq<char>) -> Seq<NodeView> {
    if has_node(nodes, name) {
        nodes
    } else {
        nodes.push(dangling(name))
    }
}

/// `node` with `successor` added to its successors.
pub open spec fn followed_by(node: NodeView, successor: int) -> NodeView {
    NodeView {
        name: node.name,
        data: node.data,
        predecessors: node.predecessors,
        successors: node.successors.push(successor as usize),
    }
}

/// `node` with `predecessor` added to its predecessors.
pub open spec fn preceded_by(node: NodeView, predecessor: int) -> NodeView {
    NodeView {
        name: node.name,
        data: node.data,
        predecessors: node.predecessors.push(predecessor as usize),
        successors: node.successors,
    }
}

/// The graph after the node at place `i` was linked to its prerequisite
/// `prerequisite`: the node of that name, made as a dangling node where
/// there was none, has `i` as a successor more, and the node at `i` has it
/// as a predecessor more.
pub open spec fn linked(nodes: Seq<NodeView>, i: int, prerequisite: Seq<char>) -> Seq<NodeView> {
    let grown = with_node(nodes, prerequisite);
    let j = position(grown, prerequisite);
    let forward = grown.update(j, followed_by(grown[j], i));
    forward.update(i, preceded_by(forward[i], j))
}

/// The graph after the node at place `i` was linked to each of
/// `prerequisites`, in their order.
pub open spec fn linked_all(nodes: Seq<NodeView>, i: int, prerequisites: Seq<Seq<char>>) -> Seq<
    NodeView,
>
    decreases prerequisites.len(),
{
    if prerequisites.len() == 0 {
        nodes
    } else {
        linked(linked_all(nodes, i, prerequisites.drop_last()), i, prerequisites.last())
    }
}

/// The prerequisites that the record of `node` names; none for a dangling
/// node.
pub open spec fn prerequisites_of(node: NodeView) -> Seq<Seq<char>> {
    match node.data {
        Some(t) => t.prerequisites,
        None => Seq::empty(),
    }
}

/// The graph after each of the first `count` nodes was linked to its
/// prerequisites, in the order of the nodes.
pub open spec fn resolved_nodes(nodes: Seq<NodeView>, count: int) -> Seq<NodeView>
    decreases count,
{
    if count <= 0 {
        nodes
    } else {
        let before = resolved_nodes(nodes, count - 1);
        linked_all(before, count - 1, prerequisites_of(before[count - 1]))
    }
}

/// One node for each technology, in the order given, not linked yet.
pub open spec fn initial_nodes(technologies: Seq<(Seq<char>, TechnologyView)>) -> Seq<NodeView> {
    Seq::new(
        technologies.len(),
        |k: int|
            NodeView {
                name: technologies[k].0,
                data: Some(technologies[k].1),
                predecessors: Seq::empty(),
                successors: Seq::empty(),
            },
    )
}

/// The graph of `technologies`: one node for each, in the order given, then
/// the dangling nodes in the order in which they were first named, each node
/// linked to its prerequisites.
pub open spec fn graph_of(technologies: Seq<(Seq<char>, TechnologyView)>) -> Seq<NodeView> {
    resolved_nodes(initial_nodes(technologies), technologies.len() as int)
}

/// The places of the nodes whose technology is there from the start.
pub open spec fn start_places(nodes: Seq<NodeView>) -> Seq<usize>
    decreases nodes.len(),
{
    if nodes.len() == 0 {
        Seq::empty()
    } else {
        let front = start_places(nodes.drop_last());
        if nodes.last().data matches Some(t) && t.start_tech {
            front.push((nodes.len() - 1) as usize)
        } else {
            front
        }
    }
}

/// The places of the dangling nodes.
pub open spec fn dangling_places(nodes: Seq<NodeView>) -> Seq<usize>
    decreases nodes.len(),
{
    if nodes.len() == 0 {
        Seq::empty()
    } else {
        let front = dangling_places(nodes.drop_last());
        if nodes.last().data is None {
            front.push((nodes.len() - 1) as usize)
        } else {
            front
        }
    }
}

/// No two nodes have the same name, and the nodes name places of the graph
/// only.
pub open spec fn well_formed(nodes: Seq<NodeView>) -> bool {
    &&& names(nodes).no_duplicates()
    &&& forall|i: int, k: int|
        #![trigger nodes[i].predecessors[k]]
        0 <= i < nodes.len() && 0 <= k < nodes[i].predecessors.len() ==> nodes[i].predecessors[k]
            < nodes.len()
    &&& forall|i: int, k: int|
        #![trigger nodes[i].successors[k]]
        0 <= i < nodes.len() && 0 <= k < nodes[i].successors.len() ==> nodes[i].successors[k]
            < nodes.len()
}

/// Whether `index` gives each node of `nodes` its place by its name.
pub open spec fn indexed(nodes: Seq<NodeView>, index: Map<Seq<char>, usize>) -> bool {
    &&& forall|name: Seq<char>| index.contains_key(name) <==> has_node(nodes, name)
    &&& forall|j: int| 0 <= j < nodes.len() ==> index[#[trigger] names(nodes)[j]] == j
}

/// Where no two nodes have the same name, the place of a name is the place
/// of the node that has it.
pub proof fn lemma_position(nodes: Seq<NodeView>, j: int)
    requires
        names(nodes).no_duplicates(),
        0 <= j < nodes.len(),
    ensures
        has_node(nodes, nodes[j].name),
        position(nodes, nodes[j].name) == j,
{
    assert(names(nodes)[j] == nodes[j].name);
}

/// Links the node at place `i` to the node of its prerequisite.
fn link(nodes: &mut Vec<Node>, index: &mut OrderedMap<usize>, i: usize, prerequisite: &str)
    requires
        i < old(nodes)@.len(),
        well_formed(node_views(old(nodes)@)),
        indexed(node_views(old(nodes)@), old(index)@),
    ensures
        node_views(final(nodes)@) == linked(node_views(old(nodes)@), i as int, prerequisite@),
        well_formed(node_views(final(nodes)@)),
        indexed(node_views(final(nodes)@), final(index)@),
        final(nodes)@.len() >= old(nodes)@.len(),
        forall|k: int|
            0 <= k < old(nodes)@.len() ==> (#[trigger] final(nodes)@[k]).data == old(nodes)@[k].data,
{
    let ghost before = node_views(nodes@);
    let ghost grown = with_node(before, prerequisite@);
    let j = match index.get(prerequisite) {
        Some(place) => {
            let j = *place;
            proof {
            }
            j
        },
        None => {
            let j = nodes.len();
            nodes.push(Node::from_name(prerequisite.to_owned()));
            index.insert(prerequisite.to_owned(), j);
            proof {
                assert(names(grown) =~= names(before).push(prerequisite@));
                assert(names(grown)[j as int] == prerequisite@);
                assert forall|name: Seq<char>| index@.contains_key(name) <==> has_node(
                    grown,
                    name,
                ) by {
                    if has_node(before, name) {
                        let a = names(before).index_of(name);
                        assert(names(grown)[a] == name);
                    }
                    if has_node(grown, name) && name != prerequisite@ {
                    }
                }
            }
            j
        },
    };
    nodes[j].next.push(i);
    nodes[i].prev.push(j);
    proof {
        let after = node_views(nodes@);
        assert(after =~= linked(before, i as int, prerequisite@));
        assert(names(after) =~= names(grown));
        assert forall|name: Seq<char>| index@.contains_key(name) <==> has_node(after, name) by {
            assert(has_node(after, name) == has_node(grown, name));
        }
    }
}

/// Links the node at place `i` to the node of each of its prerequisites.
fn link_all(nodes: &mut Vec<Node>, index: &mut OrderedMap<usize>, i: usize)
    requires
        i < old(nodes)@.len(),
        well_formed(node_views(old(nodes)@)),
        indexed(node_views(old(nodes)@), old(index)@),
    ensures
        node_views(final(nodes)@) == linked_all(
            node_views(old(nodes)@),
            i as int,
            prerequisites_of(node_views(old(nodes)@)[i as int]),
        ),
        well_formed(node_views(final(nodes)@)),
        indexed(node_views(final(nodes)@), final(index)@),
        final(nodes)@.len() >= old(nodes)@.len(),
        forall|k: int|
            0 <= k < old(nodes)@.len() ==> (#[trigger] final(nodes)@[k]).data == old(nodes)@[k].data,
{
    let ghost before = node_views(nodes@);
    let ghost first = nodes@;
    let prerequisites = match &nodes[i].data {
        Some(t) => copy_strings(&t.prerequisites),
        None => Vec::new(),
    };
    let ghost list = views(prerequisites@);
    let mut k: usize = 0;
    while k < prerequisites.len()
        invariant
            k <= prerequisites@.len(),
            list == views(prerequisites@),
            i < first.len() <= nodes@.len(),
            node_views(nodes@) == linked_all(before, i as int, list.take(k as int)),
            well_formed(node_views(nodes@)),
            indexed(node_views(nodes@), index@),
            forall|j: int| 0 <= j < first.len() ==> (#[trigger] nodes@[j]).data == first[j].data,
        decreases prerequisites@.len() - k,
    {
        assert(list.take(k + 1).drop_last() =~= list.take(k as int));
        link(nodes, index, i, prerequisites[k].as_str());
        k += 1;
    }
    assert(list.take(list.len() as int) =~= list);
}

/// The places of the nodes that are there from the start, and those of the
/// dangling nodes.
fn places(nodes: &Vec<Node>) -> (r: (Vec<usize>, Vec<usize>))
    ensures
        r.0@ == start_places(node_views(nodes@)),
        r.1@ == dangling_places(node_views(nodes@)),
{
    let mut start: Vec<usize> = Vec::new();
    let mut dangling: Vec<usize> = Vec::new();
    let ghost all = node_views(nodes@);
    let mut k: usize = 0;
    while k < nodes.len()
        invariant
            k <= nodes@.len(),
            all == node_views(nodes@),
            start@ == start_places(all.take(k as int)),
            dangling@ == dangling_places(all.take(k as int)),
        decreases nodes@.len() - k,
    {
        assert(all.take(k + 1).drop_last() =~= all.take(k as int));
        match &nodes[k].data {
            Some(t) => {
                if t.start_tech {
                    start.push(k);
                }
            },
            None => {
                dangling.push(k);
            },
        }
        k += 1;
    }
    assert(all.take(all.len() as int) =~= all);
    (start, dangling)
}

/// The technologies and their prerequisites as a graph.
#[derive(Debug)]
pub struct TechnologyTree {
    start_tech: Vec<usize>,
    dangling_tech: Vec<usize>,
    nodes: Vec<Node>,
    node_map: OrderedMap<usize>,
}

impl View for TechnologyTree {
    type V = Seq<NodeView>;

    closed spec fn view(&self) -> Seq<NodeView> {
        node_views(self.nodes@)
    }
}

impl TechnologyTree {
    #[verifier::type_invariant]
    spec fn consistent(&self) -> bool {
        &&& well_formed(node_views(self.nodes@))
        &&& indexed(node_views(self.nodes@), self.node_map@)
        &&& self.start_tech@ == start_places(node_views(self.nodes@))
        &&& self.dangling_tech@ == dangling_places(node_views(self.nodes@))
    }

    /// A graph without nodes.
    pub fn new() -> (tree: Self)
        ensures
            tree@ == Seq::<NodeView>::empty(),
    {
        let nodes: Vec<Node> = Vec::new();
        let node_map: OrderedMap<usize> = OrderedMap::new();
        TechnologyTree { start_tech: Vec::new(), dangling_tech: Vec::new(), nodes, node_map }
    }

    /// The number of nodes.
    pub fn len(&self) -> (n: usize)
        ensures
            n == self@.len(),
            well_formed(self@),
    {
        proof {
            use_type_invariant(self);
        }
        self.nodes.len()
    }

    /// The node at `place`, if the graph has that many nodes.
    pub fn node(&self, place: usize) -> (r: Option<&Node>)
        ensures
            r is Some == (place < self@.len()),
            r matches Some(node) ==> node@ == self@[place as int],
    {
        if place < self.nodes.len() {
            Some(&self.nodes[place])
        } else {
            None
        }
    }

    /// The places of the nodes whose technology is there from the start, in
    /// ascending order.
    pub fn start_tech(&self) -> (r: &Vec<usize>)
        ensures
            r@ == start_places(self@),
    {
        proof {
            use_type_invariant(self);
        }
        &self.start_tech
    }

    /// The places of the dangling nodes, in ascending order.
    pub fn dangling_tech(&self) -> (r: &Vec<usize>)
        ensures
            r@ == dangling_places(self@),
    {
        proof {
            use_type_invariant(self);
        }
        &self.dangling_tech
    }

    /// The place of the node with the name `name`, if there is one.
    pub fn place_of(&self, name: &str) -> (r: Option<usize>)
        ensures
            r is Some == has_node(self@, name@),
            r matches Some(j) ==> j < self@.len() && self@[j as int].name == name@ && j
                == position(self@, name@),
    {
        proof {
            use_type_invariant(self);
        }
        match self.node_map.get(name) {
            Some(place) => {
                proof {
                    assert(has_node(self@, name@));
                }
                Some(*place)
            },
            None => None,
        }
    }

    /// Makes this the graph of `tech_map`: one node for each technology, in
    /// the order of their keys, each linked to the nodes of its
    /// prerequisites, and after them a dangling node for each prerequisite
    /// that is no key of `tech_map`, in the order in which they are first
    /// named. What the graph held before is dropped.
    pub fn insert_map(&mut self, tech_map: &OrderedMap<Technology>)
        ensures
            final(self)@ == graph_of(tech_map.entries()),
            is_graph_of(final(self)@, tech_map.entries()),
    {
        let n = tech_map.len();
        let ghost technologies = tech_map.entries();
        let ghost initial = initial_nodes(technologies);
        let mut nodes: Vec<Node> = Vec::new();
        let mut index: OrderedMap<usize> = OrderedMap::new();
        let mut i: usize = 0;
        while i < n
            invariant
                i <= n,
                n == technologies.len(),
                technologies == tech_map.entries(),
                tech_map.wf(),
                initial == initial_nodes(technologies),
                nodes@.len() == i,
                node_views(nodes@) == initial.take(i as int),
                forall|name: Seq<char>|
                    index@.contains_key(name) <==> has_node(node_views(nodes@), name),
                forall|j: int|
                    0 <= j < i ==> index@[#[trigger] names(node_views(nodes@))[j]] == j,
            decreases n - i,
        {
            let ghost before = node_views(nodes@);
            let name = tech_map.key_at(i).clone();
            let key = tech_map.key_at(i).clone();
            let data = tech_map.value_at(i).duplicate();
            nodes.push(Node { name, data: Some(data), prev: Vec::new(), next: Vec::new() });
            index.insert(key, i);
            proof {
                let after = node_views(nodes@);
                assert(names(after) =~= names(before).push(technologies[i as int].0));
                assert forall|other: Seq<char>| index@.contains_key(other) <==> has_node(
                    after,
                    other,
                ) by {
                    if has_node(before, other) {
                        let a = names(before).index_of(other);
                        assert(names(after)[a] == other);
                    }
                    if has_node(after, other) && other != technologies[i as int].0 {
                        let a = names(after).index_of(other);
                    }
                    if other == technologies[i as int].0 {
                        assert(names(after)[i as int] == other);
                    }
                }
            }
            i += 1;
        }
        proof {
        }
        let mut i: usize = 0;
        while i < n
            invariant
                i <= n <= nodes@.len(),
                n == technologies.len(),
                crate::ordered_map::ascending(technologies),
                initial == initial_nodes(technologies),
                node_views(nodes@) == resolved_nodes(initial, i as int),
                well_formed(node_views(nodes@)),
                indexed(node_views(nodes@), index@),
            decreases n - i,
        {
            link_all(&mut nodes, &mut index, i);
            i += 1;
        }
        let (start_tech, dangling_tech) = places(&nodes);
        proof {
            assert(node_views(nodes@).len() == nodes.len());
            lemma_graph_shape(technologies);
        }
        *self = TechnologyTree { start_tech, dangling_tech, nodes, node_map: index };
    }
}

/// Whether the node at place `target` is among the successors of `node`.
pub open spec fn has_successor(node: NodeView, target: int) -> bool {
    exists|a: int| 0 <= a < node.successors.len() && (#[trigger] node.successors[a]) as int == target
}

/// Whether `path` leads through the graph from successor to successor.
pub open spec fn is_path(nodes: Seq<NodeView>, path: Seq<int>) -> bool {
    &&& path.len() > 0
    &&& forall|k: int| 0 <= k < path.len() ==> 0 <= #[trigger] path[k] < nodes.len()
    &&& forall|k: int|
        0 <= k < path.len() - 1 ==> has_successor(nodes[#[trigger] path[k]], path[k + 1])
}

/// Whether the node at `target` can be reached from the node at `root` by
/// going from a node to one of its successors, any number of times.
pub open spec fn reachable(nodes: Seq<NodeView>, root: int, target: int) -> bool {
    exists|path: Seq<int>| #[trigger]
        is_path(nodes, path) && path[0] == root && path.last() == target
}

/// How many nodes are not marked.
pub open spec fn unmarked(marks: Seq<bool>) -> nat
    decreases marks.len(),
{
    if marks.len() == 0 {
        0
    } else {
        unmarked(marks.drop_last()) + if marks.last() {
            0nat
        } else {
            1nat
        }
    }
}

proof fn lemma_mark(marks: Seq<bool>, j: int)
    requires
        0 <= j < marks.len(),
        !marks[j],
    ensures
        unmarked(marks.update(j, true)) == unmarked(marks) - 1,
    decreases marks.len(),
{
    let after = marks.update(j, true);
    if j == marks.len() - 1 {
        assert(after.drop_last() =~= marks.drop_last());
    } else {
        lemma_mark(marks.drop_last(), j);
        assert(after.drop_last() =~= marks.drop_last().update(j, true));
    }
}

/// Whether every successor of the node at `u` is marked.
pub open spec fn successors_marked(nodes: Seq<NodeView>, marks: Seq<bool>, u: int) -> bool {
    forall|k: int|
        0 <= k < nodes[u].successors.len() ==> marks[(#[trigger] nodes[u].successors[k]) as int]
}

/// A set of marks that holds the root and, with each node, its successors
/// holds every node that can be reached from the root.
proof fn lemma_closed_marks(nodes: Seq<NodeView>, marks: Seq<bool>, path: Seq<int>)
    requires
        well_formed(nodes),
        marks.len() == nodes.len(),
        is_path(nodes, path),
        marks[path[0]],
        forall|u: int| 0 <= u < nodes.len() && marks[u] ==> #[trigger] successors_marked(nodes, marks, u),
    ensures
        marks[path.last()],
    decreases path.len(),
{
    if path.len() > 1 {
        let front = path.drop_last();
        lemma_closed_marks(nodes, marks, front);
        let u = path[path.len() - 2];
        assert(successors_marked(nodes, marks, u));
    }
}

/// A path that is made one step longer.
proof fn lemma_extend_path(nodes: Seq<NodeView>, path: Seq<int>, k: int)
    requires
        well_formed(nodes),
        is_path(nodes, path),
        0 <= k < nodes[path.last()].successors.len(),
    ensures
        is_path(nodes, path.push(nodes[path.last()].successors[k] as int)),
{
}

/// Marks the nodes that can be reached from the node at `root`.
fn reach(nodes: &Vec<Node>, root: usize) -> (marks: Vec<bool>)
    requires
        root < nodes@.len(),
        well_formed(node_views(nodes@)),
    ensures
        marks@.len() == nodes@.len(),
        forall|j: int|
            0 <= j < nodes@.len() ==> (#[trigger] marks@[j] <==> reachable(
                node_views(nodes@),
                root as int,
                j,
            )),
{
    let ghost graph = node_views(nodes@);
    let n = nodes.len();
    let mut marks: Vec<bool> = Vec::new();
    while marks.len() < n
        invariant
            marks@.len() <= n,
            forall|j: int| 0 <= j < marks@.len() ==> !(#[trigger] marks@[j]),
        decreases n - marks@.len(),
    {
        marks.push(false);
    }
    let mut stack: Vec<usize> = Vec::new();
    marks.set(root, true);
    stack.push(root);
    proof {
        let start = seq![root as int];
        assert(is_path(graph, start));
        assert(stack@[0] == root);
    }
    while stack.len() > 0
        invariant
            n == nodes@.len(),
            graph == node_views(nodes@),
            well_formed(graph),
            marks@.len() == n,
            root < n,
            marks@[root as int],
            forall|k: int|
                0 <= k < stack@.len() ==> (#[trigger] stack@[k]) < n && marks@[stack@[k] as int],
            forall|j: int| 0 <= j < n && #[trigger] marks@[j] ==> reachable(graph, root as int, j),
            forall|u: int|
                0 <= u < n && marks@[u] && !stack@.contains(u as usize)
                    ==> #[trigger] successors_marked(graph, marks@, u),
        decreases 2 * unmarked(marks@) + stack@.len(),
    {
        let ghost stack_before = stack@;
        let u = stack.pop().unwrap();
        assert(stack_before =~= stack@.push(u));
        let ghost marks_at_pop = marks@;
        let m = nodes[u].next.len();
        let mut k: usize = 0;
        while k < m
            invariant
                k <= m,
                u < n,
                n == nodes@.len(),
                graph == node_views(nodes@),
                well_formed(graph),
                m == graph[u as int].successors.len(),
                graph[u as int].successors == nodes@[u as int].next@,
                marks@.len() == n,
                marks@[root as int],
                root < n,
                marks@[u as int],
                forall|j: int|
                    0 <= j < stack@.len() ==> (#[trigger] stack@[j]) < n && marks@[stack@[j] as int],
                forall|j: int|
                    0 <= j < n && #[trigger] marks@[j] ==> reachable(graph, root as int, j),
                forall|w: int|
                    0 <= w < n && marks@[w] && !stack@.contains(w as usize) && w != u
                        ==> #[trigger] successors_marked(graph, marks@, w),
                forall|a: int|
                    0 <= a < k ==> marks@[(#[trigger] graph[u as int].successors[a]) as int],
                2 * unmarked(marks@) + stack@.len() + 1 <= 2 * unmarked(marks_at_pop)
                    + stack_before.len(),
            decreases m - k,
        {
            let v = nodes[u].next[k];
            if !marks[v] {
                let ghost marks_before = marks@;
                let ghost stack_was = stack@;
                proof {
                    lemma_mark(marks@, v as int);
                    let path = choose|path: Seq<int>| #[trigger]
                        is_path(graph, path) && path[0] == root && path.last() == u;
                    lemma_extend_path(graph, path, k as int);
                }
                marks.set(v, true);
                stack.push(v);
                proof {
                    assert forall|w: int|
                        0 <= w < n && marks@[w] && !stack@.contains(w as usize) && w
                            != u implies #[trigger] successors_marked(graph, marks@, w) by {
                        assert(stack@[stack@.len() - 1] == v);
                        if stack_was.contains(w as usize) {
                            let a = choose|a: int|
                                0 <= a < stack_was.len() && stack_was[a] == w as usize;
                            assert(stack@[a] == w as usize);
                        }
                        assert(successors_marked(graph, marks_before, w));
                    }
                }
            }
            k += 1;
        }
    }
    proof {
        assert forall|j: int| 0 <= j < n && reachable(graph, root as int, j) implies marks@[j] by {
            let path = choose|path: Seq<int>| #[trigger]
                is_path(graph, path) && path[0] == root && path.last() == j;
            assert forall|u: int| 0 <= u < n && marks@[u] implies #[trigger] successors_marked(
                graph,
                marks@,
                u,
            ) by {}
            lemma_closed_marks(graph, marks@, path);
        }
    }
    marks
}

/// Whether the node at `place` can be reached from `root` and holds the
/// record of a technology with the identifier `id`.
pub open spec fn is_match(nodes: Seq<NodeView>, root: int, id: Seq<char>, place: int) -> bool {
    &&& 0 <= place < nodes.len()
    &&& reachable(nodes, root, place)
    &&& nodes[place].data matches Some(t)
    &&& t.id == id
}

impl TechnologyTree {
    /// Links the node at `place` to the node of each prerequisite that its
    /// record names, in their order. A prerequisite that has no node gets a
    /// dangling one at the end of the graph. A dangling node names no
    /// prerequisite, so for one the graph stays as it is, as it does where
    /// the graph has no node at `place`.
    pub fn insert_node(&mut self, place: usize)
        ensures
            place < old(self)@.len() ==> final(self)@ == linked_all(
                old(self)@,
                place as int,
                prerequisites_of(old(self)@[place as int]),
            ),
            place >= old(self)@.len() ==> final(self)@ == old(self)@,
            well_formed(final(self)@),
    {
        proof {
            use_type_invariant(&*self);
        }
        if place >= self.nodes.len() {
            return ;
        }
        let mut taken = TechnologyTree::new();
        std::mem::swap(self, &mut taken);
        let TechnologyTree { start_tech: _, dangling_tech: _, nodes, node_map } = taken;
        let mut nodes = nodes;
        let mut index = node_map;
        link_all(&mut nodes, &mut index, place);
        let (start_tech, dangling_tech) = places(&nodes);
        *self = TechnologyTree { start_tech, dangling_tech, nodes, node_map: index };
    }

    /// Which nodes can be reached from the node at `root`: the node itself,
    /// its successors, theirs, and so on. None where the graph has no node at
    /// `root`.
    pub fn reachable_from(&self, root: usize) -> (marks: Vec<bool>)
        ensures
            marks@.len() == self@.len(),
            forall|j: int|
                0 <= j < self@.len() ==> (#[trigger] marks@[j] <==> reachable(self@, root as int, j)),
    {
        proof {
            use_type_invariant(self);
        }
        if root < self.nodes.len() {
            reach(&self.nodes, root)
        } else {
            let mut marks: Vec<bool> = Vec::new();
            while marks.len() < self.nodes.len()
                invariant
                    marks@.len() <= self.nodes@.len(),
                    forall|j: int| 0 <= j < marks@.len() ==> !(#[trigger] marks@[j]),
                decreases self.nodes@.len() - marks@.len(),
            {
                marks.push(false);
            }
            marks
        }
    }

    /// The place of the node named `id`, if it can be reached from the node
    /// at `root`. Every node is looked at once at most, so the search ends
    /// on a graph with cycles too.
    pub fn find_by_id(&self, root: usize, id: &str) -> (r: Option<usize>)
        ensures
            r matches Some(j) ==> j < self@.len() && self@[j as int].name == id@ && reachable(
                self@,
                root as int,
                j as int,
            ),
            r is None ==> forall|j: int|
                0 <= j < self@.len() && reachable(self@, root as int, j) ==> (
                #[trigger] self@[j]).name != id@,
    {
        proof {
            use_type_invariant(self);
        }
        match self.place_of(id) {
            Some(j) => {
                let marks = self.reachable_from(root);
                if marks[j] {
                    Some(j)
                } else {
                    proof {
                        assert forall|k: int|
                            0 <= k < self@.len() && reachable(
                                self@,
                                root as int,
                                k,
                            ) implies (#[trigger] self@[k]).name != id@ by {
                            if self@[k].name == id@ {
                                lemma_position(self@, k);
                            }
                        }
                    }
                    None
                }
            },
            None => {
                proof {
                    assert forall|k: int| 0 <= k < self@.len() implies (#[trigger] self@[k]).name
                        != id@ by {
                        assert(names(self@)[k] == self@[k].name);
                    }
                }
                None
            },
        }
    }

    /// The first place, in the order of the graph, of a node that can be
    /// reached from the node at `root` and holds the record of `tech`: a
    /// record with the identifier of `tech`.
    pub fn find(&self, root: usize, tech: &Technology) -> (r: Option<usize>)
        ensures
            r matches Some(j) ==> is_match(self@, root as int, tech@.id, j as int) && forall|k: int|
                0 <= k < j ==> !is_match(self@, root as int, tech@.id, k),
            r is None ==> forall|k: int| !is_match(self@, root as int, tech@.id, k),
    {
        let marks = self.reachable_from(root);
        let n = self.nodes.len();
        let mut j: usize = 0;
        while j < n
            invariant
                j <= n,
                n == self@.len(),
                marks@.len() == n,
                forall|k: int|
                    0 <= k < n ==> (#[trigger] marks@[k] <==> reachable(self@, root as int, k)),
                forall|k: int| 0 <= k < j ==> !is_match(self@, root as int, tech@.id, k),
            decreases n - j,
        {
            if marks[j] {
                match &self.nodes[j].data {
                    Some(t) => {
                        if str_eq(t.id.as_str(), tech.id.as_str()) {
                            return Some(j);
                        }
                    },
                    None => {},
                }
            }
            j += 1;
        }
        None
    }
}

impl Default for TechnologyTree {
    fn default() -> (tree: Self)
        ensures
            tree@ == Seq::<NodeView>::empty(),
    {
        TechnologyTree::new()
    }
}

/// Whether the node at place `target` is among the predecessors of `node`.
pub open spec fn has_predecessor(node: NodeView, target: int) -> bool {
    exists|a: int|
        0 <= a < node.predecessors.len() && (#[trigger] node.predecessors[a]) as int == target
}

/// Whether the first `count` technologies are linked to all their
/// prerequisites, the next one to its first `partial` ones, and the others
/// to none yet.
pub open spec fn linked_up_to(
    nodes: Seq<NodeView>,
    technologies: Seq<(Seq<char>, TechnologyView)>,
    count: int,
    partial: int,
) -> bool {
    let n = technologies.len();
    &&& well_formed(nodes)
    &&& n <= nodes.len() <= usize::MAX
    &&& forall|i: int|
        0 <= i < n ==> (#[trigger] nodes[i]).name == technologies[i].0 && nodes[i].data == Some(
            technologies[i].1,
        )
    &&& forall|j: int|
        n <= j < nodes.len() ==> (#[trigger] nodes[j]).data is None && nodes[j].predecessors.len()
            == 0 && nodes[j].successors.len() > 0
    &&& forall|i: int|
        0 <= i < n ==> (#[trigger] nodes[i]).predecessors.len() == if i < count {
            technologies[i].1.prerequisites.len()
        } else if i == count {
            partial as nat
        } else {
            0nat
        }
    &&& forall|i: int, m: int|
        0 <= i < n && 0 <= m < nodes[i].predecessors.len() ==> nodes[(
        #[trigger] nodes[i].predecessors[m]) as int].name == technologies[i].1.prerequisites[m]
            && has_successor(nodes[nodes[i].predecessors[m] as int], i)
    &&& forall|j: int, a: int|
        0 <= j < nodes.len() && 0 <= a < nodes[j].successors.len() ==> (
        #[trigger] nodes[j].successors[a]) < n && has_predecessor(
            nodes[nodes[j].successors[a] as int],
            j,
        )
}

/// What the graph of `technologies` looks like.
///
/// The nodes have different names, and the places that they name are places
/// of the graph. The technologies come first, in their order, each with its
/// record; the nodes after them are dangling: they have no record and no
/// predecessor, and at least one successor. A technology has one
/// predecessor for each of its prerequisites, in their order: the node of
/// that name, which has the technology among its successors. Every
/// successor of a node is a technology that has the node among its
/// predecessors.
pub open spec fn is_graph_of(
    nodes: Seq<NodeView>,
    technologies: Seq<(Seq<char>, TechnologyView)>,
) -> bool {
    linked_up_to(nodes, technologies, technologies.len() as int, 0)
}

/// What linking one node to one prerequisite changes, and what it leaves
/// as it was.
proof fn lemma_linked(nodes: Seq<NodeView>, c: int, p: Seq<char>)
    requires
        well_formed(nodes),
        0 <= c < nodes.len(),
        linked(nodes, c, p).len() <= usize::MAX,
    ensures
        ({
            let after = linked(nodes, c, p);
            let j = position(with_node(nodes, p), p);
            &&& well_formed(after)
            &&& nodes.len() <= after.len() <= nodes.len() + 1
            &&& 0 <= j < after.len()
            &&& after[j].name == p
            &&& after.len() > nodes.len() ==> j == nodes.len() && after[j].data is None
                && after[j].predecessors.len() == 0 && after[j].successors == seq![c as usize]
            &&& j < nodes.len() ==> after[j].successors == nodes[j].successors.push(c as usize)
            &&& after[c].predecessors == nodes[c].predecessors.push(j as usize)
            &&& forall|i: int|
                0 <= i < nodes.len() ==> (#[trigger] after[i]).name == nodes[i].name
                    && after[i].data == nodes[i].data
            &&& forall|i: int|
                0 <= i < nodes.len() && i != c ==> (#[trigger] after[i]).predecessors
                    == nodes[i].predecessors
            &&& forall|i: int|
                0 <= i < nodes.len() && i != j ==> (#[trigger] after[i]).successors
                    == nodes[i].successors
        }),
{
    let grown = with_node(nodes, p);
    let after = linked(nodes, c, p);
    if !has_node(nodes, p) {
        assert(names(grown) =~= names(nodes).push(p));
        assert(names(grown)[nodes.len() as int] == p);
    }
    assert(names(after) =~= names(grown));
}

/// Linking one more prerequisite keeps the graph in shape.
proof fn lemma_link_step(
    nodes: Seq<NodeView>,
    technologies: Seq<(Seq<char>, TechnologyView)>,
    c: int,
    k: int,
)
    requires
        linked_up_to(nodes, technologies, c, k),
        0 <= c < technologies.len(),
        0 <= k < technologies[c].1.prerequisites.len(),
        linked(nodes, c, technologies[c].1.prerequisites[k]).len() <= usize::MAX,
    ensures
        linked_up_to(
            linked(nodes, c, technologies[c].1.prerequisites[k]),
            technologies,
            c,
            k + 1,
        ),
{
    let n = technologies.len();
    let p = technologies[c].1.prerequisites[k];
    let after = linked(nodes, c, p);
    let j = position(with_node(nodes, p), p);
    lemma_linked(nodes, c, p);
    assert forall|i: int, m: int|
        0 <= i < n && 0 <= m < after[i].predecessors.len() implies after[(
    #[trigger] after[i].predecessors[m]) as int].name == technologies[i].1.prerequisites[m]
        && has_successor(after[after[i].predecessors[m] as int], i) by {
        if i == c && m == k {
            let last = after[j].successors.len() - 1;
            assert(after[j].successors[last] as int == c);
        } else {
            let t = nodes[i].predecessors[m] as int;
            let a = choose|a: int|
                0 <= a < nodes[t].successors.len() && (#[trigger] nodes[t].successors[a]) as int
                    == i;
            assert(after[t].successors[a] as int == i);
        }
    }
    assert forall|x: int, a: int|
        0 <= x < after.len() && 0 <= a < after[x].successors.len() implies (
    #[trigger] after[x].successors[a]) < n && has_predecessor(
        after[after[x].successors[a] as int],
        x,
    ) by {
        if x == j && a == after[x].successors.len() - 1 {
            let last = after[c].predecessors.len() - 1;
            assert(after[c].predecessors[last] as int == j);
        } else {
            let t = nodes[x].successors[a] as int;
            let b = choose|b: int|
                0 <= b < nodes[t].predecessors.len() && (#[trigger] nodes[t].predecessors[b]) as int
                    == x;
            assert(after[t].predecessors[b] as int == x);
        }
    }
}

/// Linking a node never takes a node away.
proof fn lemma_linked_grows(nodes: Seq<NodeView>, c: int, p: Seq<char>)
    requires
        0 <= c < nodes.len(),
    ensures
        linked(nodes, c, p).len() >= nodes.len(),
{
    let grown = with_node(nodes, p);
    if !has_node(nodes, p) {
        assert(names(grown)[nodes.len() as int] == p);
    }
}

/// Linking the first `k` prerequisites of a technology keeps the graph in
/// shape.
proof fn lemma_link_all(
    nodes: Seq<NodeView>,
    technologies: Seq<(Seq<char>, TechnologyView)>,
    c: int,
    k: int,
)
    requires
        linked_up_to(nodes, technologies, c, 0),
        0 <= c < technologies.len(),
        0 <= k <= technologies[c].1.prerequisites.len(),
        linked_all(nodes, c, technologies[c].1.prerequisites.take(k)).len() <= usize::MAX,
    ensures
        linked_up_to(
            linked_all(nodes, c, technologies[c].1.prerequisites.take(k)),
            technologies,
            c,
            k,
        ),
    decreases k,
{
    let all = technologies[c].1.prerequisites;
    if k > 0 {
        assert(all.take(k).drop_last() =~= all.take(k - 1));
        let before = linked_all(nodes, c, all.take(k - 1));
        lemma_link_all_size(nodes, c, all.take(k - 1));
        lemma_linked_grows(before, c, all[k - 1]);
        lemma_link_all(nodes, technologies, c, k - 1);
        lemma_link_step(before, technologies, c, k - 1);
    }
}

/// Linking a node to its prerequisites never takes a node away.
proof fn lemma_link_all_size(nodes: Seq<NodeView>, c: int, prerequisites: Seq<Seq<char>>)
    requires
        0 <= c < nodes.len(),
    ensures
        linked_all(nodes, c, prerequisites).len() >= nodes.len(),
    decreases prerequisites.len(),
{
    if prerequisites.len() > 0 {
        lemma_link_all_size(nodes, c, prerequisites.drop_last());
        lemma_linked_grows(linked_all(nodes, c, prerequisites.drop_last()), c, prerequisites.last());
    }
}

/// Linking the first `count` technologies never takes a node away.
proof fn lemma_resolved_size(nodes: Seq<NodeView>, count: int)
    requires
        0 <= count <= nodes.len(),
    ensures
        resolved_nodes(nodes, count).len() >= nodes.len(),
    decreases count,
{
    if count > 0 {
        lemma_resolved_size(nodes, count - 1);
        let before = resolved_nodes(nodes, count - 1);
        lemma_link_all_size(before, count - 1, prerequisites_of(before[count - 1]));
    }
}

/// Linking the first `count` technologies keeps the graph in shape.
proof fn lemma_resolved_shape(technologies: Seq<(Seq<char>, TechnologyView)>, count: int)
    requires
        crate::ordered_map::ascending(technologies),
        0 <= count <= technologies.len(),
        resolved_nodes(initial_nodes(technologies), count).len() <= usize::MAX,
    ensures
        linked_up_to(
            resolved_nodes(initial_nodes(technologies), count),
            technologies,
            count,
            0,
        ),
    decreases count,
{
    let initial = initial_nodes(technologies);
    if count > 0 {
        let before = resolved_nodes(initial, count - 1);
        lemma_resolved_size(initial, count - 1);
        let all = prerequisites_of(before[count - 1]);
        lemma_link_all_size(before, count - 1, all);
        lemma_resolved_shape(technologies, count - 1);
        assert(all.take(all.len() as int) =~= all);
        lemma_link_all(before, technologies, count - 1, all.len() as int);
    }
}

/// The graph of technologies with different keys has the shape that
/// `is_graph_of` describes: every technology has its node, every
/// prerequisite that is no technology has a dangling node, and the nodes
/// are linked both ways.
pub proof fn lemma_graph_shape(technologies: Seq<(Seq<char>, TechnologyView)>)
    requires
        crate::ordered_map::ascending(technologies),
        graph_of(technologies).len() <= usize::MAX,
    ensures
        is_graph_of(graph_of(technologies), technologies),
{
    lemma_resolved_shape(technologies, technologies.len() as int);
}

/// Whether `name` is the key of one of `technologies`.
pub open spec fn is_technology(technologies: Seq<(Seq<char>, TechnologyView)>, name: Seq<char>) -> bool {
    exists|i: int| 0 <= i < technologies.len() && (#[trigger] technologies[i]).0 == name
}

/// Where a technology names a prerequisite that is no
/// technology, the graph has a node of that name without a record, the
/// technology has it as the predecessor at the place of the prerequisite,
/// and it has the technology among its successors.
pub proof fn lemma_dangling_synthesis(
    technologies: Seq<(Seq<char>, TechnologyView)>,
    i: int,
    k: int,
)
    requires
        crate::ordered_map::ascending(technologies),
        graph_of(technologies).len() <= usize::MAX,
        0 <= i < technologies.len(),
        0 <= k < technologies[i].1.prerequisites.len(),
        !is_technology(technologies, technologies[i].1.prerequisites[k]),
    ensures
        ({
            let graph = graph_of(technologies);
            let j = graph[i].predecessors[k] as int;
            &&& k < graph[i].predecessors.len()
            &&& 0 <= j < graph.len()
            &&& graph[j].name == technologies[i].1.prerequisites[k]
            &&& graph[j].data is None
            &&& has_successor(graph[j], i)
        }),
{
    lemma_graph_shape(technologies);
}

/// Two maps that hold the same technologies give the same
/// graph, whatever the order in which the maps were filled.
pub proof fn lemma_graph_determined(a: OrderedMap<Technology>, b: OrderedMap<Technology>)
    requires
        a.wf(),
        b.wf(),
        a@ == b@,
    ensures
        graph_of(a.entries()) == graph_of(b.entries()),
{
    lemma_ascending_canonical(a.entries(), b.entries());
}

} // verus!
