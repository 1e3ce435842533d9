//! The order in which the display draws the logical nodes: sources before
//! what they feed, as far as the links allow.
use super::graph::{lemma_index_of_id, Graph, GraphView};
use super::id::Id;
use super::node::Position;
use crate::keyed::views;
use crate::order::{
    bounded_graph, closed_graph, depth_first_order, graph_of, has_edge, is_depth_first_order,
    is_path, is_sorted_but_for_cycles, lemma_depth_first_order_is_sorted,
    lemma_depth_first_order_is_unique, reaches,
};
use vstd::prelude::*;

verus! {

/// How far to the right of the node drawn before it a node without a
/// position is put.
pub const SEED_DX: i32 = 75;

/// How far above or below the node drawn before it a node without a position
/// is put.
pub const SEED_DY: i32 = 150;

/// Where to draw a node.
#[derive(Debug, Clone, Copy, PartialEq, Eq, Structural)]
pub enum Origin {
    /// Where the display put it last.
    Cached(Position),
    /// This far from the node drawn before it, or from where the display
    /// starts if it is the first.
    Seeded { dx: i32, dy: i32 },
}

/// A logical node and where to draw it.
#[derive(Debug, Clone, Copy, PartialEq, Eq, Structural)]
pub struct Placement {
    pub node: Id,
    pub origin: Origin,
}

/// The logical nodes that `placements` place, in order.
pub open spec fn nodes_of(placements: Seq<Placement>) -> Seq<Id> {
    Seq::new(placements.len(), |i: int| placements[i].node)
}

/// The numbers of `s` as integers.
pub open spec fn as_ints(s: Seq<usize>) -> Seq<int> {
    Seq::new(s.len(), |i: int| s[i] as int)
}

impl GraphView {
    /// Some link leads from the logical node `a` to the logical node `b`.
    pub open spec fn joined(self, a: Id, b: Id) -> bool {
        exists|k: int|
            0 <= k < self.links.len() && (#[trigger] self.links[k]).from_node == a
                && self.links[k].to_node == b
    }

    /// Each logical node of `p` is joined to the next.
    pub open spec fn is_chain(self, p: Seq<Id>) -> bool {
        &&& p.len() > 0
        &&& forall|i: int| 0 <= i < p.len() - 1 ==> self.joined(#[trigger] p[i], p[i + 1])
    }

    /// Links lead from `a` to `b`, by way of any number of logical nodes.
    pub open spec fn leads_to(self, a: Id, b: Id) -> bool {
        exists|p: Seq<Id>| self.is_chain(p) && p[0] == a && p.last() == b
    }

    /// No link between two different logical nodes lies on a cycle.
    pub open spec fn acyclic(self) -> bool {
        forall|k: int|
            0 <= k < self.links.len() && (#[trigger] self.links[k]).from_node
                != self.links[k].to_node ==> !self.leads_to(
                self.links[k].to_node,
                self.links[k].from_node,
            )
    }

    /// The identifiers of the logical nodes at `places`.
    pub open spec fn ids_at(self, places: Seq<usize>) -> Seq<Id> {
        Seq::new(places.len(), |i: int| self.nodes[places[i] as int].id)
    }

    /// What [`Graph::top_sort`] returns: the logical nodes in the depth-first
    /// order of the adjacency.
    pub open spec fn is_top_sort(self, order: Seq<Id>) -> bool {
        exists|adjacency: Seq<Seq<usize>>, places: Seq<usize>|
            self.is_adjacency(adjacency) && #[trigger] is_depth_first_order(adjacency, places)
                && order == self.ids_at(places)
    }

    /// What holds of the order that [`Graph::top_sort`] returns: it has
    /// every logical node once, and the start of each link before its end
    /// unless the end leads back to the start.
    pub open spec fn is_draw_order(self, order: Seq<Id>) -> bool {
        &&& order.len() == self.nodes.len()
        &&& order.no_duplicates()
        &&& forall|i: int| 0 <= i < order.len() ==> self.live(#[trigger] order[i])
        &&& forall|i: int| 0 <= i < self.nodes.len()
            ==> order.contains((#[trigger] self.nodes[i]).id)
        &&& forall|k: int, i: int, j: int|
            0 <= k < self.links.len() && 0 <= i < order.len() && 0 <= j < order.len() && i != j && (
            #[trigger] self.links[k]).from_node == #[trigger] order[i] && self.links[k].to_node
                == #[trigger] order[j] ==> i < j || self.leads_to(order[j], order[i])
    }

    /// How many of the first `upto` logical nodes of `order` have no
    /// position.
    pub open spec fn unplaced(self, order: Seq<Id>, upto: int) -> nat
        decreases upto,
    {
        if upto <= 0 {
            0
        } else if self.nodes[self.index_of_id(order[upto - 1])].position is None {
            self.unplaced(order, upto - 1) + 1
        } else {
            self.unplaced(order, upto - 1)
        }
    }

    /// Where to draw the logical node at place `i` of `order`: where the
    /// display put it last; without a position to the right of the node
    /// before it, above for the first, third, fifth such node and below for the
    /// others.
    pub open spec fn placement(self, order: Seq<Id>, i: int) -> Placement {
        Placement {
            node: order[i],
            origin: match self.nodes[self.index_of_id(order[i])].position {
                Some(position) => Origin::Cached(position),
                None => Origin::Seeded {
                    dx: SEED_DX,
                    dy: if self.unplaced(order, i) % 2 == 0 {
                        (-SEED_DY) as i32
                    } else {
                        SEED_DY
                    },
                },
            },
        }
    }

    /// What [`Graph::layout`] returns: the logical nodes in the order of
    /// [`Graph::top_sort`], each with its placement.
    pub open spec fn is_layout(self, placements: Seq<Placement>) -> bool {
        &&& self.is_top_sort(nodes_of(placements))
        &&& forall|i: int|
            0 <= i < placements.len() ==> #[trigger] placements[i] == self.placement(
                nodes_of(placements),
                i,
            )
    }

    /// The successors of the logical node at `u` that the first `upto`
    /// links give, in the order of the links: where each link that starts
    /// there ends, but for the links that end where they start.
    pub open spec fn successors(self, u: int, upto: int) -> Seq<int>
        decreases upto,
    {
        if upto <= 0 {
            Seq::empty()
        } else {
            let link = self.links[upto - 1];
            let rest = self.successors(u, upto - 1);
            if link.from_node == self.nodes[u].id && link.to_node != link.from_node {
                rest.push(self.index_of_id(link.to_node))
            } else {
                rest
            }
        }
    }

    /// `g` lists, for the logical node at each place, its successors.
    pub open spec fn is_adjacency(self, g: Seq<Seq<usize>>) -> bool {
        &&& g.len() == self.nodes.len()
        &&& forall|u: int|
            0 <= u < g.len() ==> as_ints(#[trigger] g[u]) == self.successors(
                u,
                self.links.len() as int,
            )
    }
}

/// What the successors of a logical node are: places of logical nodes other
/// than itself, one for each link from it to another node.
pub proof fn lemma_successors(g: GraphView, u: int, upto: int)
    requires
        g.wf(),
        0 <= u < g.nodes.len(),
        0 <= upto <= g.links.len(),
    ensures
        forall|t: int|
            0 <= t < g.successors(u, upto).len() ==> {
                let v = #[trigger] g.successors(u, upto)[t];
                &&& 0 <= v < g.nodes.len()
                &&& v != u
                &&& g.joined(g.nodes[u].id, g.nodes[v].id)
            },
        forall|k: int|
            0 <= k < upto && (#[trigger] g.links[k]).from_node == g.nodes[u].id
                && g.links[k].to_node != g.links[k].from_node ==> g.successors(u, upto).contains(
                g.index_of_id(g.links[k].to_node),
            ),
    decreases upto,
{
    if upto > 0 {
        lemma_successors(g, u, upto - 1);
        let link = g.links[upto - 1];
        let rest = g.successors(u, upto - 1);
        let all = g.successors(u, upto);
        assert(g.live(link.to_node));
        let w = g.index_of_id(link.to_node);
        assert forall|t: int| 0 <= t < all.len() implies {
            let v = #[trigger] all[t];
            &&& 0 <= v < g.nodes.len()
            &&& v != u
            &&& g.joined(g.nodes[u].id, g.nodes[v].id)
        } by {
            if t < rest.len() {
                assert(all[t] == rest[t]);
            } else {
                assert(all[t] == w);
            }
        }
        assert forall|k: int|
            0 <= k < upto && (#[trigger] g.links[k]).from_node == g.nodes[u].id
                && g.links[k].to_node != g.links[k].from_node implies all.contains(
            g.index_of_id(g.links[k].to_node),
        ) by {
            if k < upto - 1 {
                let v = g.index_of_id(g.links[k].to_node);
                assert(rest.contains(v));
                let t = rest.index_of(v);
                assert(all[t] == v);
            } else {
                assert(all[rest.len() as int] == w);
            }
        }
    }
}

/// No logical node is its own successor: a link that ends where it starts
/// gives none.
pub proof fn lemma_adjacency_has_no_self_links(g: GraphView, adjacency: Seq<Seq<usize>>)
    requires
        g.wf(),
        g.is_adjacency(adjacency),
    ensures
        forall|u: int, t: int|
            0 <= u < adjacency.len() && 0 <= t < adjacency[u].len() ==> #[trigger] adjacency[u][t]
                != u,
{
    assert forall|u: int, t: int|
        0 <= u < adjacency.len() && 0 <= t < adjacency[u].len() implies #[trigger] adjacency[u][t]
        != u by {
        lemma_successors(g, u, g.links.len() as int);
        assert(as_ints(adjacency[u])[t] == adjacency[u][t]);
        assert(as_ints(adjacency[u]).len() == adjacency[u].len());
    }
}

/// Every successor in the adjacency is the place of a logical node, and a
/// link joins the two.
proof fn lemma_adjacency_closed(g: GraphView, adjacency: Seq<Seq<usize>>)
    requires
        g.wf(),
        g.is_adjacency(adjacency),
    ensures
        closed_graph(adjacency),
        forall|u: usize, v: usize|
            has_edge(adjacency, u, v) ==> v < g.nodes.len() && g.joined(
                g.nodes[u as int].id,
                g.nodes[v as int].id,
            ),
{
    assert forall|u: int, t: int|
        0 <= u < adjacency.len() && 0 <= t < adjacency[u].len() implies (#[trigger] adjacency[u][t])
        < adjacency.len() by {
        lemma_successors(g, u, g.links.len() as int);
        assert(as_ints(adjacency[u])[t] == adjacency[u][t]);
    }
    assert forall|u: usize, v: usize| has_edge(adjacency, u, v) implies v < g.nodes.len()
        && g.joined(g.nodes[u as int].id, g.nodes[v as int].id) by {
        lemma_successors(g, u as int, g.links.len() as int);
        let t = adjacency[u as int].index_of(v);
        assert(as_ints(adjacency[u as int])[t] == v);
    }
}

/// A path of the adjacency is a chain of links.
proof fn lemma_chain_of_path(g: GraphView, adjacency: Seq<Seq<usize>>, p: Seq<usize>)
    requires
        g.wf(),
        g.is_adjacency(adjacency),
        is_path(adjacency, p),
    ensures
        p.last() < g.nodes.len(),
        g.leads_to(g.nodes[p[0] as int].id, g.nodes[p.last() as int].id),
{
    lemma_adjacency_closed(g, adjacency);
    assert forall|i: int| 0 <= i < p.len() implies (#[trigger] p[i]) < g.nodes.len() by {
        if i > 0 {
            assert(has_edge(adjacency, p[i - 1], p[i - 1 + 1]));
        }
    }
    let chain = Seq::new(p.len(), |i: int| g.nodes[p[i] as int].id);
    assert forall|i: int| 0 <= i < chain.len() - 1
        implies g.joined(#[trigger] chain[i], chain[i + 1]) by {
        assert(has_edge(adjacency, p[i], p[i + 1]));
    }
    assert(g.is_chain(chain));
    assert(chain[0] == g.nodes[p[0] as int].id && chain.last() == g.nodes[p.last() as int].id);
}

/// The identifiers of an order of the adjacency that is sorted but for
/// cycles are a draw order of the graph.
proof fn lemma_draw_order(
    g: GraphView,
    adjacency: Seq<Seq<usize>>,
    places: Seq<usize>,
    order: Seq<Id>,
)
    requires
        g.wf(),
        g.is_adjacency(adjacency),
        adjacency.len() <= usize::MAX,
        is_sorted_but_for_cycles(adjacency, places),
        order == g.ids_at(places),
    ensures
        g.is_draw_order(order),
{
    assert forall|i: int, j: int| 0 <= i < order.len() && 0 <= j < order.len() && i != j
        implies order[i]
        != order[j] by {
        assert(places[i] != places[j]);
        assert(g.nodes[places[i] as int].id != g.nodes[places[j] as int].id);
    }
    assert forall|i: int| 0 <= i < order.len() implies g.live(#[trigger] order[i]) by {
        assert(g.nodes[places[i] as int].id == order[i]);
    }
    assert forall|i: int| 0 <= i < g.nodes.len()
        implies order.contains((#[trigger] g.nodes[i]).id) by {
        assert(places.contains(i as usize));
        let at = places.index_of(i as usize);
        assert(order[at] == g.nodes[i].id);
    }
    assert forall|k: int, i: int, j: int|
        0 <= k < g.links.len() && 0 <= i < order.len() && 0 <= j < order.len() && i != j && (
        #[trigger] g.links[k]).from_node == #[trigger] order[i] && g.links[k].to_node
            == #[trigger] order[j] implies i < j || g.leads_to(order[j], order[i]) by {
        let u = places[i];
        let v = places[j];
        assert(order[i] != order[j]);
        lemma_index_of_id(g, v as int);
        lemma_successors(g, u as int, g.links.len() as int);
        let s = g.successors(u as int, g.links.len() as int);
        assert(s.contains(v as int));
        let t = s.index_of(v as int);
        assert(as_ints(adjacency[u as int])[t] == v);
        assert(adjacency[u as int][t] == v);
        assert(has_edge(adjacency, u, v));
        if !(i < j) {
            assert(reaches(adjacency, v, u));
            let p = choose|p: Seq<usize>| is_path(adjacency, p) && p[0] == v && p.last() == u;
            lemma_chain_of_path(g, adjacency, p);
        }
    }
}

/// The adjacency of a graph is one: two lists of successors that both are
/// it are the same.
proof fn lemma_adjacency_is_unique(g: GraphView, a: Seq<Seq<usize>>, b: Seq<Seq<usize>>)
    requires
        g.is_adjacency(a),
        g.is_adjacency(b),
    ensures
        a == b,
{
    assert forall|u: int| 0 <= u < a.len() implies a[u] == b[u] by {
        assert(as_ints(a[u]) == as_ints(b[u]));
        assert forall|t: int| 0 <= t < a[u].len() implies a[u][t] == b[u][t] by {
            assert(as_ints(a[u])[t] == as_ints(b[u])[t]);
        }
        assert(a[u].len() == as_ints(a[u]).len());
        assert(b[u].len() == as_ints(b[u]).len());
        assert(a[u] =~= b[u]);
    }
    assert(a =~= b);
}

/// A graph has one order that [`Graph::top_sort`] can return.
pub proof fn lemma_top_sort_is_unique(g: GraphView, a: Seq<Id>, b: Seq<Id>)
    requires
        g.is_top_sort(a),
        g.is_top_sort(b),
    ensures
        a == b,
{
    let (ga, pa) = choose|adjacency: Seq<Seq<usize>>, places: Seq<usize>|
        g.is_adjacency(adjacency) && #[trigger] is_depth_first_order(adjacency, places) && a
            == g.ids_at(places);
    let (gb, pb) = choose|adjacency: Seq<Seq<usize>>, places: Seq<usize>|
        g.is_adjacency(adjacency) && #[trigger] is_depth_first_order(adjacency, places) && b
            == g.ids_at(places);
    lemma_adjacency_is_unique(g, ga, gb);
    lemma_depth_first_order_is_unique(ga, pa, pb);
}

/// The order that [`Graph::top_sort`] returns is a draw order: it has every
/// logical node once, and the start of each link before its end unless the
/// end leads back to the start.
pub proof fn lemma_top_sort_is_draw_order(g: GraphView, order: Seq<Id>)
    requires
        g.wf(),
        g.nodes.len() <= usize::MAX,
        g.links.len() <= usize::MAX,
        g.is_top_sort(order),
    ensures
        g.is_draw_order(order),
{
    let (adjacency, places) = choose|adjacency: Seq<Seq<usize>>, places: Seq<usize>|
        g.is_adjacency(adjacency) && #[trigger] is_depth_first_order(adjacency, places) && order
            == g.ids_at(places);
    lemma_adjacency_closed(g, adjacency);
    assert(bounded_graph(adjacency)) by {
        assert forall|u: int| 0 <= u < adjacency.len() implies (#[trigger] adjacency[u]).len()
            <= usize::MAX by {
            lemma_successors_len(g, u, g.links.len() as int);
            assert(as_ints(adjacency[u]).len() == adjacency[u].len());
        }
    }
    lemma_depth_first_order_is_sorted(adjacency, places);
    lemma_draw_order(g, adjacency, places, order);
}

/// A logical node has at most one successor for each link.
proof fn lemma_successors_len(g: GraphView, u: int, upto: int)
    requires
        0 <= upto,
    ensures
        g.successors(u, upto).len() <= upto,
    decreases upto,
{
    if upto > 0 {
        lemma_successors_len(g, u, upto - 1);
    }
}

/// In a graph without cycles a draw order has the start of every link
/// between two different logical nodes before its end.
pub proof fn lemma_acyclic_draw_order(g: GraphView, order: Seq<Id>)
    requires
        g.is_draw_order(order),
        g.acyclic(),
    ensures
        forall|k: int, i: int, j: int|
            0 <= k < g.links.len() && 0 <= i < order.len() && 0 <= j < order.len() && (
            #[trigger] g.links[k]).from_node == #[trigger] order[i] && g.links[k].to_node
                == #[trigger] order[j] && g.links[k].from_node != g.links[k].to_node ==> i < j,
{
}

impl Graph {
    /// For the logical node at each place, the places of its successors, in
    /// the order of the links.
    pub fn adjacency(&self) -> (succ: Vec<Vec<usize>>)
        requires
            self@.wf(),
        ensures
            self@.is_adjacency(graph_of(&succ)),
    {
        let links = self.links();
        let n: usize = self.nodes().len();
        let mut succ: Vec<Vec<usize>> = Vec::new();
        while succ.len() < n
            invariant
                succ.len() <= n,
                forall|u: int| 0 <= u < succ.len()
                    ==> (#[trigger] succ@[u])@ == Seq::<usize>::empty(),
            decreases n - succ.len(),
        {
            succ.push(Vec::new());
        }
        let mut k: usize = 0;
        while k < links.len()
            invariant
                self@.wf(),
                links@ == self@.links,
                n == self@.nodes.len(),
                succ.len() == n,
                k <= links.len(),
                forall|u: int|
                    0 <= u < n ==> as_ints((#[trigger] succ@[u])@) == self@.successors(u, k as int),
            decreases links.len() - k,
        {
            let link = links[k];
            let ghost before = succ@;
            assert(self@.live(self@.links[k as int].from_node));
            if link.from_node.0 != link.to_node.0 {
                let from = self.node_index_of_id(link.from_node);
                let to = self.node_index_of_id(link.to_node);
                if let (Some(from), Some(to)) = (from, to) {
                    proof {
                        lemma_index_of_id(self@, to as int);
                    }
                    succ[from].push(to);
                    assert(as_ints(succ@[from as int]@) =~= as_ints(before[from as int]@).push(
                        to as int,
                    ));
                }
            }
            assert forall|u: int| 0 <= u < n implies as_ints((#[trigger] succ@[u])@)
                == self@.successors(u, k + 1) by {
                assert(as_ints(before[u]@) == self@.successors(u, k as int));
                if link.from_node == self@.nodes[u].id && link.to_node != link.from_node {
                    let from = self@.index_of_id(link.from_node);
                    lemma_index_of_id(self@, u);
                } else if link.to_node != link.from_node {
                    assert(succ@[u] == before[u]);
                }
            }
            k += 1;
        }
        assert(graph_of(&succ).len() == n);
        assert forall|u: int| 0 <= u < n implies as_ints(#[trigger] graph_of(&succ)[u])
            == self@.successors(u, self@.links.len() as int) by {
            assert(graph_of(&succ)[u] == succ@[u]@);
        }
        succ
    }

    /// The order in which to draw the logical nodes: every one once, and
    /// the start of each link before its end unless links lead back from the
    /// end to the start. It is found depth first, from each logical node not
    /// yet seen, in the order in which nodes and links are stored; cycles are
    /// neither found nor refused.
    pub fn top_sort(&self) -> (order: Vec<Id>)
        requires
            self@.wf(),
        ensures
            self@.is_top_sort(order@),
            self@.is_draw_order(order@),
    {
        let succ = self.adjacency();
        proof {
            lemma_adjacency_closed(self@, graph_of(&succ));
        }
        let places = depth_first_order(&succ);
        let nodes = self.nodes();
        let mut order: Vec<Id> = Vec::new();
        let mut i: usize = 0;
        while i < places.len()
            invariant
                views(nodes@) == self@.nodes,
                places@.len() == nodes@.len(),
                forall|j: int| 0 <= j < places@.len() ==> (#[trigger] places@[j]) < nodes@.len(),
                i <= places.len(),
                order@.len() == i,
                forall|j: int| 0 <= j < i
                    ==> #[trigger] order@[j] == self@.nodes[places@[j] as int].id,
            decreases places.len() - i,
        {
            order.push(nodes[places[i]].id());
            i += 1;
        }
        proof {
            assert(order@ =~= self@.ids_at(places@));
            assert(is_depth_first_order(graph_of(&succ), places@));
            lemma_draw_order(self@, graph_of(&succ), places@, order@);
        }
        order
    }

    /// Where to draw each logical node, in the order of [`Graph::top_sort`].
    /// A node that the display has put somewhere stays there. One that it
    /// has not is put beside the node drawn before it, alternately above and
    /// below.
    pub fn layout(&self) -> (placements: Vec<Placement>)
        requires
            self@.wf(),
        ensures
            self@.is_layout(placements@),
            self@.is_draw_order(nodes_of(placements@)),
    {
        let order = self.top_sort();
        let nodes = self.nodes();
        let mut placements: Vec<Placement> = Vec::new();
        let mut upward: bool = true;
        let mut i: usize = 0;
        while i < order.len()
            invariant
                self@.wf(),
                self@.is_top_sort(order@),
                self@.is_draw_order(order@),
                views(nodes@) == self@.nodes,
                i <= order.len(),
                placements@.len() == i,
                upward == (self@.unplaced(order@, i as int) % 2 == 0),
                forall|j: int| 0 <= j < i
                    ==> #[trigger] placements@[j] == self@.placement(order@, j),
            decreases order.len() - i,
        {
            let id = order[i];
            assert(self@.live(order@[i as int]));
            let origin = match self.node_index_of_id(id) {
                Some(at) => {
                    proof {
                        lemma_index_of_id(self@, at as int);
                    }
                    match nodes[at].position() {
                        Some(position) => Origin::Cached(position),
                        None => {
                            let dy: i32 = if upward {
                                -SEED_DY
                            } else {
                                SEED_DY
                            };
                            upward = !upward;
                            Origin::Seeded { dx: SEED_DX, dy }
                        },
                    }
                },
                None => Origin::Seeded { dx: SEED_DX, dy: SEED_DY },
            };
            placements.push(Placement { node: id, origin });
            i += 1;
        }
        proof {
            assert(nodes_of(placements@) =~= order@);
        }
        placements
    }
}

} // verus!
