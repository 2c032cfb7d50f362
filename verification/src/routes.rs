//! What a search of a net yields, and what holds of it.

use crate::net::{has_node, lemma_node_of_same_point, node_of};
use crate::node::{not_visited, Node};
use crate::path::{identifiers, is_simple, visits};
use crate::point::{same_point, Point};
use vstd::prelude::*;

verus! {

/// Every point of `points` has a node in `nodes`.
pub open spec fn all_have_nodes<T: Point>(nodes: Seq<Node<T>>, points: Seq<T>) -> bool {
    forall|k: int| 0 <= k < points.len() ==> has_node(nodes, #[trigger] points[k])
}

/// Every point that a node of `nodes` is connected to has a node itself.
pub open spec fn links_resolve<T: Point>(nodes: Seq<Node<T>>) -> bool {
    forall|i: int| 0 <= i < nodes.len() ==> all_have_nodes(nodes, (#[trigger] nodes[i]).neighbours())
}

/// The number of nodes whose vertex is not on `walk`.
pub open spec fn unvisited<T: Point>(nodes: Seq<Node<T>>, walk: Seq<T>) -> nat
    decreases nodes.len(),
{
    if nodes.len() == 0 {
        0
    } else if visits(walk, nodes.last().vertex()) {
        unvisited(nodes.drop_last(), walk)
    } else {
        unvisited(nodes.drop_last(), walk) + 1
    }
}

/// A vertex on `walk` is on `walk` with `p` appended, and so is `p`.
pub proof fn lemma_visits_push<T: Point>(walk: Seq<T>, p: T, q: T)
    ensures
        visits(walk.push(p), q) <==> visits(walk, q) || same_point(p, q),
{
    let longer = walk.push(p);
    if visits(walk, q) {
        let i = choose|i: int| 0 <= i < walk.len() && same_point(#[trigger] walk[i], q);
        assert(same_point(longer[i], q));
    }
    if same_point(p, q) {
        assert(same_point(longer[walk.len() as int], q));
    }
    if visits(longer, q) {
        let i = choose|i: int| 0 <= i < longer.len() && same_point(#[trigger] longer[i], q);
        if i < walk.len() {
            assert(same_point(walk[i], q));
        }
    }
}

/// Appending a point to a walk leaves no more nodes unvisited than before.
pub proof fn lemma_unvisited_never_grows<T: Point>(nodes: Seq<Node<T>>, walk: Seq<T>, p: T)
    ensures
        unvisited(nodes, walk.push(p)) <= unvisited(nodes, walk),
    decreases nodes.len(),
{
    if nodes.len() > 0 {
        lemma_unvisited_never_grows(nodes.drop_last(), walk, p);
        lemma_visits_push(walk, p, nodes.last().vertex());
    }
}

/// Appending a point that has a node and is not on the walk leaves fewer
/// nodes unvisited.
pub proof fn lemma_unvisited_shrinks<T: Point>(nodes: Seq<Node<T>>, walk: Seq<T>, p: T)
    requires
        has_node(nodes, p),
        !visits(walk, p),
    ensures
        unvisited(nodes, walk.push(p)) < unvisited(nodes, walk),
    decreases nodes.len(),
{
    let w = choose|i: int| 0 <= i < nodes.len() && same_point((#[trigger] nodes[i]).vertex(), p);
    let last = nodes.last().vertex();
    lemma_visits_push(walk, p, last);
    if same_point(last, p) {
        lemma_unvisited_never_grows(nodes.drop_last(), walk, p);
        if visits(walk, last) {
            let i = choose|i: int| 0 <= i < walk.len() && same_point(#[trigger] walk[i], last);
            assert(same_point(walk[i], p));
        }
    } else {
        assert(w < nodes.len() - 1);
        assert(same_point(nodes.drop_last()[w].vertex(), p));
        lemma_unvisited_shrinks(nodes.drop_last(), walk, p);
    }
}

/// The complete paths that go along `walk` and then to `next`: none where
/// `next` is on `walk` already; `walk` with `next` where `next` is the
/// destination; else those that go on from `next` by one of its node's
/// connected points.
pub open spec fn paths_through<T: Point>(
    nodes: Seq<Node<T>>,
    destination: T,
    walk: Seq<T>,
    next: T,
) -> Seq<Seq<T>>
    decreases unvisited(nodes, walk), 0nat,
{
    if visits(walk, next) {
        Seq::empty()
    } else if same_point(next, destination) {
        seq![walk.push(next)]
    } else if !has_node(nodes, next) {
        Seq::empty()
    } else {
        proof {
            lemma_unvisited_shrinks(nodes, walk, next);
        }
        paths_onward(nodes, destination, walk.push(next), node_of(nodes, next).neighbours())
    }
}

/// The complete paths that go along `walk` and then to one of `ways`: those
/// through the first of `ways` first, those through the last of them last.
pub open spec fn paths_onward<T: Point>(
    nodes: Seq<Node<T>>,
    destination: T,
    walk: Seq<T>,
    ways: Seq<T>,
) -> Seq<Seq<T>>
    decreases unvisited(nodes, walk), ways.len(),
{
    if ways.len() == 0 {
        Seq::empty()
    } else {
        paths_onward(nodes, destination, walk, ways.drop_last()) + paths_through(
            nodes,
            destination,
            walk,
            ways.last(),
        )
    }
}

/// Every simple path from `origin` to `destination`, in the order in which
/// a search that tries connected points in their order comes to them.
pub open spec fn all_simple_paths<T: Point>(nodes: Seq<Node<T>>, origin: T, destination: T) -> Seq<
    Seq<T>,
> {
    paths_onward(nodes, destination, seq![origin], node_of(nodes, origin).neighbours())
}

/// The node of a point of a net whose links resolve leads only to points
/// that have nodes.
pub proof fn lemma_node_links_resolve<T: Point>(nodes: Seq<Node<T>>, p: T)
    requires
        links_resolve(nodes),
        has_node(nodes, p),
    ensures
        all_have_nodes(nodes, node_of(nodes, p).neighbours()),
{
    lemma_node_of_same_point(nodes, p, p);
}

/// The points that are left of `points` are not on `walk`, and have nodes
/// where all of `points` have.
pub proof fn lemma_not_visited_members<T: Point>(nodes: Seq<Node<T>>, points: Seq<T>, walk: Seq<T>)
    ensures
        forall|k: int|
            0 <= k < not_visited(points, walk).len() ==> !visits(
                walk,
                #[trigger] not_visited(points, walk)[k],
            ),
        all_have_nodes(nodes, points) ==> all_have_nodes(nodes, not_visited(points, walk)),
    decreases points.len(),
{
    if points.len() > 0 {
        lemma_not_visited_members(nodes, points.drop_last(), walk);
        if all_have_nodes(nodes, points) {
            assert forall|k: int| 0 <= k < points.drop_last().len() implies has_node(
                nodes,
                #[trigger] points.drop_last()[k],
            ) by {
                assert(points.drop_last()[k] == points[k]);
            }
            assert(has_node(nodes, points[points.len() - 1]));
        }
    }
}

/// Ways that are on the walk already lead to no path: they can be left out.
pub proof fn lemma_onward_skips_visited<T: Point>(
    nodes: Seq<Node<T>>,
    destination: T,
    walk: Seq<T>,
    ways: Seq<T>,
)
    ensures
        paths_onward(nodes, destination, walk, not_visited(ways, walk)) == paths_onward(
            nodes,
            destination,
            walk,
            ways,
        ),
    decreases ways.len(),
{
    if ways.len() > 0 {
        lemma_onward_skips_visited(nodes, destination, walk, ways.drop_last());
        if !visits(walk, ways.last()) {
            let open_ways = not_visited(ways, walk);
            assert(open_ways.drop_last() == not_visited(ways.drop_last(), walk));
            assert(open_ways.last() == ways.last());
        } else {
            assert(paths_through(nodes, destination, walk, ways.last()) == Seq::<Seq<T>>::empty());
            assert(paths_onward(nodes, destination, walk, ways.drop_last()) + Seq::<Seq<T>>::empty()
                == paths_onward(nodes, destination, walk, ways.drop_last()));
        }
    }
}

} // verus!
