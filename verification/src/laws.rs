//! The paths that a search yields are the simple paths of the net from the
//! origin to the destination: each of them is one, and each one is among them.

use crate::net::{has_node, lemma_node_of_same_point, node_of};
use crate::node::Node;
use crate::path::{identifiers, is_simple, visits, walks, Path};
use crate::point::{same_point, Point};
use crate::routes::{
    all_simple_paths, lemma_unvisited_shrinks, paths_onward, paths_through, unvisited,
};
use vstd::prelude::*;

verus! {

/// One step of the net leads from `a` to `b`: `a` has a node, and `b` is one
/// of the points connected to it.
pub open spec fn is_step<T: Point>(nodes: Seq<Node<T>>, a: T, b: T) -> bool {
    has_node(nodes, a) && visits(node_of(nodes, a).neighbours(), b)
}

/// One step of the net leads from the point at `i` of `walk` to the next.
pub open spec fn step_at<T: Point>(nodes: Seq<Node<T>>, walk: Seq<T>, i: int) -> bool {
    is_step(nodes, walk[i], walk[i + 1])
}

/// `walk` is a simple path of the net from `origin` to `destination`: it has
/// at least one step, starts at `origin`, ends at `destination`, visits no
/// vertex twice, and goes by steps of the net only.
pub open spec fn is_route<T: Point>(
    nodes: Seq<Node<T>>,
    origin: T,
    destination: T,
    walk: Seq<T>,
) -> bool {
    &&& walk.len() >= 2
    &&& same_point(walk[0], origin)
    &&& same_point(walk.last(), destination)
    &&& is_simple(walk)
    &&& forall|i: int| 0 <= i < walk.len() - 1 ==> #[trigger] step_at(nodes, walk, i)
}

/// `found` goes along `walk` and then on to `destination` by steps of the
/// net, and visits no vertex twice unless `walk` does.
pub open spec fn continues<T: Point>(
    nodes: Seq<Node<T>>,
    destination: T,
    walk: Seq<T>,
    found: Seq<T>,
) -> bool {
    &&& found.len() > walk.len()
    &&& found.take(walk.len() as int) =~= walk
    &&& same_point(found.last(), destination)
    &&& forall|i: int| walk.len() - 1 <= i < found.len() - 1 ==> #[trigger] step_at(nodes, found, i)
    &&& is_simple(walk) ==> is_simple(found)
}

/// One of `paths` visits the vertices of `route`, in the same order.
pub open spec fn finds<T: Point>(paths: Seq<Seq<T>>, route: Seq<T>) -> bool {
    exists|j: int|
        0 <= j < paths.len() && identifiers(#[trigger] paths[j]) =~= identifiers(route)
}

/// A simple walk stays simple when a point that is not on it is appended.
pub proof fn lemma_simple_push<T: Point>(walk: Seq<T>, next: T)
    requires
        !visits(walk, next),
    ensures
        is_simple(walk) ==> is_simple(walk.push(next)),
{
    let longer = walk.push(next);
    if is_simple(walk) {
        assert forall|i: int, j: int| 0 <= i < j < longer.len() implies !same_point(
            #[trigger] longer[i],
            #[trigger] longer[j],
        ) by {
            assert(longer[i] == walk[i]);
            if j < walk.len() {
                assert(longer[j] == walk[j]);
            }
        }
    }
}

/// Every path through `next` continues `walk` to the destination.
pub proof fn lemma_paths_through_continue<T: Point>(
    nodes: Seq<Node<T>>,
    destination: T,
    walk: Seq<T>,
    next: T,
)
    requires
        walk.len() > 0,
        is_step(nodes, walk.last(), next),
    ensures
        forall|j: int|
            0 <= j < paths_through(nodes, destination, walk, next).len() ==> continues(
                nodes,
                destination,
                walk,
                #[trigger] paths_through(nodes, destination, walk, next)[j],
            ),
    decreases unvisited(nodes, walk), 0nat,
{
    let all = paths_through(nodes, destination, walk, next);
    let longer = walk.push(next);
    let n = walk.len() as int;
    if visits(walk, next) {
    } else if same_point(next, destination) {
        lemma_simple_push(walk, next);
        assert(step_at(nodes, longer, n - 1));
        assert(continues(nodes, destination, walk, longer));
    } else if has_node(nodes, next) {
        lemma_unvisited_shrinks(nodes, walk, next);
        lemma_simple_push(walk, next);
        let ways = node_of(nodes, next).neighbours();
        assert forall|k: int| 0 <= k < ways.len() implies is_step(
            nodes,
            longer.last(),
            #[trigger] ways[k],
        ) by {
            assert(same_point(ways[k], ways[k]));
        }
        lemma_paths_onward_continue(nodes, destination, longer, ways);
        assert(all == paths_onward(nodes, destination, longer, ways));
        assert forall|j: int| 0 <= j < all.len() implies continues(
            nodes,
            destination,
            walk,
            #[trigger] all[j],
        ) by {
            let found = all[j];
            assert(found == paths_onward(nodes, destination, longer, ways)[j]);
            assert(continues(nodes, destination, longer, found));
            let head = found.take(n + 1);
            assert(head == longer);
            assert forall|i: int| 0 <= i <= n implies found[i] == longer[i] by {
                assert(head[i] == found[i]);
            }
            assert(found.take(n) =~= walk);
            assert forall|i: int| n - 1 <= i < found.len() - 1 implies #[trigger] step_at(
                nodes,
                found,
                i,
            ) by {
                if i == n - 1 {
                    assert(found[i] == walk.last());
                    assert(found[i + 1] == next);
                }
            }
        }
    }
}

/// Every path through one of `ways` continues `walk` to the destination.
pub proof fn lemma_paths_onward_continue<T: Point>(
    nodes: Seq<Node<T>>,
    destination: T,
    walk: Seq<T>,
    ways: Seq<T>,
)
    requires
        walk.len() > 0,
        forall|k: int| 0 <= k < ways.len() ==> is_step(nodes, walk.last(), #[trigger] ways[k]),
    ensures
        forall|j: int|
            0 <= j < paths_onward(nodes, destination, walk, ways).len() ==> continues(
                nodes,
                destination,
                walk,
                #[trigger] paths_onward(nodes, destination, walk, ways)[j],
            ),
    decreases unvisited(nodes, walk), ways.len(),
{
    if ways.len() > 0 {
        let before = paths_onward(nodes, destination, walk, ways.drop_last());
        let last = paths_through(nodes, destination, walk, ways.last());
        assert forall|k: int| 0 <= k < ways.drop_last().len() implies is_step(
            nodes,
            walk.last(),
            #[trigger] ways.drop_last()[k],
        ) by {
            assert(ways.drop_last()[k] == ways[k]);
        }
        assert(is_step(nodes, walk.last(), ways[ways.len() - 1]));
        lemma_paths_onward_continue(nodes, destination, walk, ways.drop_last());
        lemma_paths_through_continue(nodes, destination, walk, ways.last());
        assert forall|j: int| 0 <= j < (before + last).len() implies continues(
            nodes,
            destination,
            walk,
            #[trigger] (before + last)[j],
        ) by {
            if j < before.len() {
                assert((before + last)[j] == before[j]);
            } else {
                assert((before + last)[j] == last[j - before.len()]);
            }
        }
    }
}

/// A route that is found through one of `ways` is found through `ways`.
pub proof fn lemma_onward_holds_through<T: Point>(
    nodes: Seq<Node<T>>,
    destination: T,
    walk: Seq<T>,
    ways: Seq<T>,
    k: int,
    route: Seq<T>,
)
    requires
        0 <= k < ways.len(),
        finds(paths_through(nodes, destination, walk, ways[k]), route),
    ensures
        finds(paths_onward(nodes, destination, walk, ways), route),
    decreases ways.len(),
{
    let before = paths_onward(nodes, destination, walk, ways.drop_last());
    let last = paths_through(nodes, destination, walk, ways.last());
    let all = before + last;
    if k == ways.len() - 1 {
        let j = choose|j: int|
            0 <= j < last.len() && identifiers(#[trigger] last[j]) =~= identifiers(route);
        assert(all[before.len() + j] == last[j]);
    } else {
        assert(ways.drop_last()[k] == ways[k]);
        lemma_onward_holds_through(nodes, destination, walk, ways.drop_last(), k, route);
        let j = choose|j: int|
            0 <= j < before.len() && identifiers(#[trigger] before[j]) =~= identifiers(route);
        assert(all[j] == before[j]);
    }
}

/// A simple walk to the destination that begins as `walk` does and goes on
/// from there by steps of the net is found among the paths that go on from
/// `walk`.
pub proof fn lemma_paths_onward_find<T: Point>(
    nodes: Seq<Node<T>>,
    destination: T,
    walk: Seq<T>,
    route: Seq<T>,
)
    requires
        0 < walk.len() < route.len(),
        identifiers(walk) =~= identifiers(route.take(walk.len() as int)),
        is_simple(route),
        same_point(route.last(), destination),
        forall|i: int| walk.len() - 1 <= i < route.len() - 1 ==> #[trigger] step_at(nodes, route, i),
    ensures
        finds(
            paths_onward(nodes, destination, walk, node_of(nodes, walk.last()).neighbours()),
            route,
        ),
    decreases route.len() - walk.len(),
{
    let n = walk.len() as int;
    let head = route.take(n);
    assert forall|i: int| 0 <= i < n implies same_point(walk[i], route[i]) by {
        assert(identifiers(walk)[i] == identifiers(head)[i]);
    }
    assert(step_at(nodes, route, n - 1));
    lemma_node_of_same_point(nodes, route[n - 1], walk[n - 1]);
    let ways = node_of(nodes, walk.last()).neighbours();
    let k = choose|k: int| 0 <= k < ways.len() && same_point(#[trigger] ways[k], route[n]);
    let c = ways[k];
    let longer = walk.push(c);
    if visits(walk, c) {
        let i = choose|i: int| 0 <= i < walk.len() && same_point(#[trigger] walk[i], c);
        assert(same_point(route[i], route[n]));
    }
    if same_point(c, destination) {
        if n < route.len() - 1 {
            assert(same_point(route[n], route[route.len() - 1]));
        }
        assert(identifiers(longer) =~= identifiers(route));
        let through = paths_through(nodes, destination, walk, c);
        assert(through[0] == longer);
    } else {
        assert(n < route.len() - 1);
        assert(step_at(nodes, route, n));
        lemma_node_of_same_point(nodes, route[n], c);
        assert(identifiers(longer) =~= identifiers(route.take(n + 1)));
        lemma_paths_onward_find(nodes, destination, longer, route);
    }
    lemma_onward_holds_through(nodes, destination, walk, ways, k, route);
}

/// Every path that the search yields starts with `origin` itself and is a
/// simple path of the net from `origin` to `destination`.
pub proof fn lemma_found_paths_are_routes<T: Point>(
    nodes: Seq<Node<T>>,
    origin: T,
    destination: T,
    j: int,
)
    requires
        has_node(nodes, origin),
        0 <= j < all_simple_paths(nodes, origin, destination).len(),
    ensures
        all_simple_paths(nodes, origin, destination)[j][0] == origin,
        is_route(nodes, origin, destination, all_simple_paths(nodes, origin, destination)[j]),
{
    let start = seq![origin];
    let ways = node_of(nodes, origin).neighbours();
    assert forall|k: int| 0 <= k < ways.len() implies is_step(
        nodes,
        start.last(),
        #[trigger] ways[k],
    ) by {
        assert(same_point(ways[k], ways[k]));
    }
    lemma_paths_onward_continue(nodes, destination, start, ways);
    let found = all_simple_paths(nodes, origin, destination)[j];
    assert(continues(nodes, destination, start, found));
    assert(found.take(1)[0] == found[0]);
    assert(is_simple(start));
}

/// Every simple path of the net from `origin` to `destination` is among the
/// paths that the search yields.
pub proof fn lemma_every_route_is_found<T: Point>(
    nodes: Seq<Node<T>>,
    origin: T,
    destination: T,
    route: Seq<T>,
)
    requires
        is_route(nodes, origin, destination, route),
    ensures
        has_node(nodes, origin),
        finds(all_simple_paths(nodes, origin, destination), route),
{
    let start = seq![origin];
    assert(step_at(nodes, route, 0));
    lemma_node_of_same_point(nodes, route[0], origin);
    assert(identifiers(start) =~= identifiers(route.take(1)));
    lemma_paths_onward_find(nodes, destination, start, route);
}

/// The search yields no path exactly where the net has no simple path from
/// `origin` to `destination`.
pub proof fn lemma_no_path_where_no_route<T: Point>(nodes: Seq<Node<T>>, origin: T, destination: T)
    requires
        has_node(nodes, origin),
    ensures
        all_simple_paths(nodes, origin, destination).len() == 0 <==> forall|route: Seq<T>|
            !#[trigger] is_route(nodes, origin, destination, route),
{
    let all = all_simple_paths(nodes, origin, destination);
    if all.len() > 0 {
        lemma_found_paths_are_routes(nodes, origin, destination, 0);
    }
    assert forall|route: Seq<T>| #[trigger]
        is_route(nodes, origin, destination, route) implies all.len() > 0 by {
        lemma_every_route_is_found(nodes, origin, destination, route);
    }
}

/// Two searches of one net from the same origin to the same destination
/// yield the same walks in the same order.
pub proof fn lemma_search_is_repeatable<T: Point>(
    nodes: Seq<Node<T>>,
    origin: T,
    destination: T,
    first: Seq<Path<T>>,
    second: Seq<Path<T>>,
)
    requires
        walks(first) == all_simple_paths(nodes, origin, destination),
        walks(second) == all_simple_paths(nodes, origin, destination),
    ensures
        first.len() == second.len(),
        forall|j: int| 0 <= j < first.len() ==> (#[trigger] first[j])@ == second[j]@,
{
    assert(walks(first).len() == first.len());
    assert(walks(second).len() == second.len());
    assert forall|j: int| 0 <= j < first.len() implies (#[trigger] first[j])@ == second[j]@ by {
        assert(walks(first)[j] == first[j]@);
        assert(walks(second)[j] == second[j]@);
    }
}

} // verus!
