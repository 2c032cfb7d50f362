//! Nets, and the search for every simple path between two of their points.

use crate::laws::{finds, is_route, lemma_every_route_is_found, lemma_found_paths_are_routes};
use crate::node::Node;
use crate::path::{visits, walks, Path, PathBuilder};
use crate::point::{id_of, identifier, ids_decide_identity, same_point, Point};
use crate::routes::{
    all_have_nodes, all_simple_paths, lemma_node_links_resolve, lemma_not_visited_members,
    lemma_onward_skips_visited, lemma_unvisited_shrinks, links_resolve, paths_onward,
    paths_through, unvisited,
};
use vstd::pervasive::unreached;
use vstd::prelude::*;
use vstd::string::to_string_from_display_ensures;
use vstd::string::StringExecFns;

verus! {

/// Why a search gave no paths.
#[derive(Debug)]
pub enum NetErrors {
    /// The point to start from has no node in the net. Holds the text of the
    /// point's identifier.
    PointNotFound(String),
    /// The point to start from has a node, and no path leads to the
    /// destination.
    NoPathFound,
    /// The path of the starting point alone could not be built. Holds the
    /// builder's message.
    PathCannotBeBuilt(String),
}

impl NetErrors {
    /// What the error says, as a sentence for a reader.
    pub open spec fn message_text(&self) -> Seq<char> {
        match self {
            NetErrors::PointNotFound(point_id) => "The point with id \""@ + point_id@
                + "\" could not be found"@,
            NetErrors::NoPathFound => "No path found between points"@,
            NetErrors::PathCannotBeBuilt(path_error) => "Path cannot be built: "@ + path_error@,
        }
    }

    /// What the error says, as a sentence for a reader.
    pub fn message(&self) -> (text: String)
        ensures
            text@ == self.message_text(),
    {
        match self {
            NetErrors::PointNotFound(point_id) => {
                let mut text = String::from_str("The point with id \"");
                text.append(point_id.as_str());
                text.append("\" could not be found");
                text
            },
            NetErrors::NoPathFound => String::from_str("No path found between points"),
            NetErrors::PathCannotBeBuilt(path_error) => {
                let mut text = String::from_str("Path cannot be built: ");
                text.append(path_error.as_str());
                text
            },
        }
    }
}

/// Some node of `nodes` stands for the vertex `p`.
pub open spec fn has_node<T: Point>(nodes: Seq<Node<T>>, p: T) -> bool {
    exists|i: int| 0 <= i < nodes.len() && same_point((#[trigger] nodes[i]).vertex(), p)
}

/// `i` is the position of the first node of `nodes` that stands for `p`.
pub open spec fn is_first_node_of<T: Point>(nodes: Seq<Node<T>>, p: T, i: int) -> bool {
    &&& 0 <= i < nodes.len()
    &&& same_point(nodes[i].vertex(), p)
    &&& forall|j: int| 0 <= j < i ==> !same_point((#[trigger] nodes[j]).vertex(), p)
}

/// The position of the first node of `nodes` that stands for `p`, where
/// there is one.
pub open spec fn node_index<T: Point>(nodes: Seq<Node<T>>, p: T) -> int {
    choose|i: int| is_first_node_of(nodes, p, i)
}

/// The first node of `nodes` that stands for `p`, where there is one.
pub open spec fn node_of<T: Point>(nodes: Seq<Node<T>>, p: T) -> Node<T> {
    nodes[node_index(nodes, p)]
}

/// Only one position is that of the first node of a vertex, and it is the
/// same for every point of that vertex.
pub proof fn lemma_first_node_is_unique<T: Point>(nodes: Seq<Node<T>>, p: T, q: T, i: int, k: int)
    requires
        same_point(p, q),
        is_first_node_of(nodes, p, i),
        is_first_node_of(nodes, q, k),
    ensures
        i == k,
{
    if i < k {
        assert(same_point(nodes[i].vertex(), q));
    } else if k < i {
        assert(same_point(nodes[k].vertex(), p));
    }
}

/// Points of one vertex have the same node.
pub proof fn lemma_node_of_same_point<T: Point>(nodes: Seq<Node<T>>, p: T, q: T)
    requires
        same_point(p, q),
        has_node(nodes, p),
    ensures
        has_node(nodes, q),
        is_first_node_of(nodes, p, node_index(nodes, p)),
        node_index(nodes, p) == node_index(nodes, q),
        node_of(nodes, p) == node_of(nodes, q),
{
    let w = choose|i: int| 0 <= i < nodes.len() && same_point((#[trigger] nodes[i]).vertex(), p);
    assert(same_point(nodes[w].vertex(), q));
    let first = lemma_first_node_exists(nodes, p, w);
    assert(is_first_node_of(nodes, q, first)) by {
        assert forall|j: int| 0 <= j < first implies !same_point(
            (#[trigger] nodes[j]).vertex(),
            q,
        ) by {
            if same_point(nodes[j].vertex(), q) {
                assert(same_point(nodes[j].vertex(), p));
            }
        }
    }
    lemma_first_node_is_unique(nodes, p, q, node_index(nodes, p), node_index(nodes, q));
}

/// Below any node of a vertex stands the first node of that vertex.
proof fn lemma_first_node_exists<T: Point>(nodes: Seq<Node<T>>, p: T, w: int) -> (first: int)
    requires
        0 <= w < nodes.len(),
        same_point(nodes[w].vertex(), p),
    ensures
        is_first_node_of(nodes, p, first),
        first <= w,
    decreases w,
{
    if exists|j: int| 0 <= j < w && same_point((#[trigger] nodes[j]).vertex(), p) {
        let j = choose|j: int| 0 <= j < w && same_point((#[trigger] nodes[j]).vertex(), p);
        lemma_first_node_exists(nodes, p, j)
    } else {
        w
    }
}

/// A net: its nodes. The node of a vertex is the first one that stands for it.
#[derive(Debug)]
pub struct Net<T: Point> {
    pub nodes: Vec<Node<T>>,
}

impl<T: Point> Net<T> {
    /// Every simple path from `origin` to `destination`, each with its points
    /// in order: first those through the first connected point of `origin`'s
    /// node, and so on at every point after it. `PointNotFound` where
    /// `origin` has no node; `NoPathFound` where it has one and there is no
    /// such path.
    pub fn find_paths(&self, origin: &T, destination: &T) -> (found: Result<Vec<Path<T>>, NetErrors>)
        requires
            ids_decide_identity::<T>(),
            links_resolve(self.nodes@),
        ensures
            match found {
                Ok(paths) => {
                    &&& has_node(self.nodes@, *origin)
                    &&& paths@.len() > 0
                    &&& walks(paths@) == all_simple_paths(self.nodes@, *origin, *destination)
                    &&& forall|j: int|
                        #![trigger paths@[j]]
                        0 <= j < paths@.len() ==> {
                            &&& paths@[j]@[0] == *origin
                            &&& is_route(self.nodes@, *origin, *destination, paths@[j]@)
                        }
                },
                Err(NetErrors::PointNotFound(text)) => {
                    &&& !has_node(self.nodes@, *origin)
                    &&& to_string_from_display_ensures::<T::Identifier>(&id_of(*origin), text)
                },
                Err(NetErrors::NoPathFound) => {
                    &&& has_node(self.nodes@, *origin)
                    &&& all_simple_paths(self.nodes@, *origin, *destination).len() == 0
                    &&& forall|route: Seq<T>|
                        !#[trigger] is_route(self.nodes@, *origin, *destination, route)
                },
                Err(NetErrors::PathCannotBeBuilt(_)) => false,
            },
            forall|route: Seq<T>|
                #![trigger is_route(self.nodes@, *origin, *destination, route)]
                is_route(self.nodes@, *origin, *destination, route) ==> {
                    &&& found is Ok
                    &&& finds(walks(found->Ok_0@), route)
                },
    {
        proof {
            let all = all_simple_paths(self.nodes@, *origin, *destination);
            assert forall|route: Seq<T>|
                #![trigger is_route(self.nodes@, *origin, *destination, route)]
                is_route(self.nodes@, *origin, *destination, route) implies {
                &&& has_node(self.nodes@, *origin)
                &&& finds(all, route)
            } by {
                lemma_every_route_is_found(self.nodes@, *origin, *destination, route);
            }
            assert forall|j: int|
                #![trigger all[j]]
                0 <= j < all.len() && has_node(self.nodes@, *origin) implies {
                &&& all[j][0] == *origin
                &&& is_route(self.nodes@, *origin, *destination, all[j])
            } by {
                lemma_found_paths_are_routes(self.nodes@, *origin, *destination, j);
            }
        }
        let node_from = self.find_node_or_throws(origin)?;
        let path_starting_with_origin_point = PathBuilder::new().point(origin).build();
        match path_starting_with_origin_point {
            Err(message) => Err(NetErrors::PathCannotBeBuilt(message)),
            Ok(beginning_path) => {
                proof {
                    lemma_node_links_resolve(self.nodes@, *origin);
                }
                match self.find_paths_not_crossing_previous_path(
                    node_from,
                    destination,
                    &beginning_path,
                ) {
                    Some(paths) => {
                        assert forall|j: int|
                            #![trigger paths@[j]]
                            0 <= j < paths@.len() implies paths@[j]@ == walks(paths@)[j] by {}
                        Ok(paths)
                    },
                    None => Err(NetErrors::NoPathFound),
                }
            },
        }
    }

    /// The complete paths that go along `previous_path` and then to a
    /// connected point of `origin`; `None` where there is none.
    fn find_paths_not_crossing_previous_path(
        &self,
        origin: &Node<T>,
        destination: &T,
        previous_path: &Path<T>,
    ) -> (found: Option<Vec<Path<T>>>)
        requires
            ids_decide_identity::<T>(),
            links_resolve(self.nodes@),
            all_have_nodes(self.nodes@, origin.neighbours()),
        ensures
            match found {
                Some(paths) => paths@.len() > 0 && walks(paths@) == paths_onward(
                    self.nodes@,
                    *destination,
                    previous_path@,
                    origin.neighbours(),
                ),
                None => paths_onward(
                    self.nodes@,
                    *destination,
                    previous_path@,
                    origin.neighbours(),
                ).len() == 0,
            },
        decreases unvisited(self.nodes@, previous_path@), 2nat,
    {
        proof {
            lemma_not_visited_members(self.nodes@, origin.neighbours(), previous_path@);
            lemma_onward_skips_visited(
                self.nodes@,
                *destination,
                previous_path@,
                origin.neighbours(),
            );
        }
        match origin.connected_points_not_in_path(previous_path) {
            None => None,
            Some(followable_points) => {
                let paths = self.all_paths_to_destination_following_path_and_continuing_with_points(
                    destination,
                    previous_path,
                    followable_points,
                );
                if paths.is_empty() {
                    None
                } else {
                    Some(paths)
                }
            },
        }
    }

    /// The complete paths that go along `previous_path` and then to one of
    /// `followable_points`, in the order of those points.
    fn all_paths_to_destination_following_path_and_continuing_with_points(
        &self,
        destination: &T,
        previous_path: &Path<T>,
        followable_points: Vec<T>,
    ) -> (paths: Vec<Path<T>>)
        requires
            ids_decide_identity::<T>(),
            links_resolve(self.nodes@),
            all_have_nodes(self.nodes@, followable_points@),
            forall|k: int|
                0 <= k < followable_points@.len() ==> !visits(
                    previous_path@,
                    #[trigger] followable_points@[k],
                ),
        ensures
            walks(paths@) == paths_onward(
                self.nodes@,
                *destination,
                previous_path@,
                followable_points@,
            ),
        decreases unvisited(self.nodes@, previous_path@), 1nat,
    {
        let mut paths: Vec<Path<T>> = Vec::new();
        let mut i: usize = 0;
        assert(walks(paths@) =~= Seq::<Seq<T>>::empty());
        while i < followable_points.len()
            invariant
                ids_decide_identity::<T>(),
                links_resolve(self.nodes@),
                all_have_nodes(self.nodes@, followable_points@),
                forall|k: int|
                    0 <= k < followable_points@.len() ==> !visits(
                        previous_path@,
                        #[trigger] followable_points@[k],
                    ),
                i <= followable_points.len(),
                walks(paths@) == paths_onward(
                    self.nodes@,
                    *destination,
                    previous_path@,
                    followable_points@.take(i as int),
                ),
            decreases followable_points.len() - i,
        {
            let path_search = self.all_paths_to_destination_following_path_and_continuing_with_point(
                destination,
                previous_path,
                &followable_points[i],
            );
            let ghost before = walks(paths@);
            proof {
                let tried = followable_points@.take(i + 1);
                assert(tried.drop_last() == followable_points@.take(i as int));
                assert(tried.last() == followable_points@[i as int]);
            }
            match path_search {
                Some(mut paths_found) => {
                    let ghost more = walks(paths_found@);
                    paths.append(&mut paths_found);
                    assert(walks(paths@) =~= before + more);
                },
                None => {
                    assert(before + Seq::<Seq<T>>::empty() =~= before);
                },
            }
            i += 1;
        }
        assert(followable_points@.take(i as int) == followable_points@);
        paths
    }

    /// The complete paths that go along `following_path` and then to
    /// `next_point`; `None` where there is none.
    fn all_paths_to_destination_following_path_and_continuing_with_point(
        &self,
        destination: &T,
        following_path: &Path<T>,
        next_point: &T,
    ) -> (found: Option<Vec<Path<T>>>)
        requires
            ids_decide_identity::<T>(),
            links_resolve(self.nodes@),
            has_node(self.nodes@, *next_point),
            !visits(following_path@, *next_point),
        ensures
            match found {
                Some(paths) => paths@.len() > 0 && walks(paths@) == paths_through(
                    self.nodes@,
                    *destination,
                    following_path@,
                    *next_point,
                ),
                None => paths_through(
                    self.nodes@,
                    *destination,
                    following_path@,
                    *next_point,
                ).len() == 0,
            },
        decreases unvisited(self.nodes@, following_path@), 0nat,
    {
        let origin_node = self.find_node_or_panic(next_point);
        let trying_path = following_path.with_point_at_the_end(next_point);
        if trying_path.ends_with(destination) {
            let mut paths: Vec<Path<T>> = Vec::new();
            paths.push(trying_path);
            assert(walks(paths@) =~= seq![following_path@.push(*next_point)]);
            Some(paths)
        } else {
            proof {
                lemma_unvisited_shrinks(self.nodes@, following_path@, *next_point);
                lemma_node_links_resolve(self.nodes@, *next_point);
            }
            self.find_paths_not_crossing_previous_path(origin_node, destination, &trying_path)
        }
    }

    /// The node of the vertex `point`, or `PointNotFound` with the text of the
    /// point's identifier where the net has none.
    pub fn find_node_or_throws(&self, point: &T) -> (found: Result<&Node<T>, NetErrors>)
        requires
            ids_decide_identity::<T>(),
        ensures
            match found {
                Ok(node) => has_node(self.nodes@, *point) && *node == node_of(self.nodes@, *point),
                Err(NetErrors::PointNotFound(text)) => !has_node(self.nodes@, *point)
                    && to_string_from_display_ensures::<T::Identifier>(&id_of(*point), text),
                Err(_) => false,
            },
    {
        let mut i: usize = 0;
        while i < self.nodes.len()
            invariant
                ids_decide_identity::<T>(),
                i <= self.nodes.len(),
                forall|j: int| 0 <= j < i ==> !same_point((#[trigger] self.nodes@[j]).vertex(), *point),
            decreases self.nodes.len() - i,
        {
            if self.nodes[i].point_is(point) {
                proof {
                    assert(is_first_node_of(self.nodes@, *point, i as int));
                    lemma_node_of_same_point(self.nodes@, *point, *point);
                    lemma_first_node_is_unique(
                        self.nodes@,
                        *point,
                        *point,
                        i as int,
                        node_index(self.nodes@, *point),
                    );
                }
                return Ok(&self.nodes[i]);
            }
            i += 1;
        }
        Err(NetErrors::PointNotFound(identifier(point).to_string()))
    }

    /// Whether every point that a node of the net is connected to has a node
    /// itself.
    pub fn every_link_resolves(&self) -> (ok: bool)
        requires
            ids_decide_identity::<T>(),
        ensures
            ok == links_resolve(self.nodes@),
    {
        let mut i: usize = 0;
        while i < self.nodes.len()
            invariant
                ids_decide_identity::<T>(),
                i <= self.nodes.len(),
                forall|n: int|
                    0 <= n < i ==> all_have_nodes(
                        self.nodes@,
                        (#[trigger] self.nodes@[n]).neighbours(),
                    ),
            decreases self.nodes.len() - i,
        {
            let ways = self.nodes[i].connected_points();
            let mut k: usize = 0;
            while k < ways.len()
                invariant
                    ids_decide_identity::<T>(),
                    i < self.nodes.len(),
                    ways@ == self.nodes@[i as int].neighbours(),
                    k <= ways.len(),
                    forall|m: int| 0 <= m < k ==> has_node(self.nodes@, #[trigger] ways@[m]),
                decreases ways.len() - k,
            {
                if self.find_node_or_throws(&ways[k]).is_err() {
                    assert(!all_have_nodes(self.nodes@, self.nodes@[i as int].neighbours()));
                    return false;
                }
                k += 1;
            }
            i += 1;
        }
        true
    }

    /// The node of the vertex `point`, which the net must have.
    pub fn find_node_or_panic(&self, point: &T) -> (node: &Node<T>)
        requires
            ids_decide_identity::<T>(),
            has_node(self.nodes@, *point),
        ensures
            *node == node_of(self.nodes@, *point),
    {
        match self.find_node_or_throws(point) {
            Ok(node) => node,
            Err(_) => unreached(),
        }
    }
}

} // verus!
