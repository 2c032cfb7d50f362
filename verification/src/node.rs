//! Nodes: a point of the net and the points that one step from it reaches.

use crate::path::{visits, Path};
use crate::point::{ids_decide_identity, points_match, same_point, Point};
use vstd::prelude::*;
use vstd::string::StringExecFns;

verus! {

/// The points of `points` that are not on `walk`, in their order.
pub open spec fn not_visited<T: Point>(points: Seq<T>, walk: Seq<T>) -> Seq<T>
    decreases points.len(),
{
    if points.len() == 0 {
        Seq::empty()
    } else if visits(walk, points.last()) {
        not_visited(points.drop_last(), walk)
    } else {
        not_visited(points.drop_last(), walk).push(points.last())
    }
}

/// One vertex of a net: its point, and the points connected to it.
#[derive(Debug)]
pub struct Node<T: Point> {
    point: T,
    connected_points: Vec<T>,
}

impl<T: Point> Node<T> {
    /// The point that this node stands for.
    pub closed spec fn vertex(&self) -> T {
        self.point
    }

    /// The points connected to this node's point, in the order given.
    pub closed spec fn neighbours(&self) -> Seq<T> {
        self.connected_points@
    }

    /// The point that this node stands for.
    pub fn point(&self) -> (p: T)
        ensures
            p == self.vertex(),
    {
        self.point
    }

    /// The points connected to this node's point, in the order given.
    pub fn connected_points(&self) -> (points: &Vec<T>)
        ensures
            points@ == self.neighbours(),
    {
        &self.connected_points
    }

    /// Whether this node stands for the vertex `p`.
    pub fn point_is(&self, p: &T) -> (same: bool)
        requires
            ids_decide_identity::<T>(),
        ensures
            same == same_point(self.vertex(), *p),
    {
        points_match(&self.point, p)
    }

    /// The connected points that are not on `path`, in their order; `None`
    /// where there is none.
    pub fn connected_points_not_in_path(&self, path: &Path<T>) -> (open_ways: Option<Vec<T>>)
        requires
            ids_decide_identity::<T>(),
        ensures
            match open_ways {
                Some(points) => points@.len() > 0 && points@ == not_visited(
                    self.neighbours(),
                    path@,
                ),
                None => not_visited(self.neighbours(), path@).len() == 0,
            },
    {
        let mut points: Vec<T> = Vec::new();
        let mut i: usize = 0;
        while i < self.connected_points.len()
            invariant
                ids_decide_identity::<T>(),
                i <= self.connected_points.len(),
                points@ == not_visited(self.connected_points@.take(i as int), path@),
            decreases self.connected_points.len() - i,
        {
            let p = self.connected_points[i];
            proof {
                let next = self.connected_points@.take(i + 1);
                assert(next.drop_last() == self.connected_points@.take(i as int));
                assert(next.last() == p);
            }
            if !path.contains(&p) {
                points.push(p);
            }
            i += 1;
        }
        assert(self.connected_points@.take(i as int) == self.connected_points@);
        if points.len() == 0 {
            None
        } else {
            Some(points)
        }
    }
}

/// Collects a point and the points connected to it.
pub struct NodeBuilder<T: Point> {
    point: Option<T>,
    connected_points: Vec<T>,
}

impl<T: Point> NodeBuilder<T> {
    /// The point that the node will stand for, if one was given.
    pub closed spec fn vertex(&self) -> Option<T> {
        self.point
    }

    /// The connected points given so far, in order.
    pub closed spec fn neighbours(&self) -> Seq<T> {
        self.connected_points@
    }

    /// A builder that holds no point and no connected point.
    pub fn new() -> (builder: Self)
        ensures
            builder.vertex() == None::<T>,
            builder.neighbours() == Seq::<T>::empty(),
    {
        NodeBuilder { point: None, connected_points: Vec::new() }
    }

    /// Sets the point that the node stands for.
    pub fn point(self, p: &T) -> (builder: Self)
        ensures
            builder.vertex() == Some(*p),
            builder.neighbours() == self.neighbours(),
    {
        NodeBuilder { point: Some(*p), connected_points: self.connected_points }
    }

    /// Adds one connected point after those given before.
    pub fn connected_point(self, p: &T) -> (builder: Self)
        ensures
            builder.vertex() == self.vertex(),
            builder.neighbours() == self.neighbours().push(*p),
    {
        let mut connected_points = self.connected_points;
        connected_points.push(*p);
        NodeBuilder { point: self.point, connected_points }
    }

    /// Adds connected points, in their order, after those given before.
    pub fn connected_points(self, points: &Vec<T>) -> (builder: Self)
        ensures
            builder.vertex() == self.vertex(),
            builder.neighbours() == self.neighbours() + points@,
    {
        let mut connected_points = self.connected_points;
        let mut i: usize = 0;
        while i < points.len()
            invariant
                i <= points.len(),
                connected_points@ == self.connected_points@ + points@.take(i as int),
            decreases points.len() - i,
        {
            connected_points.push(points[i]);
            assert(points@.take(i + 1) == points@.take(i as int).push(points@[i as int]));
            i += 1;
        }
        assert(points@.take(i as int) == points@);
        NodeBuilder { point: self.point, connected_points }
    }

    /// The node of the point given with the connected points given, or a
    /// message where no point was given.
    pub fn build(self) -> (built: Result<Node<T>, String>)
        ensures
            match self.vertex() {
                Some(p) => built is Ok && built->Ok_0.vertex() == p && built->Ok_0.neighbours()
                    == self.neighbours(),
                None => built is Err && built->Err_0@ == "A node needs a point"@,
            },
    {
        match self.point {
            Some(point) => Ok(Node { point, connected_points: self.connected_points }),
            None => Err(String::from_str("A node needs a point")),
        }
    }
}

} // verus!
