//! Paths: walks through a net, grown one point at a time.

use crate::point::{
    id_of, identifier, ids_are_stable, ids_decide_identity, points_match, same_point, Point,
};
use vstd::prelude::*;
use vstd::string::to_string_from_display_ensures;
use vstd::string::StringExecFns;

verus! {

/// Some point of `walk` is the same vertex as `p`.
pub open spec fn visits<T: Point>(walk: Seq<T>, p: T) -> bool {
    exists|i: int| 0 <= i < walk.len() && same_point(#[trigger] walk[i], p)
}

/// No vertex occurs twice in `walk`.
pub open spec fn is_simple<T: Point>(walk: Seq<T>) -> bool {
    forall|i: int, j: int| 0 <= i < j < walk.len() ==> !same_point(#[trigger] walk[i], #[trigger] walk[j])
}

/// The identifiers of the points of `walk`, in order.
pub open spec fn identifiers<T: Point>(walk: Seq<T>) -> Seq<T::Identifier> {
    Seq::new(walk.len(), |i: int| id_of(walk[i]))
}

/// The texts of `parts`, in order, with `sep` between each two of them.
pub open spec fn joined(parts: Seq<Seq<char>>, sep: Seq<char>) -> Seq<char>
    decreases parts.len(),
{
    if parts.len() == 0 {
        Seq::empty()
    } else if parts.len() == 1 {
        parts[0]
    } else {
        joined(parts.drop_last(), sep) + sep + parts.last()
    }
}

/// `labels` holds, point by point, a text that the identifier's `Display`
/// gives for it.
pub open spec fn labels_of<T: Point>(walk: Seq<T>, labels: Seq<String>) -> bool {
    &&& labels.len() == walk.len()
    &&& forall|i: int|
        0 <= i < walk.len() ==> to_string_from_display_ensures::<T::Identifier>(
            &id_of(walk[i]),
            #[trigger] labels[i],
        )
}

/// The views of `labels`, in order.
pub open spec fn texts(labels: Seq<String>) -> Seq<Seq<char>> {
    Seq::new(labels.len(), |i: int| labels[i]@)
}

/// The walks that `paths` hold, in order.
pub open spec fn walks<T: Point>(paths: Seq<Path<T>>) -> Seq<Seq<T>> {
    Seq::new(paths.len(), |i: int| paths[i]@)
}

/// An ordered sequence of points. A path never changes: appending yields a
/// new path.
#[derive(Debug)]
pub struct Path<T: Point> {
    points: Vec<T>,
}

impl<T: Point> View for Path<T> {
    type V = Seq<T>;

    closed spec fn view(&self) -> Seq<T> {
        self.points@
    }
}

impl<T: Point> Path<T> {
    /// The number of points on the path.
    pub fn len(&self) -> (n: usize)
        ensures
            n == self@.len(),
    {
        self.points.len()
    }

    /// The point at position `i`.
    pub fn point_at(&self, i: usize) -> (p: T)
        requires
            i < self@.len(),
        ensures
            p == self@[i as int],
    {
        self.points[i]
    }

    /// A new path: this one with `p` after its last point. Whether `p` is
    /// already on the path is not looked at.
    pub fn with_point_at_the_end(&self, p: &T) -> (longer: Path<T>)
        ensures
            longer@ == self@.push(*p),
    {
        let mut points: Vec<T> = Vec::new();
        let mut i: usize = 0;
        while i < self.points.len()
            invariant
                i <= self.points.len(),
                points@ == self.points@.take(i as int),
            decreases self.points.len() - i,
        {
            points.push(self.points[i]);
            i += 1;
        }
        points.push(*p);
        assert(self.points@.take(i as int) == self.points@);
        Path { points }
    }

    /// Whether `p` is a vertex of this path.
    pub fn contains(&self, p: &T) -> (found: bool)
        requires
            ids_decide_identity::<T>(),
        ensures
            found == visits(self@, *p),
    {
        let mut i: usize = 0;
        while i < self.points.len()
            invariant
                ids_decide_identity::<T>(),
                i <= self.points.len(),
                forall|k: int| 0 <= k < i ==> !same_point(#[trigger] self.points@[k], *p),
            decreases self.points.len() - i,
        {
            if points_match(&self.points[i], p) {
                return true;
            }
            i += 1;
        }
        false
    }

    /// Whether the last point of this path is the vertex `p`.
    pub fn ends_with(&self, p: &T) -> (ends: bool)
        requires
            ids_decide_identity::<T>(),
        ensures
            ends == (self@.len() > 0 && same_point(self@.last(), *p)),
    {
        let n = self.points.len();
        if n == 0 {
            false
        } else {
            points_match(&self.points[n - 1], p)
        }
    }

    /// The identifiers of the points in order, each as its `Display` writes
    /// it, with `-` between each two.
    pub fn to_string(&self) -> (text: String)
        requires
            ids_are_stable::<T>(),
        ensures
            exists|labels: Seq<String>|
                #![trigger labels_of(self@, labels)]
                labels_of(self@, labels) && text@ == joined(texts(labels), seq!['-']),
    {
        let mut text = String::new();
        let ghost mut labels: Seq<String> = Seq::empty();
        let mut i: usize = 0;
        while i < self.points.len()
            invariant
                ids_are_stable::<T>(),
                i <= self.points.len(),
                labels_of(self.points@.take(i as int), labels),
                text@ == joined(texts(labels), seq!['-']),
            decreases self.points.len() - i,
        {
            let label = identifier(&self.points[i]).to_string();
            if i > 0 {
                proof {
                    reveal_strlit("-");
                    assert("-"@ =~= seq!['-']);
                }
                text.append("-");
            }
            text.append(label.as_str());
            proof {
                let longer = labels.push(label);
                assert(texts(longer).drop_last() == texts(labels));
                assert(texts(longer).last() == label@);
                assert(joined(texts(longer), seq!['-']) == text@) by {
                    if i == 0 {
                        assert(texts(labels).len() == 0);
                    }
                }
                labels = longer;
            }
            i += 1;
        }
        proof {
            assert(self.points@.take(i as int) == self.points@);
            assert(labels_of(self@, labels));
        }
        text
    }
}

/// Collects the one point that a new path starts with.
pub struct PathBuilder<T: Point> {
    seed: Option<T>,
}

impl<T: Point> PathBuilder<T> {
    /// The point that `build` will start the path with, if one was given.
    pub closed spec fn seed(&self) -> Option<T> {
        self.seed
    }

    /// A builder that holds no point yet.
    pub fn new() -> (builder: Self)
        ensures
            builder.seed() == None::<T>,
    {
        PathBuilder { seed: None }
    }

    /// Sets the point that the path starts with.
    pub fn point(self, p: &T) -> (builder: Self)
        ensures
            builder.seed() == Some(*p),
    {
        PathBuilder { seed: Some(*p) }
    }

    /// The path that holds the one point given, or a message where none was.
    pub fn build(self) -> (built: Result<Path<T>, String>)
        ensures
            match self.seed() {
                Some(p) => built is Ok && built->Ok_0@ == seq![p],
                None => built is Err && built->Err_0@ == "A path needs a point to start with"@,
            },
    {
        match self.seed {
            Some(p) => {
                let mut points: Vec<T> = Vec::new();
                points.push(p);
                Ok(Path { points })
            },
            None => Err(String::from_str("A path needs a point to start with")),
        }
    }
}

} // verus!
