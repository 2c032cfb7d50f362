//! Points: the vertices of a net, told apart by their identifiers.

use vstd::prelude::*;
use vstd::std_specs::cmp::PartialEqSpec;

verus! {

/// A vertex of a net. Two points are the same vertex exactly when their
/// identifiers are equal.
pub trait Point: Copy {
    type Identifier: PartialEq + std::fmt::Display;

    /// The identifier of this point.
    fn id(&self) -> Self::Identifier;
}

/// The identifier that `id` gives for `p`.
pub open spec fn id_of<T: Point>(p: T) -> T::Identifier {
    choose|id: T::Identifier| call_ensures(T::id, (&p,), id)
}

/// A point's identifier never changes: `id` gives one value for one point.
pub open spec fn ids_are_stable<T: Point>() -> bool {
    forall|p: T, a: T::Identifier, b: T::Identifier|
        #[trigger] call_ensures(T::id, (&p,), a) && #[trigger] call_ensures(T::id, (&p,), b) ==> a
            == b
}

/// Identifiers are stable, and `==` on them decides whether two identifiers
/// are the same value.
pub open spec fn ids_decide_identity<T: Point>() -> bool {
    &&& ids_are_stable::<T>()
    &&& <T::Identifier as PartialEqSpec>::obeys_eq_spec()
    &&& forall|a: T::Identifier, b: T::Identifier| #[trigger] a.eq_spec(&b) <==> a == b
}

/// The two points are the same vertex.
pub open spec fn same_point<T: Point>(a: T, b: T) -> bool {
    id_of(a) == id_of(b)
}

/// The identifier of `p`.
pub fn identifier<T: Point>(p: &T) -> (id: T::Identifier)
    requires
        ids_are_stable::<T>(),
    ensures
        id == id_of(*p),
{
    let id = p.id();
    proof {
        let chosen = id_of(*p);
        assert(call_ensures(T::id, (p,), id));
        assert(call_ensures(T::id, (p,), chosen));
    }
    id
}

/// Whether two points are the same vertex.
pub fn points_match<T: Point>(a: &T, b: &T) -> (same: bool)
    requires
        ids_decide_identity::<T>(),
    ensures
        same == same_point(*a, *b),
{
    identifier(a) == identifier(b)
}

} // verus!
