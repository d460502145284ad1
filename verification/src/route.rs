//! What a router keeps for a route: the pattern it was registered under and
//! the target that answers for it.

use vstd::prelude::*;

verus! {

/// A registered route.
pub struct Route<T> {
    pub route_path: String,
    pub target: T,
}

impl<T> Route<T> {
    /// Whether this is the route of the given pattern and target.
    pub open spec fn is(self, route_path: Seq<char>, target: T) -> bool {
        self.route_path@ == route_path && self.target == target
    }

    /// The route of a pattern and a target.
    pub fn new(route_path: &str, target: T) -> (route: Self)
        ensures
            route.is(route_path@, target),
    {
        Route { route_path: route_path.to_owned(), target }
    }
}

} // verus!
