//! The waypoints as the caller declared them.

use crate::system::views;
use crate::system::System;
use crate::system::SystemView;
use vstd::prelude::*;

verus! {

/// An ordered list of at least one system. It says which systems there are;
/// the order in which they are best visited is for the search to find.
#[derive(Debug)]
pub struct Route {
    systems: Vec<System>,
}

impl View for Route {
    type V = Seq<SystemView>;

    closed spec fn view(&self) -> Seq<SystemView> {
        views(self.systems@)
    }
}

impl Route {
    #[verifier::type_invariant]
    spec fn well_formed(self) -> bool {
        self.systems@.len() > 0
    }

    /// The route through `systems`, in that order; `None` if there are none.
    pub fn new(systems: Vec<System>) -> (route: Option<Route>)
        ensures
            match route {
                Some(route) => systems@.len() > 0 && route@ == views(systems@),
                None => systems@.len() == 0,
            },
    {
        if systems.len() == 0 {
            None
        } else {
            Some(Route { systems })
        }
    }

    /// How many systems the route names, repetitions counted.
    pub fn len(&self) -> (count: usize)
        ensures
            count == self@.len(),
            count > 0,
    {
        proof {
            use_type_invariant(self);
        }
        self.systems.len()
    }

    /// The system at `index` of the route.
    pub fn system(&self, index: usize) -> (system: &System)
        requires
            index < self@.len(),
        ensures
            system@ == self@[index as int],
    {
        &self.systems[index]
    }
}

} // verus!
