//! The shortest route through a set of named systems, found by trying every
//! order of visiting them.
//!
//! A [`holder::SystemHolder`] registers the systems and the distances known
//! between them. Its search sets out at one of them, tries each ordering of
//! the others, adds up the distances of each route, and keeps the first of
//! the shortest in a [`shortest::CurrentShortest`]. While it runs it reports
//! to a [`progress::ProgressHolder`] how many orderings are done. A distance
//! that a route needs and the registry does not hold ends the search with an
//! error: an unknown distance never counts as 0.
//!
//! The orderings and the pairs of systems come from the crate `itertools`,
//! the number of orderings from the crate `factorial`; what is taken on
//! trust of either is stated where it is called, in [`enumeration`] and
//! [`counting`].

pub mod counting;
pub mod enumeration;
pub mod holder;
pub mod optimality;
pub mod ordering_count;
pub mod progress;
pub mod route;
pub mod search;
pub mod shortest;
pub mod system;
