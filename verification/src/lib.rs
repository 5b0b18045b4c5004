//! Planning of split and merge steps that turn one multiset of flow rates
//! into another, under a per-channel capacity ceiling.
//!
//! Flow rates are scaled integers. A state is the ascending sequence of the
//! rates currently carried; an operation replaces one rate by two or three
//! equal parts (a split) or two or three rates by their sum (a merge).
//!
//! [`balancer::Balancer`] holds a query and [`balancer::Balancer::search`]
//! answers it: two best-first frontiers, one grown from the given rates and
//! one from the wanted rates, take turns until they meet. What the search
//! returns is a function of the query and of the number of turns it may
//! take, which [`engine`] defines; [`path`] and [`reach`] say what that means
//! for the caller: a solution is a sequence of sound steps through states
//! within the capacity, and a search that runs out of states proves that
//! there is none.

pub mod balancer;
pub mod calc;
pub mod clock;
pub mod divisors;
pub mod engine;
pub mod estimate;
pub mod frontier;
pub mod helpers;
pub mod model;
pub mod moves;
pub mod operation;
pub mod path;
pub mod reach;
pub mod table;
