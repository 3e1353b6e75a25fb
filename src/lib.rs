//! Data for the deck options screen: every configuration profile with its
//! use count, the current deck's profile and the profiles of its ancestors.

pub mod aggregate;
pub mod deckconf;
pub mod order;
pub mod resolve;
pub mod update;
