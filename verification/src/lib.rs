//! Match quality for groups of skill ratings: the verified structure.
//!
//! A match is a list of rating groups (teams). Its quality is an integral
//! over the differences between the scores of adjacent groups. Which rating
//! enters which difference, and with which sign, is settled here, together
//! with the shapes that are accepted and the pairs over which a
//! free-for-all is averaged. Each function takes the ratings and weights as
//! values of any type: the arithmetic on them is left to the caller.

pub mod design;
pub mod outcome;
pub mod pairing;
pub mod shape;
