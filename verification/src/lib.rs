//! Fraud scoring by nearest neighbours.
pub mod builder;
pub mod calendar;
pub mod distance;
pub mod division;
pub mod full_search;
pub mod index;
pub mod layout;
pub mod parse;
pub mod ranking;
pub mod recall;
pub mod responses;
pub mod search;
pub mod vectorize;
