//! A singly linked list with owned nodes, and the puzzle solvers built
//! around plain vectors of characters and integers.

pub mod list;
pub mod list_laws;
pub mod word_search;
pub mod lab;
pub mod network;
pub mod pages;
pub mod parsing;
pub mod reports;
pub mod calibration;
pub mod seeds;
pub mod games;
pub mod races;
pub mod matching;
pub mod camel;
pub mod lists;
pub mod cards;
