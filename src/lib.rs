//! A loader for the Supreme Court case database: it reads a zipped CSV table of
//! case records and groups the records by term, in order of first appearance.

pub mod bridge;
pub mod db;
pub mod model;
