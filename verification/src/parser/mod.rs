//! Parsers: a Prolog-like syntax (`parser`) and simple French sentences (`parser2`).
pub mod parser;
pub mod parser2;
