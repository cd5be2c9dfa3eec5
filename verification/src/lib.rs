//! A robots.txt interpreter: parsing of the exclusion-protocol text into a rule
//! set, and crawl-permission queries against it.
pub mod chars;
pub mod text;
pub mod pattern;
pub mod rules;
pub mod model;
pub mod robotstxt;
