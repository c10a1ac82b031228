//! Extraction of contact information (emails, phones, social links, names) from
//! web pages, and the decisions of a same-site crawler.
pub mod crawler;
pub mod extractor;
pub mod frontier;
pub mod html;
pub mod lead;
pub mod output;
pub mod pattern;
pub mod targets;
pub mod text;
pub mod weburl;
