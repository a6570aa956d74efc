//! Reading and filtering server log files.

pub mod calendar;
pub mod clock;
pub mod download;
pub mod fault;
pub mod filter;
pub mod filter_laws;
pub mod json;
pub mod listing;
pub mod listing_laws;
pub mod path_laws;
pub mod paths;
pub mod plan_laws;
pub mod plans;
pub mod regex;
pub mod regex_atom_laws;
pub mod regex_class_laws;
pub mod regex_laws;
pub mod regex_parser;
pub mod regex_repeat_laws;
pub mod request;
pub mod roots;
pub mod search;
pub mod search_laws;
pub mod session;
pub mod session_laws;
pub mod store;
pub mod tail;
pub mod tail_laws;
pub mod text;
pub mod text_laws;
pub mod time;
pub mod time_laws;
