//! mdatron engine: a conformance engine for typed markdown.
pub mod cite;
pub mod cli;
pub mod codecat;
pub mod codes;
pub mod confine;
pub mod dep;
pub mod diagnostic;
pub mod digest;
pub mod dsl;
pub mod error;
pub mod explain;
pub mod format_version;
pub mod frontmatter;
pub mod limits;
pub mod link;
pub mod marker;
pub mod memo;
pub mod markup;
pub mod output;
pub mod pin;
pub mod path_order;
pub mod pattern;
pub mod route;
pub mod schema;

pub mod section;
pub mod snapshot;
pub mod text;
