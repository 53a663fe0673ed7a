//! Interconnected Markdown notes ("cells"): the grammar of their file names,
//! links and tags, the site they form, and the HTML they are rendered to.
pub mod text;
pub mod syntax;
pub mod markdown;
pub mod git;
pub mod cell;
pub mod site;
pub mod render;
pub mod vars;
pub mod laws;
