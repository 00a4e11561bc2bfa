//! A personal-wiki backend: notes are Markdown files with YAML frontmatter
//! under one wiki root directory.  The library models note identity and
//! paths, the algebra of relative links between notes, frontmatter
//! extraction, tag indexing, link-graph exploration, and the rewriting of
//! marker-delimited autogenerated sections inside note bodies.  The editor
//! shell around it only reads and writes buffers and files.

pub mod config;
pub mod strutil;
pub mod paths;
pub mod note;
pub mod links;
pub mod markdown;
pub mod frontmatter;
pub mod autogen;
pub mod sorting;
pub mod tagindex;
pub mod ops;
