//! A source-to-source module bundler. From the path of an entry file it
//! discovers the local modules that the entry reaches through its imports,
//! rewrites the import and export statements of each module into calls of a
//! loader and assignments to an exported-values container, and links the
//! modules into one script that runs without a module system.
//!
//! The library reads, parses and writes no file. [`resolver`] says which file
//! it needs next and takes its text with the syntax tree of the text;
//! [`builder`] runs a whole build on files that are held in memory and returns
//! the text of the bundle.
//!
//! - [`syntax`]: the syntax tree of a module text, as a list of its nodes
//! - [`parser`]: the import specifiers of a module
//! - [`paths`]: the canonical path that an import specifier names
//! - [`resolver`]: the graph of the modules that an entry reaches
//! - [`transform`]: the rewriting of the interface of a module
//! - [`linker`]: the module table and the loader around it
//! - [`builder`]: all of these in a row
//! - [`graph`], [`text`], [`error`]: what the others share

pub mod builder;
pub mod error;
pub mod graph;
pub mod linker;
pub mod parser;
pub mod paths;
pub mod resolver;
pub mod syntax;
pub mod text;
pub mod transform;
