//! Highlights the meaningful parts of fixed-width and delimited record files.
//!
//! A rule set says which columns, or which delimiter-separated fields, of a
//! line carry meaning. For every line the rules are resolved to regions, the
//! line is rendered with a boundary around every region, and the rendering is
//! written as HTML.
//!
//! - [`rules`]: the rules and the rule set.
//! - [`syntax`]: the parser of rule definitions.
//! - [`condition`]: the regular expressions that restrict rules to lines.
//! - [`search`]: delimiter positions in a line.
//! - [`regions`]: the region resolver.
//! - [`markup`]: the line renderer.
//! - [`html`]: the HTML form of a rendered line.
//! - [`palette`]: the colours.
//! - [`pipeline`]: one line from rules to HTML.
//! - [`diagnostics`]: what is reported on the way.
//! - [`laws`] and [`nesting`]: what holds of all of it.
//! - [`text`]: characters of strings.

pub mod condition;
pub mod diagnostics;
pub mod html;
pub mod laws;
pub mod markup;
pub mod nesting;
pub mod palette;
pub mod pipeline;
pub mod regions;
pub mod rules;
pub mod search;
pub mod syntax;
pub mod text;
