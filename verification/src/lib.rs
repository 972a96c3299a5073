//! The rules behind a set of Markdown extensions, with their proofs.
//!
//! The heart of the crate finds autolinks as GitHub-flavoured Markdown has
//! them: `autolinks` matches a link at the start of a text or at an index,
//! `scanner` finds links from the anchor characters `w`, `:` and `@` inside a
//! text, and `url`, `www`, `email` and `utils` hold the matchers and the two
//! passes that they share. `text` and `ctype` carry the UTF-8 bookkeeping and
//! the character classes.
//!
//! The other modules hold what the extensions for footnotes, task lists,
//! definition lists, front matter, heading anchors and slugs decide about
//! text, and `fixture` reads the fixture files that test them.

pub mod autolinks;
pub mod ctype;
pub mod deflist;
pub mod email;
pub mod fixture;
pub mod footnote;
pub mod front_matter;
pub mod heading_anchors;
pub mod scanner;
pub mod slugger;
pub mod tasklist;
pub mod text;
pub mod url;
pub mod utils;
pub mod www;
