//! Front end of a small markup language with scoped `borrowable` / `borrow`
//! declarations: characters are cut into tokens, tokens are grouped into
//! depth-tagged nodes, and the nodes are checked for attribute placement and
//! for the use of borrowed elements.  Every stage is a pull-based producer and
//! is specified by the sequence of items it still has to hand out.
pub mod analyzer;
