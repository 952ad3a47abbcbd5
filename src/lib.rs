//! Safety-checked relocation of package definitions into a sharded unit
//! directory: path-reference resolution, the reference graph over a source
//! tree, the top-level declarations catalog and its concrete-syntax editor,
//! the closure analysis that decides whether a package may move, and the
//! validator of the destination store.
pub mod args;
pub mod line_index;
pub mod path;
pub mod index;
pub mod syntax;
pub mod extract;
pub mod closure;
pub mod all_packages;
pub mod editor;
pub mod unit;
pub mod migrate;
