//! The core of a language server for Tcl and Tk.
//!
//! A script is parsed by Tcl's own rules ([`grammar`], [`parser`], [`script`]), its
//! outline is found by walking the commands and the bodies inside them ([`walker`]),
//! and the outlines of all files make up an index ([`index`]) that the answers to a
//! client are drawn from ([`server`]). The database of builtin commands ([`kb`]) is
//! made from man pages ([`manpage`], [`database`]).
//!
//! Everything inside works in byte offsets; [`line_index`] turns them into positions
//! and back.
use vstd::prelude::*;

pub mod answers;
pub mod characters;
pub mod config;
pub mod cursor;
pub mod database;
pub mod discovery;
pub mod display;
pub mod document;
pub mod external;
pub mod findings;
pub mod grammar;
pub mod index;
pub mod kb;
pub mod limits;
pub mod line_index;
pub mod lookup;
pub mod lsp;
pub mod manpage;
pub mod nesting;
pub mod outline;
pub mod outside;
pub mod pages;
pub mod parser;
pub mod phrases;
pub mod placement;
pub mod reading;
pub mod script;
pub mod selection;
pub mod semantic;
pub mod server;
pub mod spelling;
pub mod text;
pub mod token;
pub mod transport;
pub mod uri;
pub mod walker;
pub mod words;

pub use crate::document::Document;
pub use crate::index::{Completions, Def, FileIndex, Index, Loc};
pub use crate::line_index::{LineIndex, LinePos, PositionEncoding};
pub use crate::outline::{
    qualify, split_args, LinkKind, LinkRef, Outline, Provide, Ref, RefKind, Symbol, SymbolKind,
    SyntaxError, VarDef,
};
pub use crate::script::{command_complete, tcl_generation, CommandIter, Script};
pub use crate::selection::{command_at, selection_chain, Enclosing};
pub use crate::token::{Command, ParseError, Token, TokenKind};
pub use crate::uri::{path_to_uri, uri_to_path};
pub use crate::walker::outline;

verus! {

} // verus!
