use vstd::prelude::*;

pub mod unit;
pub mod document;
pub mod relocation;
pub mod components;
pub mod text;
pub mod wrap;
pub mod history;
pub mod ordering;
pub mod commands;
pub mod pixel;
pub mod watcher;
pub mod blend;
pub mod appearance;
pub mod barcode;
pub mod boolean;
pub mod tool;
pub mod path;
pub mod kinds;
pub mod envelope;
pub mod print;
pub mod qr;
pub mod ligatures;
pub mod lsystem;
pub mod diff;
pub mod compare;
pub mod matching;
pub mod fonts;
pub mod variations;
pub mod effects;
pub mod timeline;
pub mod trace;

verus! {
} // verus!
