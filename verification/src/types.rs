//! What a live session tells of a board, as far as it holds no measures.
use vstd::prelude::*;

verus! {

/// The title block of a board.
#[derive(Debug, Clone)]
pub struct IpcTitleBlock {
    pub title: String,
    pub date: String,
    pub revision: String,
    pub company: String,
}

/// A net of a board.
#[derive(Debug, Clone)]
pub struct IpcNet {
    pub name: String,
    pub netcode: i32,
}

/// A layer of a board.
#[derive(Debug, Clone)]
pub struct IpcLayer {
    pub name: String,
    pub id: i32,
    pub kind: String,
}

} // verus!
