//! Step-by-step flashcards: the card model, the step trees that multi-step
//! cards are made of, the outline import format and the review rules.

pub mod text;
pub mod models;
pub mod tree;
pub mod drafts;
pub mod outline;
pub mod review;
pub mod editor;
pub mod screens;
pub mod session;
pub mod keys;
pub mod cloze;
pub mod decks;
pub mod highlight;
pub mod markdown;
