//! Five-card poker hands: a card model, validated hands, and their classification.

pub mod card;
pub mod hand;
pub mod count;
pub mod classify;
pub mod deck;
pub mod analysis;
