//! A single-player, turn-based card game engine.
//!
//! The library owns the four card zones (deck, hand, discard pile, in-play
//! area), the demon roster and the player's resolve counter, and exposes the
//! turn verbs: draw, discard, play, gain and end-turn.

mod engine;
mod laws;
mod shuffle;
mod types;

pub use engine::CardGameModel;
pub use engine::attack_of;
pub use engine::clamped_sub;
pub use engine::demon_tick;
pub use engine::has_card_id;
pub use engine::ids_of;
pub use engine::lemma_total_attack_nonneg;
pub use engine::roster_of;
pub use engine::starter_deck;
pub use engine::tick_all;
pub use engine::total_attack;
pub use laws::lemma_conservation;
pub use laws::lemma_id_uniqueness;
pub use laws::lemma_zone_ownership_unique;
pub use types::Card;
pub use types::CardKind;
pub use types::Demon;
pub use types::DemonKind;
pub use types::GameConfig;
pub use types::GameError;
