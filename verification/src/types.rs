//! The entities of the game: cards, demons, configuration and errors.

use vstd::prelude::*;

verus! {

/// The flavour of a card. Card effects are a deliberate extension point; for
/// now a card's kind only identifies it to the presentation layer.
#[derive(Clone, Copy, Debug, PartialEq, Eq, Hash, Structural)]
pub enum CardKind {
    Angry,
    Inspired,
    Tired,
    Stressed,
    Satisfied,
    Proud,
    Determined,
    Peaceful,
    Dizzy,
    Hungover,
}

/// A card: an immutable identity (`id`, unique across all zones, never
/// reused) and a kind. Only a card's zone membership ever changes.
#[derive(Clone, Copy, Debug, PartialEq, Eq, Structural)]
pub struct Card {
    pub id: u32,
    pub kind: CardKind,
}

/// The fixed roster of adversaries: one demon of each kind per session.
#[derive(Clone, Copy, Debug, PartialEq, Eq, Structural)]
pub enum DemonKind {
    Fear,
    Despair,
    Doubt,
}

/// An adversary. `power` is the resolve damage dealt at end of turn while
/// unstunned; `stun_time` is the number of turns it still skips its attack.
#[derive(Clone, Copy, Debug, PartialEq, Eq, Structural)]
pub struct Demon {
    pub kind: DemonKind,
    pub power: u32,
    pub stun_time: u32,
}

/// The numbers a new game is built from, supplied by the host.
#[derive(Clone, Copy, Debug, PartialEq, Eq, Structural)]
pub struct GameConfig {
    pub starting_resolve: u32,
    pub starting_demon_power: u32,
    pub starting_demon_stun_time: u32,
}

/// A verb's failure. Every failure leaves the game state exactly as it was.
#[derive(Clone, Copy, Debug, PartialEq, Eq, Structural)]
pub enum GameError {
    /// The card id was not in the zone the verb expected it in.
    CardNotFound(u32),
    /// A draw was requested while both the deck and the discard pile were
    /// empty.
    NoCardsAvailable,
}

} // verus!
