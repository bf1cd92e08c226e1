use inner_demons::Card;
use inner_demons::CardGameModel;
use inner_demons::CardKind;
use inner_demons::DemonKind;
use inner_demons::GameConfig;
use inner_demons::GameError;

fn config(resolve: u32, power: u32, stun: u32) -> GameConfig {
    GameConfig {
        starting_resolve: resolve,
        starting_demon_power: power,
        starting_demon_stun_time: stun,
    }
}

fn three_demons() -> Vec<DemonKind> {
    vec![DemonKind::Fear, DemonKind::Despair, DemonKind::Doubt]
}

fn ten_cards() -> Vec<CardKind> {
    vec![
        CardKind::Inspired,
        CardKind::Inspired,
        CardKind::Inspired,
        CardKind::Peaceful,
        CardKind::Peaceful,
        CardKind::Peaceful,
        CardKind::Peaceful,
        CardKind::Peaceful,
        CardKind::Peaceful,
        CardKind::Peaceful,
    ]
}

fn all_ids(game: &CardGameModel) -> Vec<u32> {
    let mut ids: Vec<u32> = Vec::new();
    for zone in [&game.deck, &game.discard_pile, &game.hand, &game.in_play] {
        for card in zone.iter() {
            ids.push(card.id);
        }
    }
    ids
}

#[test]
fn new_deal_fills_hand() {
    let game = CardGameModel::new(three_demons(), ten_cards(), &config(30, 1, 0), 42);
    assert_eq!(game.hand.len(), 5);
    assert_eq!(game.deck.len(), 5);
    assert_eq!(game.discard_pile.len(), 0);
    assert_eq!(game.in_play.len(), 0);
    assert_eq!(game.player_resolve, 30);
    assert_eq!(game.next_card_id, 10);
    assert_eq!(game.demons.len(), 3);
    for demon in game.demons.iter() {
        assert_eq!(demon.power, 1);
        assert_eq!(demon.stun_time, 0);
    }
}

#[test]
fn new_with_small_deck_deals_what_there_is() {
    let game = CardGameModel::new(
        three_demons(),
        vec![CardKind::Angry, CardKind::Tired, CardKind::Dizzy],
        &config(10, 1, 0),
        7,
    );
    assert_eq!(game.hand.len(), 3);
    assert_eq!(game.deck.len(), 0);
}

#[test]
fn end_to_end_scenario() {
    let mut game = CardGameModel::new(three_demons(), ten_cards(), &config(30, 1, 0), 42);
    assert_eq!(game.hand.len(), 5);
    assert_eq!(game.deck.len(), 5);
    let first = game.hand[0].id;
    assert!(game.play(first).is_ok());
    assert_eq!(game.in_play.len(), 1);
    assert_eq!(game.hand.len(), 4);
    game.end_turn();
    assert_eq!(game.in_play.len(), 0);
    assert_eq!(game.discard_pile.len(), 1);
    assert_eq!(game.discard_pile[0].id, first);
    assert_eq!(game.player_resolve, 27);
    assert_eq!(game.hand.len(), 5);
    assert_eq!(game.deck.len(), 4);
}

#[test]
fn demon_attack_determinism() {
    let mut game = CardGameModel::new(vec![DemonKind::Fear], ten_cards(), &config(20, 5, 0), 3);
    game.end_turn();
    assert_eq!(game.player_resolve, 15);
}

#[test]
fn stun_decrement() {
    let mut game = CardGameModel::new(vec![DemonKind::Doubt], ten_cards(), &config(20, 4, 2), 3);
    game.end_turn();
    assert_eq!(game.demons[0].stun_time, 1);
    assert_eq!(game.player_resolve, 20);
    game.end_turn();
    assert_eq!(game.demons[0].stun_time, 0);
    assert_eq!(game.player_resolve, 20);
    game.end_turn();
    assert_eq!(game.demons[0].stun_time, 0);
    assert_eq!(game.player_resolve, 16);
}

#[test]
fn resolve_floor() {
    let mut game = CardGameModel::new(vec![DemonKind::Despair], ten_cards(), &config(3, 10, 0), 9);
    game.end_turn();
    assert_eq!(game.player_resolve, 0);
}

#[test]
fn attacks_sum_across_unstunned_demons() {
    let mut game = CardGameModel::new(three_demons(), ten_cards(), &config(30, 2, 0), 5);
    game.end_turn();
    assert_eq!(game.player_resolve, 24);
}

#[test]
fn draw_takes_the_top_of_the_deck() {
    let mut game = CardGameModel::new(three_demons(), ten_cards(), &config(30, 1, 0), 42);
    let top: Card = *game.deck.last().unwrap();
    let hand_before = game.hand.len();
    assert!(game.draw().is_ok());
    assert_eq!(game.hand.len(), hand_before + 1);
    let drawn = game.hand.last().unwrap();
    assert_eq!(drawn.id, top.id);
    assert_eq!(drawn.kind, top.kind);
    assert_eq!(game.deck.len(), 4);
}

#[test]
fn draw_reshuffles_discard_into_deck() {
    let mut game = CardGameModel::new(three_demons(), ten_cards(), &config(30, 1, 0), 42);
    for _ in 0..5 {
        assert!(game.draw().is_ok());
    }
    assert_eq!(game.hand.len(), 10);
    assert_eq!(game.deck.len(), 0);
    let mut discarded: Vec<u32> = Vec::new();
    for _ in 0..3 {
        let id = game.hand[0].id;
        assert!(game.discard(id).is_ok());
        discarded.push(id);
    }
    assert_eq!(game.discard_pile.len(), 3);
    assert!(game.draw().is_ok());
    assert_eq!(game.discard_pile.len(), 0);
    assert_eq!(game.hand.len(), 8);
    assert_eq!(game.deck.len(), 2);
    let mut recycled: Vec<u32> = game.deck.iter().map(|c| c.id).collect();
    recycled.push(game.hand.last().unwrap().id);
    recycled.sort();
    discarded.sort();
    assert_eq!(recycled, discarded);
}

#[test]
fn draw_with_no_cards_anywhere_is_an_error() {
    let mut game = CardGameModel::new(three_demons(), Vec::new(), &config(30, 1, 0), 1);
    assert_eq!(game.hand.len(), 0);
    assert_eq!(game.draw(), Err(GameError::NoCardsAvailable));
    assert_eq!(game.hand.len(), 0);
    assert_eq!(game.deck.len(), 0);
}

#[test]
fn discard_unknown_id_is_an_error() {
    let mut game = CardGameModel::new(three_demons(), ten_cards(), &config(30, 1, 0), 42);
    assert_eq!(game.discard(9999), Err(GameError::CardNotFound(9999)));
    assert_eq!(game.hand.len(), 5);
    assert_eq!(game.discard_pile.len(), 0);
}

#[test]
fn play_needs_the_card_in_hand() {
    let mut game = CardGameModel::new(three_demons(), ten_cards(), &config(30, 1, 0), 42);
    // A card sitting in the deck cannot be played from the hand.
    let deck_id = game.deck[0].id;
    assert_eq!(game.play(deck_id), Err(GameError::CardNotFound(deck_id)));
    assert_eq!(game.in_play.len(), 0);
    assert_eq!(game.hand.len(), 5);
}

#[test]
fn discard_moves_the_card_to_the_pile_top() {
    let mut game = CardGameModel::new(three_demons(), ten_cards(), &config(30, 1, 0), 42);
    let id = game.hand[2].id;
    assert!(game.discard(id).is_ok());
    assert_eq!(game.hand.len(), 4);
    assert_eq!(game.discard_pile.len(), 1);
    assert_eq!(game.discard_pile.last().unwrap().id, id);
    // The id is gone from the hand.
    assert!(game.hand.iter().all(|c| c.id != id));
}

#[test]
fn gain_goes_to_the_discard_pile() {
    let mut game = CardGameModel::new(three_demons(), ten_cards(), &config(30, 1, 0), 42);
    game.gain(CardKind::Hungover);
    assert_eq!(game.discard_pile.len(), 1);
    let gained = game.discard_pile.last().unwrap();
    assert_eq!(gained.id, 10);
    assert_eq!(gained.kind, CardKind::Hungover);
    assert_eq!(game.next_card_id, 11);
    assert_eq!(game.hand.len(), 5);
    assert_eq!(game.deck.len(), 5);
}

#[test]
fn gained_card_surfaces_on_reshuffle() {
    let mut game = CardGameModel::new(three_demons(), Vec::new(), &config(30, 1, 0), 1);
    game.gain(CardKind::Proud);
    assert_eq!(game.deck.len(), 0);
    assert!(game.draw().is_ok());
    assert_eq!(game.hand.len(), 1);
    assert_eq!(game.hand[0].kind, CardKind::Proud);
    assert_eq!(game.discard_pile.len(), 0);
}

#[test]
fn hand_at_five_is_left_alone_by_end_turn() {
    let mut game = CardGameModel::new(three_demons(), ten_cards(), &config(30, 1, 0), 42);
    let before: Vec<u32> = game.hand.iter().map(|c| c.id).collect();
    game.end_turn();
    let after: Vec<u32> = game.hand.iter().map(|c| c.id).collect();
    assert_eq!(before, after);
    assert_eq!(game.deck.len(), 5);
}

#[test]
fn end_turn_stops_drawing_when_everything_is_empty() {
    let mut game = CardGameModel::new(
        three_demons(),
        vec![CardKind::Satisfied, CardKind::Stressed],
        &config(30, 1, 0),
        8,
    );
    assert_eq!(game.hand.len(), 2);
    game.end_turn();
    assert_eq!(game.hand.len(), 2);
    assert_eq!(game.deck.len(), 0);
    assert_eq!(game.discard_pile.len(), 0);
    assert_eq!(game.player_resolve, 27);
}

#[test]
fn same_seed_gives_the_same_deal() {
    let a = CardGameModel::new(three_demons(), ten_cards(), &config(30, 1, 0), 123);
    let b = CardGameModel::new(three_demons(), ten_cards(), &config(30, 1, 0), 123);
    let deck_a: Vec<u32> = a.deck.iter().map(|c| c.id).collect();
    let deck_b: Vec<u32> = b.deck.iter().map(|c| c.id).collect();
    assert_eq!(deck_a, deck_b);
    let hand_a: Vec<u32> = a.hand.iter().map(|c| c.id).collect();
    let hand_b: Vec<u32> = b.hand.iter().map(|c| c.id).collect();
    assert_eq!(hand_a, hand_b);
}

#[test]
fn shuffle_actually_reorders_some_deal() {
    // Across a handful of seeds at least one deal must differ from the
    // unshuffled id order; a shuffle that hands its input back unchanged
    // would fail this.
    let mut saw_reordered = false;
    for seed in 0..8u64 {
        let game = CardGameModel::new(three_demons(), ten_cards(), &config(30, 1, 0), seed);
        // An unshuffled deck [0..9] would deal deck [0..4] and hand
        // [9, 8, 7, 6, 5], so deck followed by the hand reversed would read
        // 0..9 in order.
        let mut ids: Vec<u32> = game.deck.iter().map(|c| c.id).collect();
        ids.extend(game.hand.iter().rev().map(|c| c.id));
        if ids != (0..10).collect::<Vec<u32>>() {
            saw_reordered = true;
        }
    }
    assert!(saw_reordered);
}

#[test]
fn ids_stay_unique_and_conserved_across_verbs() {
    let mut game = CardGameModel::new(three_demons(), ten_cards(), &config(30, 2, 1), 77);
    let first = game.hand[0].id;
    assert!(game.play(first).is_ok());
    game.gain(CardKind::Determined);
    let second = game.hand[0].id;
    assert!(game.discard(second).is_ok());
    game.end_turn();
    assert!(game.draw().is_ok());
    game.end_turn();
    let mut ids = all_ids(&game);
    assert_eq!(ids.len() as u32, game.next_card_id);
    ids.sort();
    ids.dedup();
    assert_eq!(ids.len() as u32, game.next_card_id);
}
