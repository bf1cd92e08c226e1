//! The game state and the turn engine: the four card zones, the demon
//! roster, the player's resolve, and the verbs that move the game forward.

use vstd::prelude::*;
use vstd::multiset::Multiset;
use vstd::seq_lib::group_to_multiset_ensures;
use vstd::seq_lib::lemma_multiset_commutative;

use crate::shuffle::rng_from_seed;
use crate::shuffle::shuffle_cards;
use crate::types::Card;
use crate::types::CardKind;
use crate::types::Demon;
use crate::types::DemonKind;
use crate::types::GameConfig;
use crate::types::GameError;

verus! {

/// The ids of a zone's cards, in zone order.
pub open spec fn ids_of(s: Seq<Card>) -> Seq<u32> {
    s.map_values(|c: Card| c.id)
}

/// The whole game state. The four zones are disjoint ordered sequences of
/// cards; the top of the deck and of the discard pile is the last element.
pub struct CardGameModel {
    /// The fixed adversary roster, created once at game start.
    pub demons: Vec<Demon>,
    /// The player's resource; zero is the loss condition.
    pub player_resolve: u32,
    pub deck: Vec<Card>,
    pub discard_pile: Vec<Card>,
    pub hand: Vec<Card>,
    pub in_play: Vec<Card>,
    /// Monotonic id allocator for newly gained cards; ids are never reused.
    pub next_card_id: u32,
    /// The shuffle's generator, seeded once at construction.
    pub rng: rand::rngs::StdRng,
}

impl CardGameModel {
    /// Every card the game owns, over all four zones.
    pub open spec fn all_cards(self) -> Seq<Card> {
        self.deck@ + self.discard_pile@ + self.hand@ + self.in_play@
    }

    /// The multiset of card ids over all four zones.
    pub open spec fn id_mset(self) -> Multiset<u32> {
        ids_of(self.all_cards()).to_multiset()
    }

    /// The multiset of the cards themselves over all four zones.
    pub open spec fn card_mset(self) -> Multiset<Card> {
        self.all_cards().to_multiset()
    }

    /// How many cards the game owns in total.
    pub open spec fn total_cards(self) -> nat {
        self.all_cards().len()
    }

    /// The zone invariant: no id occurs twice, every id was allocated by the
    /// counter, and no allocated id has been lost -- the ids held are exactly
    /// those below `next_card_id`.
    pub open spec fn wf(self) -> bool {
        &&& forall|id: u32| #[trigger] self.id_mset().count(id) <= 1
        &&& forall|id: u32| id >= self.next_card_id ==> #[trigger] self.id_mset().count(id) == 0
        &&& self.id_mset().len() == self.next_card_id
    }
}

/// Mapping to ids commutes with concatenation.
proof fn lemma_ids_of_concat(a: Seq<Card>, b: Seq<Card>)
    ensures
        ids_of(a + b) == ids_of(a) + ids_of(b),
{
    assert(ids_of(a + b) =~= ids_of(a) + ids_of(b));
}

/// Mapping to ids commutes with appending one card.
proof fn lemma_ids_of_push(s: Seq<Card>, c: Card)
    ensures
        ids_of(s.push(c)) == ids_of(s).push(c.id),
{
    assert(ids_of(s.push(c)) =~= ids_of(s).push(c.id));
}

/// Mapping to ids commutes with removing one card.
proof fn lemma_ids_of_remove(s: Seq<Card>, i: int)
    requires
        0 <= i < s.len(),
    ensures
        ids_of(s.remove(i)) == ids_of(s).remove(i),
{
    assert(ids_of(s.remove(i)) =~= ids_of(s).remove(i));
}

/// The state's id multiset, zone by zone.
pub(crate) proof fn lemma_id_mset_parts(s: CardGameModel)
    ensures
        s.id_mset() == ids_of(s.deck@).to_multiset().add(
            ids_of(s.discard_pile@).to_multiset(),
        ).add(ids_of(s.hand@).to_multiset()).add(ids_of(s.in_play@).to_multiset()),
{
    broadcast use lemma_multiset_commutative;

    lemma_ids_of_concat(s.deck@ + s.discard_pile@ + s.hand@, s.in_play@);
    lemma_ids_of_concat(s.deck@ + s.discard_pile@, s.hand@);
    lemma_ids_of_concat(s.deck@, s.discard_pile@);
}

/// The state's card multiset, zone by zone.
pub(crate) proof fn lemma_card_mset_parts(s: CardGameModel)
    ensures
        s.card_mset() == s.deck@.to_multiset().add(s.discard_pile@.to_multiset()).add(
            s.hand@.to_multiset(),
        ).add(s.in_play@.to_multiset()),
{
    broadcast use lemma_multiset_commutative;

}

/// The invariant depends only on the id multiset and the counter: a state
/// that keeps both keeps the invariant.
proof fn lemma_wf_same_mset(pre: CardGameModel, post: CardGameModel)
    requires
        pre.wf(),
        post.id_mset() == pre.id_mset(),
        post.next_card_id == pre.next_card_id,
    ensures
        post.wf(),
{
}

/// Allocating the counter's id keeps the invariant and advances the counter.
proof fn lemma_wf_insert_next(pre: CardGameModel, post: CardGameModel)
    requires
        pre.wf(),
        pre.next_card_id < u32::MAX,
        post.id_mset() == pre.id_mset().insert(pre.next_card_id),
        post.next_card_id == pre.next_card_id + 1,
    ensures
        post.wf(),
{
    assert forall|id: u32| #[trigger] post.id_mset().count(id) <= 1 by {
        assert(pre.id_mset().count(id) <= 1);
        assert(pre.id_mset().count(pre.next_card_id) == 0);
    }
    assert forall|id: u32| id >= post.next_card_id implies #[trigger] post.id_mset().count(id)
        == 0 by {
        assert(pre.id_mset().count(id) == 0);
    }
}

/// One demon at the end of a turn: a stunned demon sits the turn out and
/// its stun ticks down by one; an unstunned demon is unchanged.
pub open spec fn demon_tick(d: Demon) -> Demon {
    if d.stun_time > 0 {
        Demon { kind: d.kind, power: d.power, stun_time: (d.stun_time - 1) as u32 }
    } else {
        d
    }
}

/// The whole roster at the end of a turn.
pub open spec fn tick_all(ds: Seq<Demon>) -> Seq<Demon> {
    ds.map_values(|d: Demon| demon_tick(d))
}

/// The damage one demon deals this turn: its power if unstunned, else none.
pub open spec fn attack_of(d: Demon) -> int {
    if d.stun_time == 0 {
        d.power as int
    } else {
        0
    }
}

/// The damage the roster deals this turn: the sum over unstunned demons.
pub open spec fn total_attack(ds: Seq<Demon>) -> int
    decreases ds.len(),
{
    if ds.len() == 0 {
        0
    } else {
        total_attack(ds.drop_last()) + attack_of(ds.last())
    }
}

/// A roster never deals negative damage.
pub proof fn lemma_total_attack_nonneg(ds: Seq<Demon>)
    ensures
        total_attack(ds) >= 0,
    decreases ds.len(),
{
    if ds.len() > 0 {
        lemma_total_attack_nonneg(ds.drop_last());
    }
}

/// Resolve after taking damage, floored at zero rather than wrapping.
pub open spec fn clamped_sub(resolve: u32, damage: int) -> u32 {
    if resolve >= damage {
        (resolve - damage) as u32
    } else {
        0
    }
}

/// The demon roster a new game starts with: one demon per requested kind,
/// all with the configured power and stun time.
pub open spec fn roster_of(kinds: Seq<DemonKind>, power: u32, stun_time: u32) -> Seq<Demon> {
    kinds.map_values(|k: DemonKind| (Demon { kind: k, power: power, stun_time: stun_time }))
}

/// The deck a new game starts with, before its shuffle: one card per
/// requested kind, ids handed out in order from zero.
pub open spec fn starter_deck(kinds: Seq<CardKind>) -> Seq<Card> {
    Seq::new(kinds.len(), |i: int| (Card { id: i as u32, kind: kinds[i] }))
}

/// A state holding exactly a fresh starter deck, with the counter at the
/// deck's size, satisfies the zone invariant.
proof fn lemma_new_deck_wf(s: CardGameModel, kinds: Seq<CardKind>)
    requires
        kinds.len() <= u32::MAX,
        s.all_cards() == starter_deck(kinds),
        s.next_card_id == kinds.len() as u32,
    ensures
        s.wf(),
{
    broadcast use group_to_multiset_ensures, vstd::multiset::group_multiset_axioms;

    let ids = ids_of(starter_deck(kinds));
    assert(forall|t: int| 0 <= t < ids.len() ==> ids[t] == t as u32);
    assert(ids.no_duplicates()) by {
        assert forall|a: int, b: int|
            0 <= a < ids.len() && 0 <= b < ids.len() && a != b implies ids[a] != ids[b] by {
            assert(ids[a] == a as u32 && ids[b] == b as u32);
        }
    }
    ids.lemma_multiset_has_no_duplicates();
    assert forall|id: u32| #[trigger] s.id_mset().count(id) <= 1 by {
        if ids.to_multiset().count(id) > 0 {
            assert(ids.contains(id));
            assert(ids.to_multiset().count(id) == 1);
        }
    }
    assert forall|id: u32| id >= s.next_card_id implies #[trigger] s.id_mset().count(id) == 0 by {
        if ids.to_multiset().count(id) > 0 {
            assert(ids.contains(id));
            let t = choose|t: int| 0 <= t < ids.len() && ids[t] == id;
            assert(id == t as u32);
            assert(false);
        }
    }
    assert(s.id_mset().len() == ids.len());
}

/// Whether some card in the zone carries the given id.
pub open spec fn has_card_id(s: Seq<Card>, card_id: u32) -> bool {
    exists|i: int| 0 <= i < s.len() && s[i].id == card_id
}

/// Taking one card out of one zone and appending it to another keeps the
/// state's id multiset.
proof fn lemma_move_keeps_mset(from: Seq<Card>, i: int, to: Seq<Card>)
    requires
        0 <= i < from.len(),
    ensures
        ids_of(from.remove(i)).to_multiset().add(ids_of(to.push(from[i])).to_multiset())
            == ids_of(from).to_multiset().add(ids_of(to).to_multiset()),
{
    broadcast use group_to_multiset_ensures;

    lemma_ids_of_remove(from, i);
    lemma_ids_of_push(to, from[i]);
    assert(ids_of(from)[i] == from[i].id);
    assert(ids_of(from).to_multiset().count(from[i].id) > 0) by {
        assert(ids_of(from).contains(from[i].id));
    }
    assert(ids_of(from.remove(i)).to_multiset().add(ids_of(to.push(from[i])).to_multiset())
        =~= ids_of(from).to_multiset().add(ids_of(to).to_multiset()));
}

/// Taking one card out of one zone and appending it to another keeps the
/// state's card multiset.
proof fn lemma_move_keeps_cards(from: Seq<Card>, i: int, to: Seq<Card>)
    requires
        0 <= i < from.len(),
    ensures
        from.remove(i).to_multiset().add(to.push(from[i]).to_multiset()) == from.to_multiset().add(
            to.to_multiset(),
        ),
{
    broadcast use group_to_multiset_ensures;

    assert(from.to_multiset().count(from[i]) > 0) by {
        assert(from.contains(from[i]));
    }
    assert(from.remove(i).to_multiset().add(to.push(from[i]).to_multiset())
        =~= from.to_multiset().add(to.to_multiset()));
}

impl CardGameModel {
    /// Builds a new game: the demon roster and the player's resolve come
    /// from the configuration, the starting deck holds one card per starter
    /// kind with freshly allocated ids, the deck is shuffled, and five cards
    /// are dealt into the hand -- fewer if the starting deck is smaller.
    /// The seed fixes the shuffle order, so a session can be replayed.
    pub fn new(
        demons: Vec<DemonKind>,
        starter_cards: Vec<CardKind>,
        config: &GameConfig,
        seed: u64,
    ) -> (game: CardGameModel)
        requires
            starter_cards@.len() <= u32::MAX,
        ensures
            game.wf(),
            game.demons@ == roster_of(
                demons@,
                config.starting_demon_power,
                config.starting_demon_stun_time,
            ),
            game.player_resolve == config.starting_resolve,
            game.next_card_id == starter_cards@.len() as u32,
            game.card_mset() == starter_deck(starter_cards@).to_multiset(),
            game.total_cards() == starter_cards@.len(),
            game.discard_pile@.len() == 0,
            game.in_play@.len() == 0,
            game.hand@.len() == (if starter_cards@.len() >= 5 {
                5nat
            } else {
                starter_cards@.len()
            }),
            game.deck@.len() == starter_cards@.len() - game.hand@.len(),
    {
        let power = config.starting_demon_power;
        let stun_time = config.starting_demon_stun_time;
        let mut roster: Vec<Demon> = Vec::new();
        let mut i: usize = 0;
        while i < demons.len()
            invariant
                i <= demons@.len(),
                roster@ == roster_of(demons@, power, stun_time).take(i as int),
            decreases demons@.len() - i,
        {
            roster.push(Demon { kind: demons[i], power, stun_time });
            proof {
                assert(roster_of(demons@, power, stun_time).take(i as int + 1) =~= roster_of(
                    demons@,
                    power,
                    stun_time,
                ).take(i as int).push((Demon { kind: demons@[i as int], power, stun_time })));
            }
            i = i + 1;
        }
        proof {
            assert(roster_of(demons@, power, stun_time).take(demons@.len() as int) =~= roster_of(
                demons@,
                power,
                stun_time,
            ));
        }
        let mut deck: Vec<Card> = Vec::new();
        let mut j: usize = 0;
        while j < starter_cards.len()
            invariant
                j <= starter_cards@.len(),
                starter_cards@.len() <= u32::MAX,
                deck@ == starter_deck(starter_cards@).take(j as int),
            decreases starter_cards@.len() - j,
        {
            deck.push(Card { id: j as u32, kind: starter_cards[j] });
            proof {
                assert(starter_deck(starter_cards@).take(j as int + 1) =~= starter_deck(
                    starter_cards@,
                ).take(j as int).push((Card { id: j as u32, kind: starter_cards@[j as int] })));
            }
            j = j + 1;
        }
        let mut game = CardGameModel {
            demons: roster,
            player_resolve: config.starting_resolve,
            deck,
            discard_pile: Vec::new(),
            hand: Vec::new(),
            in_play: Vec::new(),
            next_card_id: starter_cards.len() as u32,
            rng: rng_from_seed(seed),
        };
        proof {
            broadcast use group_to_multiset_ensures, vstd::multiset::group_multiset_axioms;

            assert(game.all_cards() =~= starter_deck(starter_cards@));
            lemma_new_deck_wf(game, starter_cards@);
        }
        let ghost before = game;
        shuffle_cards(&mut game.rng, &mut game.deck);
        let ghost base = game;
        proof {
            broadcast use group_to_multiset_ensures, vstd::multiset::group_multiset_axioms;

            lemma_id_mset_parts(before);
            lemma_id_mset_parts(game);
            assert forall|x: u32| game.id_mset().count(x) == before.id_mset().count(x) by {
                assert(ids_of(game.deck@).to_multiset().count(x) == ids_of(
                    before.deck@,
                ).to_multiset().count(x));
            }
            assert(game.id_mset() =~= before.id_mset());
            lemma_wf_same_mset(before, game);
            lemma_card_mset_parts(before);
            lemma_card_mset_parts(game);
            assert forall|c: Card| game.card_mset().count(c) == before.card_mset().count(c) by {
                assert(game.deck@.to_multiset().count(c) == before.deck@.to_multiset().count(c));
            }
            assert(game.card_mset() =~= before.card_mset());
            assert(before.card_mset() == starter_deck(starter_cards@).to_multiset());
        }
        let mut k: usize = 0;
        while k < 5
            invariant
                k <= 5,
                game.wf(),
                game.card_mset() == base.card_mset(),
                game.total_cards() == base.total_cards(),
                game.next_card_id == base.next_card_id,
                game.demons@ == base.demons@,
                game.player_resolve == base.player_resolve,
                game.discard_pile@.len() == 0,
                game.in_play@.len() == 0,
                game.deck@.len() + game.hand@.len() == game.total_cards(),
                game.hand@.len() == (if k as nat <= game.total_cards() {
                    k as nat
                } else {
                    game.total_cards()
                }),
            decreases 5 - k,
        {
            let _ = game.draw();
            k = k + 1;
        }
        proof {
            broadcast use group_to_multiset_ensures;

            assert(game.total_cards() == game.card_mset().len());
            assert(base.total_cards() == starter_deck(starter_cards@).len());
        }
        game
    }

    /// Starts a turn. The present rule set attaches no effect to the start
    /// of a turn; the verb is a hook for hosts and leaves the state as it
    /// is.
    pub fn start_turn(&mut self)
        ensures
            *final(self) == *old(self),
    {
    }

    /// The index of the card with the given id in the hand, if it is there.
    fn find_card_in_hand(&self, card_id: u32) -> (r: Option<usize>)
        ensures
            match r {
                Some(i) => i < self.hand@.len() && self.hand@[i as int].id == card_id,
                None => !has_card_id(self.hand@, card_id),
            },
    {
        let mut i: usize = 0;
        while i < self.hand.len()
            invariant
                i <= self.hand@.len(),
                forall|j: int| 0 <= j < i ==> self.hand@[j].id != card_id,
            decreases self.hand@.len() - i,
        {
            if self.hand[i].id == card_id {
                return Some(i);
            }
            i = i + 1;
        }
        None
    }

    /// Moves the card with the given id from the hand to the top of the
    /// discard pile. If the id is not in the hand -- whatever other zone may
    /// hold it -- nothing changes and `CardNotFound` comes back.
    pub fn discard(&mut self, card_id: u32) -> (r: Result<(), GameError>)
        requires
            old(self).wf(),
        ensures
            final(self).wf(),
            has_card_id(old(self).hand@, card_id) ==> r is Ok && (exists|i: int|
                {
                    &&& 0 <= i < old(self).hand@.len()
                    &&& old(self).hand@[i].id == card_id
                    &&& final(self).hand@ == old(self).hand@.remove(i)
                    &&& final(self).discard_pile@ == old(self).discard_pile@.push(
                        old(self).hand@[i],
                    )
                }),
            !has_card_id(old(self).hand@, card_id) ==> r == Err::<(), GameError>(
                GameError::CardNotFound(card_id),
            ) && *final(self) == *old(self),
            final(self).deck@ == old(self).deck@,
            final(self).in_play@ == old(self).in_play@,
            final(self).demons@ == old(self).demons@,
            final(self).player_resolve == old(self).player_resolve,
            final(self).next_card_id == old(self).next_card_id,
            final(self).id_mset() == old(self).id_mset(),
            final(self).card_mset() == old(self).card_mset(),
    {
        match self.find_card_in_hand(card_id) {
            None => Err(GameError::CardNotFound(card_id)),
            Some(i) => {
                let card = self.hand.remove(i);
                self.discard_pile.push(card);
                proof {
                    broadcast use vstd::multiset::group_multiset_axioms;

                    lemma_id_mset_parts(*old(self));
                    lemma_id_mset_parts(*self);
                    lemma_move_keeps_mset(old(self).hand@, i as int, old(self).discard_pile@);
                    assert forall|x: u32| self.id_mset().count(x) == old(self).id_mset().count(
                        x,
                    ) by {
                        assert(ids_of(self.hand@).to_multiset().add(
                            ids_of(self.discard_pile@).to_multiset(),
                        ).count(x) == ids_of(old(self).hand@).to_multiset().add(
                            ids_of(old(self).discard_pile@).to_multiset(),
                        ).count(x));
                    }
                    assert(self.id_mset() =~= old(self).id_mset());
                    lemma_wf_same_mset(*old(self), *self);
                    lemma_card_mset_parts(*old(self));
                    lemma_card_mset_parts(*self);
                    lemma_move_keeps_cards(old(self).hand@, i as int, old(self).discard_pile@);
                    assert forall|c: Card| self.card_mset().count(c) == old(self).card_mset().count(
                        c,
                    ) by {
                        assert(self.hand@.to_multiset().add(
                            self.discard_pile@.to_multiset(),
                        ).count(c) == old(self).hand@.to_multiset().add(
                            old(self).discard_pile@.to_multiset(),
                        ).count(c));
                    }
                    assert(self.card_mset() =~= old(self).card_mset());
                }
                Ok(())
            },
        }
    }

    /// Moves the card with the given id from the hand to the in-play area.
    /// Card effects keyed by kind are a deliberate extension point; for now
    /// the zone transfer is the whole of the verb. If the id is not in the
    /// hand, nothing changes and `CardNotFound` comes back.
    pub fn play(&mut self, card_id: u32) -> (r: Result<(), GameError>)
        requires
            old(self).wf(),
        ensures
            final(self).wf(),
            has_card_id(old(self).hand@, card_id) ==> r is Ok && (exists|i: int|
                {
                    &&& 0 <= i < old(self).hand@.len()
                    &&& old(self).hand@[i].id == card_id
                    &&& final(self).hand@ == old(self).hand@.remove(i)
                    &&& final(self).in_play@ == old(self).in_play@.push(old(self).hand@[i])
                }),
            !has_card_id(old(self).hand@, card_id) ==> r == Err::<(), GameError>(
                GameError::CardNotFound(card_id),
            ) && *final(self) == *old(self),
            final(self).deck@ == old(self).deck@,
            final(self).discard_pile@ == old(self).discard_pile@,
            final(self).demons@ == old(self).demons@,
            final(self).player_resolve == old(self).player_resolve,
            final(self).next_card_id == old(self).next_card_id,
            final(self).id_mset() == old(self).id_mset(),
            final(self).card_mset() == old(self).card_mset(),
    {
        match self.find_card_in_hand(card_id) {
            None => Err(GameError::CardNotFound(card_id)),
            Some(i) => {
                let card = self.hand.remove(i);
                self.in_play.push(card);
                proof {
                    broadcast use vstd::multiset::group_multiset_axioms;

                    lemma_id_mset_parts(*old(self));
                    lemma_id_mset_parts(*self);
                    lemma_move_keeps_mset(old(self).hand@, i as int, old(self).in_play@);
                    assert forall|x: u32| self.id_mset().count(x) == old(self).id_mset().count(
                        x,
                    ) by {
                        assert(ids_of(self.hand@).to_multiset().add(
                            ids_of(self.in_play@).to_multiset(),
                        ).count(x) == ids_of(old(self).hand@).to_multiset().add(
                            ids_of(old(self).in_play@).to_multiset(),
                        ).count(x));
                    }
                    assert(self.id_mset() =~= old(self).id_mset());
                    lemma_wf_same_mset(*old(self), *self);
                    lemma_card_mset_parts(*old(self));
                    lemma_card_mset_parts(*self);
                    lemma_move_keeps_cards(old(self).hand@, i as int, old(self).in_play@);
                    assert forall|c: Card| self.card_mset().count(c) == old(self).card_mset().count(
                        c,
                    ) by {
                        assert(self.hand@.to_multiset().add(self.in_play@.to_multiset()).count(c)
                            == old(self).hand@.to_multiset().add(
                            old(self).in_play@.to_multiset(),
                        ).count(c));
                    }
                    assert(self.card_mset() =~= old(self).card_mset());
                }
                Ok(())
            },
        }
    }

    /// Moves the top card of the deck into the hand. If the deck is empty,
    /// the whole discard pile is first shuffled into the deck; if both are
    /// empty there is no legal card to draw and `NoCardsAvailable` comes
    /// back with nothing changed.
    pub fn draw(&mut self) -> (r: Result<(), GameError>)
        requires
            old(self).wf(),
        ensures
            final(self).wf(),
            final(self).next_card_id == old(self).next_card_id,
            final(self).demons@ == old(self).demons@,
            final(self).player_resolve == old(self).player_resolve,
            final(self).in_play@ == old(self).in_play@,
            final(self).id_mset() == old(self).id_mset(),
            final(self).card_mset() == old(self).card_mset(),
            final(self).total_cards() == old(self).total_cards(),
            old(self).deck@.len() > 0 ==> {
                &&& r is Ok
                &&& final(self).deck@ == old(self).deck@.drop_last()
                &&& final(self).hand@ == old(self).hand@.push(old(self).deck@.last())
                &&& final(self).discard_pile@ == old(self).discard_pile@
            },
            old(self).deck@.len() == 0 && old(self).discard_pile@.len() > 0 ==> {
                &&& r is Ok
                &&& final(self).discard_pile@.len() == 0
                &&& final(self).hand@ == old(self).hand@.push(final(self).hand@.last())
                &&& final(self).deck@.push(final(self).hand@.last()).to_multiset() == old(
                    self,
                ).discard_pile@.to_multiset()
                &&& final(self).deck@.len() + 1 == old(self).discard_pile@.len()
            },
            old(self).deck@.len() == 0 && old(self).discard_pile@.len() == 0 ==> r == Err::<
                (),
                GameError,
            >(GameError::NoCardsAvailable) && *final(self) == *old(self),
    {
        if self.deck.len() == 0 {
            if self.discard_pile.len() == 0 {
                return Err(GameError::NoCardsAvailable);
            }
            self.deck.append(&mut self.discard_pile);
            shuffle_cards(&mut self.rng, &mut self.deck);
            proof {
                broadcast use group_to_multiset_ensures, vstd::multiset::group_multiset_axioms;

                assert(old(self).deck@ + old(self).discard_pile@ =~= old(self).discard_pile@);
                lemma_id_mset_parts(*old(self));
                lemma_id_mset_parts(*self);
                assert forall|x: u32| self.id_mset().count(x) == old(self).id_mset().count(
                    x,
                ) by {
                    assert(ids_of(self.deck@).to_multiset().count(x) == ids_of(
                        old(self).discard_pile@,
                    ).to_multiset().count(x));
                    assert(ids_of(self.discard_pile@).to_multiset().count(x) == 0);
                    assert(ids_of(old(self).deck@).to_multiset().count(x) == 0);
                }
                assert(self.id_mset() =~= old(self).id_mset());
                lemma_card_mset_parts(*old(self));
                lemma_card_mset_parts(*self);
                assert forall|c: Card| self.card_mset().count(c) == old(self).card_mset().count(
                    c,
                ) by {
                    assert(self.deck@.to_multiset().count(c) == old(
                        self,
                    ).discard_pile@.to_multiset().count(c));
                    assert(self.discard_pile@.to_multiset().count(c) == 0);
                    assert(old(self).deck@.to_multiset().count(c) == 0);
                }
                assert(self.card_mset() =~= old(self).card_mset());
            }
        }
        let ghost mid = *self;
        let card = self.deck.pop().unwrap();
        self.hand.push(card);
        proof {
            broadcast use group_to_multiset_ensures, vstd::multiset::group_multiset_axioms;

            lemma_id_mset_parts(mid);
            lemma_id_mset_parts(*self);
            assert(mid.deck@ =~= self.deck@.push(card));
            lemma_ids_of_push(self.deck@, card);
            lemma_ids_of_push(mid.hand@, card);
            assert forall|x: u32| self.id_mset().count(x) == mid.id_mset().count(x) by {
                assert(ids_of(mid.deck@).to_multiset() == ids_of(
                    self.deck@,
                ).to_multiset().insert(card.id));
                assert(ids_of(self.hand@).to_multiset() == ids_of(
                    mid.hand@,
                ).to_multiset().insert(card.id));
            }
            assert(self.id_mset() =~= mid.id_mset());
            assert(mid.id_mset() == old(self).id_mset());
            lemma_wf_same_mset(*old(self), *self);
            lemma_card_mset_parts(mid);
            lemma_card_mset_parts(*self);
            assert forall|c: Card| self.card_mset().count(c) == mid.card_mset().count(c) by {
                assert(mid.deck@.to_multiset() == self.deck@.to_multiset().insert(card));
                assert(self.hand@.to_multiset() == mid.hand@.to_multiset().insert(card));
            }
            assert(self.card_mset() =~= mid.card_mset());
            assert(mid.card_mset() == old(self).card_mset());
        }
        Ok(())
    }

    /// Creates a card of the given kind directly into the discard pile; it
    /// surfaces the next time the discard pile is shuffled into the deck.
    pub fn gain(&mut self, kind: CardKind)
        requires
            old(self).wf(),
            old(self).next_card_id < u32::MAX,
        ensures
            final(self).wf(),
            final(self).next_card_id == old(self).next_card_id + 1,
            final(self).discard_pile@ == old(self).discard_pile@.push(
                Card { id: old(self).next_card_id, kind },
            ),
            final(self).deck@ == old(self).deck@,
            final(self).hand@ == old(self).hand@,
            final(self).in_play@ == old(self).in_play@,
            final(self).demons@ == old(self).demons@,
            final(self).player_resolve == old(self).player_resolve,
            final(self).card_mset() == old(self).card_mset().insert(
                Card { id: old(self).next_card_id, kind },
            ),
    {
        let card = Card { id: self.next_card_id, kind };
        self.discard_pile.push(card);
        self.next_card_id = self.next_card_id + 1;
        proof {
            broadcast use group_to_multiset_ensures;

            lemma_id_mset_parts(*old(self));
            lemma_id_mset_parts(*self);
            lemma_ids_of_push(old(self).discard_pile@, card);
            assert(self.id_mset() =~= old(self).id_mset().insert(card.id));
            lemma_wf_insert_next(*old(self), *self);
            lemma_card_mset_parts(*old(self));
            lemma_card_mset_parts(*self);
            assert(self.card_mset() =~= old(self).card_mset().insert(card));
        }
    }

    /// Moves every card in play onto the discard pile, in order.
    fn cleanup(&mut self)
        requires
            old(self).wf(),
        ensures
            final(self).wf(),
            final(self).discard_pile@ == old(self).discard_pile@ + old(self).in_play@,
            final(self).in_play@.len() == 0,
            final(self).deck@ == old(self).deck@,
            final(self).hand@ == old(self).hand@,
            final(self).demons@ == old(self).demons@,
            final(self).player_resolve == old(self).player_resolve,
            final(self).next_card_id == old(self).next_card_id,
            final(self).id_mset() == old(self).id_mset(),
            final(self).card_mset() == old(self).card_mset(),
            final(self).total_cards() == old(self).total_cards(),
    {
        self.discard_pile.append(&mut self.in_play);
        proof {
            broadcast use group_to_multiset_ensures, vstd::multiset::group_multiset_axioms;

            lemma_id_mset_parts(*old(self));
            lemma_id_mset_parts(*self);
            lemma_ids_of_concat(old(self).discard_pile@, old(self).in_play@);
            broadcast use lemma_multiset_commutative;

            assert forall|x: u32| self.id_mset().count(x) == old(self).id_mset().count(x) by {
                assert(ids_of(self.discard_pile@).to_multiset().count(x) == ids_of(
                    old(self).discard_pile@,
                ).to_multiset().count(x) + ids_of(old(self).in_play@).to_multiset().count(x));
                assert(ids_of(self.in_play@).to_multiset().count(x) == 0);
            }
            assert(self.id_mset() =~= old(self).id_mset());
            lemma_wf_same_mset(*old(self), *self);
            lemma_card_mset_parts(*old(self));
            lemma_card_mset_parts(*self);
            assert forall|c: Card| self.card_mset().count(c) == old(self).card_mset().count(
                c,
            ) by {
                assert(self.discard_pile@.to_multiset().count(c) == old(
                    self,
                ).discard_pile@.to_multiset().count(c) + old(self).in_play@.to_multiset().count(c));
                assert(self.in_play@.to_multiset().count(c) == 0);
            }
            assert(self.card_mset() =~= old(self).card_mset());
        }
    }

    /// Every demon takes its turn: a stunned demon ticks its stun down and
    /// deals nothing; an unstunned one deals its power, with resolve floored
    /// at zero.
    fn demon_attack(&mut self)
        requires
            old(self).wf(),
        ensures
            final(self).wf(),
            final(self).demons@ == tick_all(old(self).demons@),
            final(self).player_resolve == clamped_sub(
                old(self).player_resolve,
                total_attack(old(self).demons@),
            ),
            final(self).deck@ == old(self).deck@,
            final(self).discard_pile@ == old(self).discard_pile@,
            final(self).hand@ == old(self).hand@,
            final(self).in_play@ == old(self).in_play@,
            final(self).next_card_id == old(self).next_card_id,
            final(self).id_mset() == old(self).id_mset(),
            final(self).card_mset() == old(self).card_mset(),
            final(self).total_cards() == old(self).total_cards(),
    {
        let mut i: usize = 0;
        while i < self.demons.len()
            invariant
                i <= self.demons@.len(),
                self.demons@.len() == old(self).demons@.len(),
                forall|j: int| i <= j < self.demons@.len() ==> self.demons@[j] == old(
                    self,
                ).demons@[j],
                forall|j: int| 0 <= j < i ==> self.demons@[j] == demon_tick(old(self).demons@[j]),
                self.player_resolve == clamped_sub(
                    old(self).player_resolve,
                    total_attack(old(self).demons@.take(i as int)),
                ),
                self.deck@ == old(self).deck@,
                self.discard_pile@ == old(self).discard_pile@,
                self.hand@ == old(self).hand@,
                self.in_play@ == old(self).in_play@,
                self.next_card_id == old(self).next_card_id,
            decreases self.demons@.len() - i,
        {
            let d = self.demons[i];
            proof {
                lemma_total_attack_nonneg(old(self).demons@.take(i as int));
                assert(old(self).demons@.take(i as int + 1).drop_last() =~= old(
                    self,
                ).demons@.take(i as int));
                assert(old(self).demons@.take(i as int + 1).last() == old(self).demons@[i as int]);
            }
            if d.stun_time > 0 {
                self.demons.set(
                    i,
                    Demon { kind: d.kind, power: d.power, stun_time: d.stun_time - 1 },
                );
            } else {
                if self.player_resolve >= d.power {
                    self.player_resolve = self.player_resolve - d.power;
                } else {
                    self.player_resolve = 0;
                }
            }
            i = i + 1;
        }
        proof {
            assert(old(self).demons@.take(self.demons@.len() as int) =~= old(self).demons@);
            assert(self.demons@ =~= tick_all(old(self).demons@));
            lemma_wf_same_mset(*old(self), *self);
        }
    }

    /// Ends the turn: all cards in play are discarded, every demon acts, and
    /// the hand is drawn back up to five cards -- or until deck and discard
    /// pile are both exhausted, which stops the draw-up early without
    /// failing the turn. A hand already at or above five is left alone.
    pub fn end_turn(&mut self)
        requires
            old(self).wf(),
        ensures
            final(self).wf(),
            final(self).next_card_id == old(self).next_card_id,
            final(self).demons@ == tick_all(old(self).demons@),
            final(self).player_resolve == clamped_sub(
                old(self).player_resolve,
                total_attack(old(self).demons@),
            ),
            final(self).in_play@.len() == 0,
            final(self).id_mset() == old(self).id_mset(),
            final(self).card_mset() == old(self).card_mset(),
            final(self).total_cards() == old(self).total_cards(),
            old(self).hand@.is_prefix_of(final(self).hand@),
            old(self).hand@.len() >= 5 ==> final(self).hand@ == old(self).hand@,
            old(self).hand@.len() < 5 ==> final(self).hand@.len() == (
            if old(self).total_cards() >= 5 {
                5nat
            } else {
                old(self).total_cards()
            }),
            old(self).hand@.len() >= 5 ==> final(self).deck@ == old(self).deck@
                && final(self).discard_pile@ == old(self).discard_pile@ + old(self).in_play@,
            old(self).hand@.len() < 5 && old(self).deck@.len() >= 5 - old(self).hand@.len() ==> {
                &&& final(self).discard_pile@ == old(self).discard_pile@ + old(self).in_play@
                &&& final(self).deck@ == old(self).deck@.take(
                    old(self).deck@.len() - (5 - old(self).hand@.len()),
                )
                &&& final(self).hand@ == old(self).hand@ + old(self).deck@.skip(
                    old(self).deck@.len() - (5 - old(self).hand@.len()),
                ).reverse()
            },
    {
        self.cleanup();
        self.demon_attack();
        let ghost mid = *self;
        let ghost n: int = mid.deck@.len() as int;
        proof {
            assert(mid.deck@.take(n) =~= mid.deck@);
            assert(mid.hand@ + mid.deck@.skip(n).reverse() =~= mid.hand@);
        }
        let mut done = false;
        while !done && self.hand.len() < 5
            invariant
                self.wf(),
                self.id_mset() == mid.id_mset(),
                self.card_mset() == mid.card_mset(),
                self.total_cards() == mid.total_cards(),
                self.next_card_id == mid.next_card_id,
                self.demons@ == mid.demons@,
                self.player_resolve == mid.player_resolve,
                self.in_play@.len() == 0,
                mid.in_play@.len() == 0,
                n == mid.deck@.len() as int,
                mid.hand@.is_prefix_of(self.hand@),
                mid.hand@.len() >= 5 ==> self.hand@ == mid.hand@ && self.deck@ == mid.deck@
                    && self.discard_pile@ == mid.discard_pile@,
                mid.hand@.len() < 5 ==> self.hand@.len() <= 5,
                mid.hand@.len() < 5 && n >= 5 - mid.hand@.len() ==> {
                    &&& self.discard_pile@ == mid.discard_pile@
                    &&& self.deck@ == mid.deck@.take(n - (self.hand@.len() - mid.hand@.len()))
                    &&& self.hand@ == mid.hand@ + mid.deck@.skip(
                        n - (self.hand@.len() - mid.hand@.len()),
                    ).reverse()
                },
                done ==> self.deck@.len() == 0 && self.discard_pile@.len() == 0,
            decreases 5 - self.hand@.len() as int, (if done {
                0int
            } else {
                1int
            }),
        {
            let ghost pre = *self;
            match self.draw() {
                Ok(_) => {
                    proof {
                        assert(self.hand@.subrange(0, mid.hand@.len() as int) =~= pre.hand@.subrange(
                            0,
                            mid.hand@.len() as int,
                        ));
                        if mid.hand@.len() < 5 && n >= 5 - mid.hand@.len() {
                            let drawn: int = self.hand@.len() - mid.hand@.len();
                            assert(pre.deck@.len() > 0);
                            assert(self.deck@ =~= mid.deck@.take(n - drawn));
                            assert(self.hand@ =~= mid.hand@ + mid.deck@.skip(
                                n - drawn,
                            ).reverse());
                        }
                    }
                },
                Err(_) => {
                    done = true;
                },
            }
        }
        proof {
            assert(self.hand@.len() >= self.total_cards() - self.deck@.len()
                - self.discard_pile@.len() - self.in_play@.len());
            if old(self).hand@.len() < 5 && old(self).deck@.len() >= 5 - old(self).hand@.len() {
                assert(self.hand@.len() == 5);
                assert(self.deck@ == old(self).deck@.take(
                    old(self).deck@.len() - (5 - old(self).hand@.len()),
                ));
            }
        }
    }
}

} // verus!
