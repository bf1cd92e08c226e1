//! The library's standing guarantees over well-formed states, stated and
//! proved once. Every verb requires well-formedness and re-establishes it,
//! so these hold after any sequence of verb calls on a new game.

use vstd::prelude::*;
use vstd::seq_lib::group_to_multiset_ensures;

use crate::engine::CardGameModel;
use crate::engine::has_card_id;
use crate::engine::ids_of;
use crate::engine::lemma_id_mset_parts;

verus! {

/// Id uniqueness: the card ids across all four zones hold no duplicate.
pub proof fn lemma_id_uniqueness(s: CardGameModel)
    requires
        s.wf(),
    ensures
        ids_of(s.all_cards()).no_duplicates(),
{
    broadcast use group_to_multiset_ensures;

    let ids = ids_of(s.all_cards());
    assert forall|x: u32| ids.to_multiset().contains(x) implies ids.to_multiset().count(x)
        == 1 by {
        assert(s.id_mset().count(x) <= 1);
    }
    ids.lemma_multiset_has_no_duplicates_conv();
}

/// Conservation: the total card count across the four zones equals the
/// number of cards ever created -- the starting deck plus every successful
/// gain -- which is exactly what the id counter has counted out.
pub proof fn lemma_conservation(s: CardGameModel)
    requires
        s.wf(),
    ensures
        s.total_cards() == s.next_card_id,
{
    broadcast use group_to_multiset_ensures;

    assert(s.id_mset().len() == ids_of(s.all_cards()).len());
}

/// Single ownership: an id present in one of the four zones is absent from
/// the other three.
pub proof fn lemma_zone_ownership_unique(s: CardGameModel, id: u32)
    requires
        s.wf(),
    ensures
        (if has_card_id(s.deck@, id) {
            1int
        } else {
            0int
        }) + (if has_card_id(s.discard_pile@, id) {
            1int
        } else {
            0int
        }) + (if has_card_id(s.hand@, id) {
            1int
        } else {
            0int
        }) + (if has_card_id(s.in_play@, id) {
            1int
        } else {
            0int
        }) <= 1,
{
    broadcast use group_to_multiset_ensures;

    lemma_id_mset_parts(s);
    if has_card_id(s.deck@, id) {
        let i = choose|i: int| 0 <= i < s.deck@.len() && s.deck@[i].id == id;
        assert(ids_of(s.deck@)[i] == id);
        assert(ids_of(s.deck@).to_multiset().count(id) >= 1) by {
            assert(ids_of(s.deck@).contains(id));
        }
    }
    if has_card_id(s.discard_pile@, id) {
        let i = choose|i: int| 0 <= i < s.discard_pile@.len() && s.discard_pile@[i].id == id;
        assert(ids_of(s.discard_pile@)[i] == id);
        assert(ids_of(s.discard_pile@).to_multiset().count(id) >= 1) by {
            assert(ids_of(s.discard_pile@).contains(id));
        }
    }
    if has_card_id(s.hand@, id) {
        let i = choose|i: int| 0 <= i < s.hand@.len() && s.hand@[i].id == id;
        assert(ids_of(s.hand@)[i] == id);
        assert(ids_of(s.hand@).to_multiset().count(id) >= 1) by {
            assert(ids_of(s.hand@).contains(id));
        }
    }
    if has_card_id(s.in_play@, id) {
        let i = choose|i: int| 0 <= i < s.in_play@.len() && s.in_play@[i].id == id;
        assert(ids_of(s.in_play@)[i] == id);
        assert(ids_of(s.in_play@).to_multiset().count(id) >= 1) by {
            assert(ids_of(s.in_play@).contains(id));
        }
    }
    assert(s.id_mset().count(id) <= 1);
}

} // verus!
