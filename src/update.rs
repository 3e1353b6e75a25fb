use vstd::prelude::*;

use crate::aggregate::{configs_with_counts, ConfigWithExtra};
use crate::deckconf::{
    default_name, AnkiError, Deck, DeckConfId, DeckConfig, DeckId, DEFAULT_NEW_PER_DAY,
    DEFAULT_REVIEWS_PER_DAY,
};
use crate::resolve::{current_deck_result, lemma_find_deck_range, CurrentDeck};

verus! {

/// The stored profiles and decks that a query reads.
pub struct Collection {
    pub deck_configs: Vec<DeckConfig>,
    pub decks: Vec<Deck>,
}

/// Everything the deck options screen needs.
#[derive(Debug)]
pub struct DeckConfigForUpdate {
    pub all_config: Vec<ConfigWithExtra>,
    pub current_deck: CurrentDeck,
    pub defaults: DeckConfig,
}

/// What the query on deck `id` gives: the error of the deck's resolution,
/// or every profile sorted with its use count, the current deck, and the
/// built-in profile.
pub open spec fn update_result(
    configs: Seq<DeckConfig>,
    decks: Seq<Deck>,
    id: DeckId,
    r: Result<DeckConfigForUpdate, AnkiError>,
) -> bool {
    match r {
        Err(e) => current_deck_result(decks, id, Err(e)),
        Ok(u) => {
            &&& u.all_config@ == configs_with_counts(configs, decks)
            &&& current_deck_result(decks, id, Ok(u.current_deck))
            &&& u.defaults.id == DeckConfId(0)
            &&& u.defaults.name@ == default_name()
            &&& u.defaults.new_per_day == DEFAULT_NEW_PER_DAY
            &&& u.defaults.reviews_per_day == DEFAULT_REVIEWS_PER_DAY
        },
    }
}

/// A deck id that no deck has gets `NotFound`, and no response at all.
pub proof fn lemma_missing_deck_not_found(
    configs: Seq<DeckConfig>,
    decks: Seq<Deck>,
    id: DeckId,
    r: Result<DeckConfigForUpdate, AnkiError>,
)
    requires
        update_result(configs, decks, id, r),
        forall|k: int| 0 <= k < decks.len() ==> #[trigger] decks[k].id != id,
    ensures
        r == Err::<DeckConfigForUpdate, AnkiError>(AnkiError::NotFound),
{
    lemma_find_deck_range(decks, id);
}

/// A deck that is not a normal deck gets an error, never a response.
pub proof fn lemma_non_normal_deck_fails(
    configs: Seq<DeckConfig>,
    decks: Seq<Deck>,
    id: DeckId,
    r: Result<DeckConfigForUpdate, AnkiError>,
)
    requires
        update_result(configs, decks, id, r),
        forall|k: int| 0 <= k < decks.len() && #[trigger] decks[k].id == id ==> decks[k].spec_normal() is None,
    ensures
        r == Err::<DeckConfigForUpdate, AnkiError>(AnkiError::NotFound),
{
    lemma_find_deck_range(decks, id);
}

/// The query reads storage only: two answers for the same stored profiles,
/// decks and deck id agree in every field.
pub proof fn lemma_update_deterministic(
    configs: Seq<DeckConfig>,
    decks: Seq<Deck>,
    id: DeckId,
    r1: Result<DeckConfigForUpdate, AnkiError>,
    r2: Result<DeckConfigForUpdate, AnkiError>,
)
    requires
        update_result(configs, decks, id, r1),
        update_result(configs, decks, id, r2),
    ensures
        r1 is Ok <==> r2 is Ok,
        r1 is Err ==> r1 == r2,
        r1 is Ok ==> ({
            let u1 = r1->Ok_0;
            let u2 = r2->Ok_0;
            &&& u1.all_config@ == u2.all_config@
            &&& u1.current_deck.name == u2.current_deck.name
            &&& u1.current_deck.config_id == u2.current_deck.config_id
            &&& u1.current_deck.parent_config_ids@ == u2.current_deck.parent_config_ids@
            &&& u1.defaults.id == u2.defaults.id
            &&& u1.defaults.name@ == u2.defaults.name@
            &&& u1.defaults.new_per_day == u2.defaults.new_per_day
            &&& u1.defaults.reviews_per_day == u2.defaults.reviews_per_day
        }),
{
}

impl Collection {
    /// Information required for the deck options screen.
    pub fn get_deck_config_for_update(&mut self, deck: DeckId) -> (r: Result<
        DeckConfigForUpdate,
        AnkiError,
    >)
        ensures
            *final(self) == *old(self),
            update_result(old(self).deck_configs@, old(self).decks@, deck, r),
    {
        let all_config = self.get_deck_config_with_extra_for_update();
        let current_deck = match self.get_current_deck_for_update(deck) {
            Ok(cd) => cd,
            Err(e) => {
                return Err(e);
            },
        };
        Ok(DeckConfigForUpdate { all_config, current_deck, defaults: DeckConfig::default() })
    }
}

} // verus!
