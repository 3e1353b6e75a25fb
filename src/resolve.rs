use vstd::prelude::*;

use crate::deckconf::{AnkiError, Deck, DeckConfId, DeckId};
use crate::update::Collection;

verus! {

/// The deck being edited: its name, its profile, and the profiles that its
/// ancestors use.
#[derive(Debug)]
pub struct CurrentDeck {
    pub name: String,
    pub config_id: DeckConfId,
    pub parent_config_ids: Vec<DeckConfId>,
}

/// What resolving deck `id` gives: `NotFound` when no deck has that id or the
/// deck is not a normal one, else its name, its profile and the profiles of
/// its ancestors.
pub open spec fn current_deck_result(
    decks: Seq<Deck>,
    id: DeckId,
    r: Result<CurrentDeck, AnkiError>,
) -> bool {
    match find_deck(decks, id) {
        None => r == Err::<CurrentDeck, AnkiError>(AnkiError::NotFound),
        Some(i) => match decks[i].spec_normal() {
            None => r == Err::<CurrentDeck, AnkiError>(AnkiError::NotFound),
            Some(c) => r matches Ok(cd) && cd.name == decks[i].name && cd.config_id == c
                && cd.parent_config_ids@ == distinct_configs(decks, parent_decks_of(decks, decks[i])),
        },
    }
}

/// The position of the first deck with identity `id`, if any.
pub open spec fn find_deck(decks: Seq<Deck>, id: DeckId) -> Option<int>
    decreases decks.len(),
{
    if decks.len() == 0 {
        None
    } else {
        match find_deck(decks.drop_last(), id) {
            Some(i) => Some(i),
            None => if decks.last().id == id {
                Some(decks.len() - 1)
            } else {
                None
            },
        }
    }
}

/// Positions of the decks up the chain from `start`, nearest first, for at
/// most `fuel` steps; the walk stops at a missing parent.
pub open spec fn ancestors(decks: Seq<Deck>, start: Option<DeckId>, fuel: nat) -> Seq<int>
    decreases fuel,
{
    if fuel == 0 {
        Seq::empty()
    } else {
        match start {
            None => Seq::empty(),
            Some(id) => match find_deck(decks, id) {
                None => Seq::empty(),
                Some(i) => seq![i] + ancestors(decks, decks[i].parent_id, (fuel - 1) as nat),
            },
        }
    }
}

/// Positions of the ancestors of `deck`. A chain in a hierarchy without
/// cycles is shorter than the number of decks, so it is walked whole.
pub open spec fn parent_decks_of(decks: Seq<Deck>, deck: Deck) -> Seq<int> {
    ancestors(decks, deck.parent_id, decks.len())
}

/// The profiles of the normal decks at positions `idx`, each once, in order
/// of first appearance.
pub open spec fn distinct_configs(decks: Seq<Deck>, idx: Seq<int>) -> Seq<DeckConfId>
    decreases idx.len(),
{
    if idx.len() == 0 {
        Seq::empty()
    } else {
        let d = distinct_configs(decks, idx.drop_last());
        match decks[idx.last()].spec_normal() {
            Some(c) => if d.contains(c) {
                d
            } else {
                d.push(c)
            },
            None => d,
        }
    }
}

/// Some normal deck at a position in `idx` uses profile `c`.
pub open spec fn used_at(decks: Seq<Deck>, idx: Seq<int>, c: DeckConfId) -> bool {
    exists|k: int| 0 <= k < idx.len() && decks[#[trigger] idx[k]].spec_normal() == Some(c)
}

/// The profiles collected from a run of decks hold no repeats, and hold
/// exactly the profiles of the normal decks among them.
pub proof fn lemma_distinct_configs(decks: Seq<Deck>, idx: Seq<int>)
    ensures
        distinct_configs(decks, idx).no_duplicates(),
        forall|c: DeckConfId|
            #[trigger] distinct_configs(decks, idx).contains(c) <==> used_at(decks, idx, c),
    decreases idx.len(),
{
    if idx.len() > 0 {
        let rest = idx.drop_last();
        lemma_distinct_configs(decks, rest);
        let d = distinct_configs(decks, rest);
        let full = distinct_configs(decks, idx);
        let last = idx.last();
        assert(idx[idx.len() - 1] == last);
        assert(forall|k: int| 0 <= k < rest.len() ==> #[trigger] rest[k] == idx[k]);
        assert forall|c: DeckConfId| d.contains(c) implies #[trigger] full.contains(c) by {
            let t = choose|t: int| 0 <= t < d.len() && d[t] == c;
            if full != d {
                assert(full[t] == d[t]);
            }
        }
        assert forall|c: DeckConfId| #[trigger] full.contains(c) <==> used_at(decks, idx, c) by {
            if full.contains(c) {
                if d.contains(c) {
                    let k = choose|k: int|
                        0 <= k < rest.len() && decks[#[trigger] rest[k]].spec_normal() == Some(c);
                    assert(idx[k] == rest[k]);
                } else {
                    let t = choose|t: int| 0 <= t < full.len() && full[t] == c;
                    assert(t == d.len());
                    assert(decks[idx[idx.len() - 1]].spec_normal() == Some(c));
                }
            }
            if used_at(decks, idx, c) {
                let k = choose|k: int|
                    0 <= k < idx.len() && decks[#[trigger] idx[k]].spec_normal() == Some(c);
                if k < rest.len() {
                    assert(rest[k] == idx[k]);
                    assert(used_at(decks, rest, c));
                } else if !d.contains(c) {
                    assert(full == d.push(c));
                    assert(full[d.len() as int] == c);
                }
            }
        }
    }
}

/// A deck with no parent has no ancestor profiles.
pub proof fn lemma_no_parent_no_ancestor_configs(decks: Seq<Deck>, deck: Deck)
    requires
        deck.parent_id is None,
    ensures
        distinct_configs(decks, parent_decks_of(decks, deck)) == Seq::<DeckConfId>::empty(),
{
    assert(parent_decks_of(decks, deck) == Seq::<int>::empty());
}

proof fn lemma_ancestors_range(decks: Seq<Deck>, start: Option<DeckId>, fuel: nat)
    ensures
        forall|k: int|
            0 <= k < ancestors(decks, start, fuel).len() ==> 0 <= #[trigger] ancestors(
                decks,
                start,
                fuel,
            )[k] < decks.len(),
    decreases fuel,
{
    if fuel > 0 {
        if let Some(id) = start {
            lemma_find_deck_range(decks, id);
            if let Some(i) = find_deck(decks, id) {
                lemma_ancestors_range(decks, decks[i].parent_id, (fuel - 1) as nat);
                let rest = ancestors(decks, decks[i].parent_id, (fuel - 1) as nat);
                assert forall|k: int|
                    0 <= k < ancestors(decks, start, fuel).len() implies 0 <= #[trigger] ancestors(
                    decks,
                    start,
                    fuel,
                )[k] < decks.len() by {
                    if k > 0 {
                        assert(ancestors(decks, start, fuel)[k] == rest[k - 1]);
                    }
                }
            }
        }
    }
}

proof fn lemma_find_deck_prefix(decks: Seq<Deck>, id: DeckId, k: int)
    requires
        0 <= k <= decks.len(),
        find_deck(decks.take(k), id) is Some,
    ensures
        find_deck(decks, id) == find_deck(decks.take(k), id),
    decreases decks.len(),
{
    if k < decks.len() {
        assert(decks.drop_last().take(k) == decks.take(k));
        lemma_find_deck_prefix(decks.drop_last(), id, k);
    } else {
        assert(decks.take(k) == decks);
    }
}

/// The first deck found with an id is a deck of the run that has that id.
pub proof fn lemma_find_deck_range(decks: Seq<Deck>, id: DeckId)
    ensures
        find_deck(decks, id) matches Some(i) ==> 0 <= i < decks.len() && decks[i].id == id,
    decreases decks.len(),
{
    if decks.len() > 0 {
        lemma_find_deck_range(decks.drop_last(), id);
    }
}

impl Collection {
    /// The name and profile of deck `deck`, and the profiles of its
    /// ancestors.
    pub fn get_current_deck_for_update(&mut self, deck: DeckId) -> (r: Result<
        CurrentDeck,
        AnkiError,
    >)
        ensures
            *final(self) == *old(self),
            current_deck_result(old(self).decks@, deck, r),
    {
        let i = match self.deck_index(deck) {
            Some(i) => i,
            None => {
                return Err(AnkiError::NotFound);
            },
        };
        proof {
            lemma_find_deck_range(self.decks@, deck);
        }
        let found = &self.decks[i];
        let config_id = match found.normal() {
            Ok(c) => c,
            Err(e) => {
                return Err(e);
            },
        };
        Ok(
            CurrentDeck {
                name: found.name.clone(),
                config_id,
                parent_config_ids: self.parent_config_ids(found),
            },
        )
    }

    /// Positions of the ancestors of `deck`, nearest first.
    pub fn parent_decks(&self, deck: &Deck) -> (r: Vec<usize>)
        ensures
            r@.len() == parent_decks_of(self.decks@, *deck).len(),
            forall|k: int|
                0 <= k < r@.len() ==> #[trigger] r@[k] as int == parent_decks_of(
                    self.decks@,
                    *deck,
                )[k],
            forall|k: int| 0 <= k < r@.len() ==> #[trigger] r@[k] < self.decks@.len(),
    {
        let ghost whole = parent_decks_of(self.decks@, *deck);
        proof {
            lemma_ancestors_range(self.decks@, deck.parent_id, self.decks@.len());
        }
        let mut out: Vec<usize> = Vec::new();
        let mut cur = deck.parent_id;
        let mut fuel: usize = self.decks.len();
        while fuel > 0
            invariant
                whole == ancestors(self.decks@, deck.parent_id, self.decks@.len()),
                out@.map_values(|x: usize| x as int) + ancestors(self.decks@, cur, fuel as nat)
                    == whole,
            decreases fuel,
        {
            let ghost before = out@.map_values(|x: usize| x as int);
            match cur {
                None => {
                    fuel = 0;
                },
                Some(id) => {
                    match self.deck_index(id) {
                        None => {
                            fuel = 0;
                        },
                        Some(i) => {
                            proof {
                                lemma_find_deck_range(self.decks@, id);
                            }
                            let ghost rest = ancestors(
                                self.decks@,
                                self.decks@[i as int].parent_id,
                                (fuel - 1) as nat,
                            );
                            out.push(i);
                            assert(out@.map_values(|x: usize| x as int) == before.push(i as int));
                            assert(before + (seq![i as int] + rest) == before.push(i as int)
                                + rest);
                            cur = self.decks[i].parent_id;
                            fuel = fuel - 1;
                        },
                    }
                },
            }
        }
        proof {
            assert(out@.map_values(|x: usize| x as int) + Seq::<int>::empty() == out@.map_values(
                |x: usize| x as int,
            ));
            assert forall|k: int| 0 <= k < out@.len() implies #[trigger] out@[k] as int
                == whole[k] by {
                assert(out@.map_values(|x: usize| x as int)[k] == out@[k] as int);
            }
        }
        out
    }

    /// The profiles that the ancestors of `deck` use, each once; ancestors
    /// of other kinds are passed over.
    pub fn parent_config_ids(&self, deck: &Deck) -> (r: Vec<DeckConfId>)
        ensures
            r@ == distinct_configs(self.decks@, parent_decks_of(self.decks@, *deck)),
            r@.no_duplicates(),
            forall|c: DeckConfId|
                #[trigger] r@.contains(c) <==> used_at(
                    self.decks@,
                    parent_decks_of(self.decks@, *deck),
                    c,
                ),
    {
        let ghost whole = parent_decks_of(self.decks@, *deck);
        let parents = self.parent_decks(deck);
        let mut out: Vec<DeckConfId> = Vec::new();
        let mut k: usize = 0;
        while k < parents.len()
            invariant
                k <= parents@.len(),
                whole == parent_decks_of(self.decks@, *deck),
                parents@.len() == whole.len(),
                forall|q: int| 0 <= q < parents@.len() ==> #[trigger] parents@[q] as int == whole[q],
                forall|q: int| 0 <= q < parents@.len() ==> #[trigger] parents@[q] < self.decks@.len(),
                out@ == distinct_configs(self.decks@, whole.take(k as int)),
            decreases parents@.len() - k,
        {
            assert(whole.take(k + 1).drop_last() == whole.take(k as int));
            assert(whole.take(k + 1).last() == whole[k as int]);
            if let Ok(c) = self.decks[parents[k]].normal() {
                let mut q: usize = 0;
                while q < out.len() && out[q] != c
                    invariant
                        q <= out@.len(),
                        forall|t: int| 0 <= t < q ==> #[trigger] out@[t] != c,
                    decreases out@.len() - q,
                {
                    q = q + 1;
                }
                if q == out.len() {
                    out.push(c);
                } else {
                    assert(out@[q as int] == c);
                }
            }
            k = k + 1;
        }
        proof {
            assert(whole.take(whole.len() as int) == whole);
            lemma_distinct_configs(self.decks@, whole);
        }
        out
    }

    /// The position of the deck with identity `id`, if there is one.
    pub fn deck_index(&self, id: DeckId) -> (r: Option<usize>)
        ensures
            r matches Some(i) ==> find_deck(self.decks@, id) == Some(i as int),
            r is None <==> find_deck(self.decks@, id) is None,
    {
        let mut i: usize = 0;
        while i < self.decks.len()
            invariant
                i <= self.decks@.len(),
                find_deck(self.decks@.take(i as int), id) is None,
            decreases self.decks@.len() - i,
        {
            assert(self.decks@.take(i + 1).drop_last() == self.decks@.take(i as int));
            if self.decks[i].id == id {
                proof {
                    lemma_find_deck_prefix(self.decks@, id, i + 1);
                }
                return Some(i);
            }
            i = i + 1;
        }
        assert(self.decks@.take(self.decks@.len() as int) == self.decks@);
        None
    }
}

} // verus!
