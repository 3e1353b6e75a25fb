use vstd::prelude::*;

use crate::deckconf::{Deck, DeckConfId, DeckConfig};
use crate::order::{
    bytes_less, bytes_lt, insert_pos, is_permutation, lemma_bytes_lt_total, lemma_sort_order,
    sort_order,
};
use crate::update::Collection;

verus! {

/// A profile with the number of normal decks that use it.
#[derive(Debug)]
pub struct ConfigWithExtra {
    pub config: DeckConfig,
    pub use_count: usize,
}

/// How many normal decks among `decks` use profile `id`.
pub open spec fn use_count(decks: Seq<Deck>, id: DeckConfId) -> nat
    decreases decks.len(),
{
    if decks.len() == 0 {
        0
    } else {
        use_count(decks.drop_last(), id) + if decks.last().spec_normal() == Some(id) {
            1nat
        } else {
            0nat
        }
    }
}

/// The sort keys of the profiles, in storage order.
pub open spec fn config_keys(configs: Seq<DeckConfig>) -> Seq<Seq<u8>> {
    Seq::new(configs.len(), |i: int| configs[i].name_key())
}

/// Every profile, stably sorted by name, each with its use count.
pub open spec fn configs_with_counts(configs: Seq<DeckConfig>, decks: Seq<Deck>) -> Seq<
    ConfigWithExtra,
> {
    sort_order(config_keys(configs), configs.len()).map_values(
        |i: int|
            (ConfigWithExtra {
                config: configs[i],
                use_count: use_count(decks, configs[i].id) as usize,
            }),
    )
}

/// Use counts keyed by profile: each entry holds the number of normal decks
/// that use its profile, which is at least one, no profile has two entries,
/// and a profile without an entry has no user.
pub open spec fn counts_match(counts: Seq<(DeckConfId, usize)>, decks: Seq<Deck>) -> bool {
    &&& forall|k: int| 0 <= k < counts.len() ==> #[trigger] counts[k].1 >= 1
    &&& forall|k: int|
        0 <= k < counts.len() ==> #[trigger] counts[k].1 as nat == use_count(decks, counts[k].0)
    &&& forall|k1: int, k2: int|
        0 <= k1 < counts.len() && 0 <= k2 < counts.len() && k1 != k2 ==> counts[k1].0
            != counts[k2].0
    &&& forall|id: DeckConfId|
        (forall|k: int| 0 <= k < counts.len() ==> #[trigger] counts[k].0 != id) ==> use_count(
            decks,
            id,
        ) == 0
}

/// The use count that `counts` holds for profile `id`, zero if it holds none.
fn count_for(counts: &Vec<(DeckConfId, usize)>, id: DeckConfId) -> (r: usize)
    requires
        exists|decks: Seq<Deck>| counts_match(counts@, decks),
    ensures
        forall|decks: Seq<Deck>| counts_match(counts@, decks) ==> r as nat == use_count(decks, id),
{
    let mut k: usize = 0;
    while k < counts.len()
        invariant
            k <= counts@.len(),
            forall|q: int| 0 <= q < k ==> #[trigger] counts@[q].0 != id,
        decreases counts@.len() - k,
    {
        if counts[k].0 == id {
            return counts[k].1;
        }
        k = k + 1;
    }
    0
}

proof fn lemma_use_count_bound(decks: Seq<Deck>, id: DeckConfId)
    ensures
        use_count(decks, id) <= decks.len(),
    decreases decks.len(),
{
    if decks.len() > 0 {
        lemma_use_count_bound(decks.drop_last(), id);
    }
}

proof fn lemma_row(configs: Seq<DeckConfig>, decks: Seq<Deck>, k: int)
    requires
        0 <= k < configs.len(),
    ensures
        ({
            let o = sort_order(config_keys(configs), configs.len());
            configs_with_counts(configs, decks)[k] == (ConfigWithExtra {
                config: configs[o[k]],
                use_count: use_count(decks, configs[o[k]].id) as usize,
            })
        }),
{
    lemma_sort_order(config_keys(configs), configs.len());
}

/// The profile list holds each stored profile exactly once, sorted by name
/// in byte order: entry `k` is the stored profile at position `o[k]` of a
/// permutation `o`, no entry's name comes before that of an entry ahead of
/// it, and profiles of the same name keep their storage order.
pub proof fn lemma_all_config_sorted_permutation(configs: Seq<DeckConfig>, decks: Seq<Deck>)
    ensures
        ({
            let rows = configs_with_counts(configs, decks);
            let o = sort_order(config_keys(configs), configs.len());
            &&& rows.len() == configs.len()
            &&& is_permutation(o, configs.len())
            &&& forall|k: int| 0 <= k < rows.len() ==> #[trigger] rows[k].config == configs[o[k]]
            &&& forall|x: int, y: int|
                0 <= x < y < rows.len() && rows[x].config.name_key() == rows[y].config.name_key()
                    ==> o[x] < o[y]
            &&& forall|x: int, y: int|
                0 <= x < y < rows.len() ==> !bytes_lt(
                    rows[y].config.name_key(),
                    rows[x].config.name_key(),
                )
        }),
{
    let keys = config_keys(configs);
    let o = sort_order(keys, configs.len());
    lemma_sort_order(keys, configs.len());
    let rows = configs_with_counts(configs, decks);
    assert forall|x: int, y: int|
        0 <= x < y < rows.len() && rows[x].config.name_key()
            == rows[y].config.name_key() implies o[x] < o[y] by {
        assert(keys[o[x]] == configs[o[x]].name_key());
        assert(keys[o[y]] == configs[o[y]].name_key());
    }
    assert forall|x: int, y: int| 0 <= x < y < rows.len() implies !bytes_lt(
        rows[y].config.name_key(),
        rows[x].config.name_key(),
    ) by {
        assert(keys[o[x]] == configs[o[x]].name_key());
        assert(keys[o[y]] == configs[o[y]].name_key());
    }
}

/// No two profiles share a name.
pub open spec fn distinct_names(configs: Seq<DeckConfig>) -> bool {
    forall|i: int, j: int|
        0 <= i < configs.len() && 0 <= j < configs.len() && i != j ==> configs[i].name_key()
            != configs[j].name_key()
}

proof fn lemma_same_prefix(
    c1: Seq<DeckConfig>,
    c2: Seq<DeckConfig>,
    decks: Seq<Deck>,
    k: int,
)
    requires
        c1.len() == c2.len(),
        distinct_names(c1),
        distinct_names(c2),
        forall|c: DeckConfig| c1.contains(c) <==> c2.contains(c),
        0 <= k <= c1.len(),
    ensures
        forall|j: int|
            0 <= j < k ==> (#[trigger] configs_with_counts(c1, decks)[j]).config
                == configs_with_counts(c2, decks)[j].config,
    decreases k,
{
    if k > 0 {
        let q = k - 1;
        lemma_same_prefix(c1, c2, decks, q);
        let k1 = config_keys(c1);
        let k2 = config_keys(c2);
        let o1 = sort_order(k1, c1.len());
        let o2 = sort_order(k2, c2.len());
        lemma_sort_order(k1, c1.len());
        lemma_sort_order(k2, c2.len());
        lemma_row(c1, decks, q);
        lemma_row(c2, decks, q);
        let e1 = c1[o1[q]];
        let e2 = c2[o2[q]];
        if e1 != e2 {
            assert(c1.contains(e1));
            let i2 = choose|i: int| 0 <= i < c2.len() && c2[i] == e1;
            assert(o2.contains(i2));
            let m2 = choose|m: int| 0 <= m < o2.len() && o2[m] == i2;
            assert(c2.contains(e2));
            let i1 = choose|i: int| 0 <= i < c1.len() && c1[i] == e2;
            assert(o1.contains(i1));
            let m1 = choose|m: int| 0 <= m < o1.len() && o1[m] == i1;
            if m2 <= q {
                lemma_row(c1, decks, m2);
                lemma_row(c2, decks, m2);
                assert(c1[o1[m2]] == e1);
                assert(k1[o1[m2]] == k1[o1[q]]);
            }
            if m1 <= q {
                lemma_row(c1, decks, m1);
                lemma_row(c2, decks, m1);
                assert(c2[o2[m1]] == e2);
                assert(k2[o2[m1]] == k2[o2[q]]);
            }
            assert(!bytes_lt(k2[o2[m2]], k2[o2[q]]));
            assert(!bytes_lt(k1[o1[m1]], k1[o1[q]]));
            lemma_bytes_lt_total(e1.name_key(), e2.name_key());
            assert(k1[i1] == k1[o1[q]]);
        }
    }
}

/// With distinct names, the profile list does not depend on the order in
/// which storage holds the profiles: two stores holding the same profiles
/// give the same list.
pub proof fn lemma_all_config_ignores_storage_order(
    c1: Seq<DeckConfig>,
    c2: Seq<DeckConfig>,
    decks: Seq<Deck>,
)
    requires
        c1.len() == c2.len(),
        distinct_names(c1),
        distinct_names(c2),
        forall|c: DeckConfig| c1.contains(c) <==> c2.contains(c),
    ensures
        configs_with_counts(c1, decks) == configs_with_counts(c2, decks),
{
    lemma_same_prefix(c1, c2, decks, c1.len() as int);
    lemma_sort_order(config_keys(c1), c1.len());
    lemma_sort_order(config_keys(c2), c2.len());
    assert forall|k: int| 0 <= k < c1.len() implies configs_with_counts(c1, decks)[k]
        == configs_with_counts(c2, decks)[k] by {
        lemma_row(c1, decks, k);
        lemma_row(c2, decks, k);
    }
    assert(configs_with_counts(c1, decks) =~= configs_with_counts(c2, decks));
}

/// Each entry of the profile list carries the number of normal decks that
/// use its profile.
pub proof fn lemma_all_config_counts(configs: Seq<DeckConfig>, decks: Seq<Deck>)
    requires
        decks.len() <= usize::MAX,
    ensures
        forall|k: int|
            0 <= k < configs_with_counts(configs, decks).len() ==> (
            #[trigger] configs_with_counts(configs, decks)[k]).use_count as nat == use_count(
                decks,
                configs_with_counts(configs, decks)[k].config.id,
            ),
{
    let o = sort_order(config_keys(configs), configs.len());
    lemma_sort_order(config_keys(configs), configs.len());
    assert forall|k: int| 0 <= k < configs_with_counts(configs, decks).len() implies (
    #[trigger] configs_with_counts(configs, decks)[k]).use_count as nat == use_count(
        decks,
        configs_with_counts(configs, decks)[k].config.id,
    ) by {
        lemma_use_count_bound(decks, configs[o[k]].id);
        lemma_row(configs, decks, k);
    }
}

/// The use count of a profile is the number of normal decks assigned to it.
pub proof fn lemma_use_count_is_filter_len(decks: Seq<Deck>, id: DeckConfId)
    ensures
        use_count(decks, id) == decks.filter(|d: Deck| d.spec_normal() == Some(id)).len(),
    decreases decks.len(),
{
    reveal(Seq::filter);
    if decks.len() > 0 {
        lemma_use_count_is_filter_len(decks.drop_last(), id);
    }
}

/// A deck that is not a normal deck adds to no profile's use count.
pub proof fn lemma_filtered_deck_counts_nothing(decks: Seq<Deck>, d: Deck, id: DeckConfId)
    requires
        d.spec_normal() is None,
    ensures
        use_count(decks.push(d), id) == use_count(decks, id),
{
    assert(decks.push(d).drop_last() == decks);
}

/// A normal deck adds one to the use count of its own profile only.
pub proof fn lemma_normal_deck_counts_once(decks: Seq<Deck>, d: Deck, id: DeckConfId)
    requires
        d.spec_normal() is Some,
    ensures
        use_count(decks.push(d), id) == use_count(decks, id) + if d.spec_normal() == Some(id) {
            1nat
        } else {
            0nat
        },
{
    assert(decks.push(d).drop_last() == decks);
}

/// The positions of the profiles in the order of a stable sort by name.
fn sorted_config_order(configs: &Vec<DeckConfig>) -> (r: Vec<usize>)
    ensures
        r@.len() == configs@.len(),
        forall|k: int|
            0 <= k < r@.len() ==> #[trigger] r@[k] as int == sort_order(
                config_keys(configs@),
                configs@.len(),
            )[k],
{
    let ghost keys = config_keys(configs@);
    let mut order: Vec<usize> = Vec::new();
    let mut j: usize = 0;
    while j < configs.len()
        invariant
            j <= configs@.len(),
            keys == config_keys(configs@),
            order@.map_values(|x: usize| x as int) == sort_order(keys, j as nat),
        decreases configs@.len() - j,
    {
        let ghost o = order@.map_values(|x: usize| x as int);
        proof {
            lemma_sort_order(keys, j as nat);
        }
        let key = configs[j].name.as_str().as_bytes();
        let mut p: usize = order.len();
        while p > 0 && bytes_less(key, configs[order[p - 1]].name.as_str().as_bytes())
            invariant
                p <= order@.len(),
                o == order@.map_values(|x: usize| x as int),
                o == sort_order(keys, j as nat),
                is_permutation(o, j as nat),
                j < configs@.len(),
                keys == config_keys(configs@),
                key@ == keys[j as int],
                insert_pos(o, keys, j as int, p as int) == insert_pos(
                    o,
                    keys,
                    j as int,
                    o.len() as int,
                ),
            decreases p,
        {
            assert(o[p - 1] == order@[p - 1] as int);
            p = p - 1;
        }
        proof {
            if p > 0 {
                assert(o[p - 1] == order@[p - 1] as int);
            }
        }
        order.insert(p, j);
        assert(order@.map_values(|x: usize| x as int) == o.insert(p as int, j as int));
        j = j + 1;
    }
    proof {
        lemma_sort_order(keys, j as nat);
        assert forall|k: int| 0 <= k < order@.len() implies #[trigger] order@[k] as int
            == sort_order(keys, configs@.len())[k] by {
            assert(order@.map_values(|x: usize| x as int)[k] == order@[k] as int);
        }
    }
    order
}

impl Collection {
    /// Every profile, stably sorted by name, each with the number of normal
    /// decks that use it.
    pub fn get_deck_config_with_extra_for_update(&self) -> (r: Vec<ConfigWithExtra>)
        ensures
            r@ == configs_with_counts(self.deck_configs@, self.decks@),
            r@.len() == self.deck_configs@.len(),
            forall|k: int|
                0 <= k < r@.len() ==> #[trigger] r@[k].use_count as nat == use_count(
                    self.decks@,
                    r@[k].config.id,
                ),
            forall|x: int, y: int|
                0 <= x < y < r@.len() ==> !bytes_lt(
                    r@[y].config.name_key(),
                    r@[x].config.name_key(),
                ),
            exists|o: Seq<int>|
                {
                    &&& is_permutation(o, self.deck_configs@.len())
                    &&& forall|k: int|
                        0 <= k < r@.len() ==> #[trigger] r@[k].config == self.deck_configs@[o[k]]
                    &&& forall|x: int, y: int|
                        0 <= x < y < r@.len() && r@[x].config.name_key()
                            == r@[y].config.name_key() ==> o[x] < o[y]
                },
    {
        let order = sorted_config_order(&self.deck_configs);
        let counts = self.get_deck_config_use_counts();
        let ghost o = sort_order(config_keys(self.deck_configs@), self.deck_configs@.len());
        proof {
            lemma_sort_order(config_keys(self.deck_configs@), self.deck_configs@.len());
        }
        let mut out: Vec<ConfigWithExtra> = Vec::new();
        let mut k: usize = 0;
        while k < order.len()
            invariant
                k <= order@.len(),
                order@.len() == self.deck_configs@.len(),
                forall|q: int| 0 <= q < order@.len() ==> #[trigger] order@[q] as int == o[q],
                o == sort_order(config_keys(self.deck_configs@), self.deck_configs@.len()),
                is_permutation(o, self.deck_configs@.len()),
                counts_match(counts@, self.decks@),
                out@ == configs_with_counts(self.deck_configs@, self.decks@).take(k as int),
            decreases order@.len() - k,
        {
            let config = self.deck_configs[order[k]].duplicate();
            let n = count_for(&counts, config.id);
            proof {
                lemma_use_count_bound(self.decks@, config.id);
                assert(n as nat == use_count(self.decks@, config.id));
            }
            out.push(ConfigWithExtra { config, use_count: n });
            proof {
                lemma_row(self.deck_configs@, self.decks@, k as int);
            }
            assert(out@ =~= configs_with_counts(self.deck_configs@, self.decks@).take(k + 1));
            k = k + 1;
        }
        assert(out@ == configs_with_counts(self.deck_configs@, self.decks@));
        let deck_count = self.decks.len();
        proof {
            assert(self.decks@.len() == deck_count);
            lemma_all_config_sorted_permutation(self.deck_configs@, self.decks@);
            lemma_all_config_counts(self.deck_configs@, self.decks@);
        }
        out
    }

    /// Number of normal decks that use each profile; decks of other kinds
    /// count for nothing.
    pub fn get_deck_config_use_counts(&self) -> (r: Vec<(DeckConfId, usize)>)
        ensures
            counts_match(r@, self.decks@),
    {
        let mut counts: Vec<(DeckConfId, usize)> = Vec::new();
        let mut i: usize = 0;
        while i < self.decks.len()
            invariant
                i <= self.decks@.len(),
                counts_match(counts@, self.decks@.take(i as int)),
            decreases self.decks@.len() - i,
        {
            let ghost before = counts@;
            let ghost seen = self.decks@.take(i as int);
            let ghost next = self.decks@.take(i + 1);
            assert(next.drop_last() == seen);
            assert(next.last() == self.decks@[i as int]);
            assert(forall|id: DeckConfId|
                #[trigger] use_count(next, id) == use_count(seen, id) + if self.decks@[i as int].spec_normal()
                    == Some(id) {
                    1nat
                } else {
                    0nat
                });
            if let Ok(c) = self.decks[i].normal() {
                let mut k: usize = 0;
                while k < counts.len() && counts[k].0 != c
                    invariant
                        k <= counts@.len(),
                        counts@ == before,
                        forall|q: int| 0 <= q < k ==> #[trigger] counts@[q].0 != c,
                    decreases counts@.len() - k,
                {
                    k = k + 1;
                }
                if k < counts.len() {
                    proof {
                        lemma_use_count_bound(seen, c);
                    }
                    let n = counts[k].1 + 1;
                    counts.set(k, (c, n));
                    assert forall|id: DeckConfId|
                        (forall|q: int|
                            0 <= q < counts@.len() ==> #[trigger] counts@[q].0 != id) implies use_count(
                        next,
                        id,
                    ) == 0 by {
                        assert(counts@[k as int].0 == c);
                        assert forall|q: int| 0 <= q < before.len() implies #[trigger] before[q].0
                            != id by {
                            assert(counts@[q].0 != id);
                        }
                        assert(use_count(seen, id) == 0);
                    }
                } else {
                    counts.push((c, 1));
                    assert forall|id: DeckConfId|
                        (forall|q: int|
                            0 <= q < counts@.len() ==> #[trigger] counts@[q].0 != id) implies use_count(
                        next,
                        id,
                    ) == 0 by {
                        assert(counts@[before.len() as int].0 == c);
                        assert forall|q: int| 0 <= q < before.len() implies #[trigger] before[q].0
                            != id by {
                            assert(counts@[q].0 != id);
                        }
                        assert(use_count(seen, id) == 0);
                    }
                }
            } else {
                assert forall|id: DeckConfId|
                    (forall|q: int|
                        0 <= q < counts@.len() ==> #[trigger] counts@[q].0 != id) implies use_count(
                    next,
                    id,
                ) == 0 by {
                    assert(use_count(seen, id) == 0);
                }
            }
            i = i + 1;
        }
        assert(self.decks@.take(self.decks@.len() as int) == self.decks@);
        counts
    }
}

} // verus!
