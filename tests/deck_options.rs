use deck_options::deckconf::{AnkiError, Deck, DeckConfId, DeckConfig, DeckId, DeckKind};
use deck_options::order::bytes_less;
use deck_options::update::Collection;

fn config(id: i64, name: &str) -> DeckConfig {
    DeckConfig { id: DeckConfId(id), name: name.to_string(), new_per_day: 20, reviews_per_day: 200 }
}

fn normal(id: i64, name: &str, parent: Option<i64>, conf: i64) -> Deck {
    Deck {
        id: DeckId(id),
        name: name.to_string(),
        parent_id: parent.map(DeckId),
        kind: DeckKind::Normal { config_id: DeckConfId(conf) },
    }
}

fn filtered(id: i64, name: &str, parent: Option<i64>) -> Deck {
    Deck { id: DeckId(id), name: name.to_string(), parent_id: parent.map(DeckId), kind: DeckKind::Filtered }
}

fn names(col: &Collection) -> Vec<String> {
    col.get_deck_config_with_extra_for_update().iter().map(|c| c.config.name.clone()).collect()
}

fn sample() -> Collection {
    Collection {
        deck_configs: vec![config(2, "Zen"), config(1, "Basic")],
        decks: vec![
            normal(10, "Root", None, 1),
            normal(11, "Root::Child", Some(10), 1),
            normal(12, "Root::Child::Leaf", Some(11), 1),
            filtered(13, "Filtered", None),
        ],
    }
}

#[test]
fn profiles_sorted_with_counts() {
    let col = sample();
    let rows = col.get_deck_config_with_extra_for_update();
    assert_eq!(rows.len(), 2);
    assert_eq!(rows[0].config.name, "Basic");
    assert_eq!(rows[0].config.id, DeckConfId(1));
    assert_eq!(rows[0].use_count, 3);
    assert_eq!(rows[1].config.name, "Zen");
    assert_eq!(rows[1].config.id, DeckConfId(2));
    assert_eq!(rows[1].use_count, 0);
}

#[test]
fn profiles_sorted_whatever_storage_order() {
    let mut col = sample();
    col.deck_configs.reverse();
    assert_eq!(names(&col), vec!["Basic".to_string(), "Zen".to_string()]);
}

#[test]
fn sort_is_bytewise_and_stable() {
    let col = Collection {
        deck_configs: vec![
            config(1, "b"),
            config(2, "a"),
            config(3, "B"),
            config(4, "a"),
            config(5, "é"),
            config(6, ""),
            config(7, "ab"),
        ],
        decks: vec![],
    };
    let rows = col.get_deck_config_with_extra_for_update();
    let ids: Vec<i64> = rows.iter().map(|r| r.config.id.0).collect();
    assert_eq!(ids, vec![6, 3, 2, 4, 7, 1, 5]);
    assert!(rows.iter().all(|r| r.use_count == 0));
}

#[test]
fn no_profiles_gives_empty_list() {
    let col = Collection { deck_configs: vec![], decks: vec![normal(1, "A", None, 9)] };
    assert!(col.get_deck_config_with_extra_for_update().is_empty());
}

#[test]
fn use_counts_skip_filtered_and_keep_orphans() {
    let col = Collection {
        deck_configs: vec![config(1, "One")],
        decks: vec![
            normal(1, "A", None, 1),
            filtered(2, "F", None),
            normal(3, "B", None, 7),
            normal(4, "C", None, 7),
            filtered(5, "G", None),
        ],
    };
    let mut counts = col.get_deck_config_use_counts();
    counts.sort_by_key(|c| c.0 .0);
    assert_eq!(counts, vec![(DeckConfId(1), 1), (DeckConfId(7), 2)]);
    let rows = col.get_deck_config_with_extra_for_update();
    assert_eq!(rows.len(), 1);
    assert_eq!(rows[0].use_count, 1);
}

#[test]
fn no_ancestors_gives_empty_set() {
    let col = sample();
    let ids = col.parent_config_ids(&col.decks[0]);
    assert!(ids.is_empty());
}

#[test]
fn ancestor_profiles_are_deduplicated() {
    let col = Collection {
        deck_configs: vec![config(1, "A"), config(2, "B")],
        decks: vec![
            normal(1, "Top", None, 1),
            normal(2, "Top::Mid", Some(1), 2),
            normal(3, "Top::Mid::Low", Some(2), 1),
            normal(4, "Top::Mid::Low::Leaf", Some(3), 2),
        ],
    };
    let mut ids = col.parent_config_ids(&col.decks[3]);
    ids.sort_by_key(|c| c.0);
    assert_eq!(ids, vec![DeckConfId(1), DeckConfId(2)]);
}

#[test]
fn filtered_ancestors_are_skipped() {
    let col = Collection {
        deck_configs: vec![config(1, "A")],
        decks: vec![
            normal(1, "Top", None, 1),
            filtered(2, "Top::F", Some(1)),
            normal(3, "Top::F::Leaf", Some(2), 5),
        ],
    };
    assert_eq!(col.parent_decks(&col.decks[2]), vec![1, 0]);
    assert_eq!(col.parent_config_ids(&col.decks[2]), vec![DeckConfId(1)]);
}

#[test]
fn current_deck_resolved() {
    let mut col = sample();
    let cd = col.get_current_deck_for_update(DeckId(12)).unwrap();
    assert_eq!(cd.name, "Root::Child::Leaf");
    assert_eq!(cd.config_id, DeckConfId(1));
    assert_eq!(cd.parent_config_ids, vec![DeckConfId(1)]);
}

#[test]
fn missing_deck_is_not_found() {
    let mut col = sample();
    assert!(matches!(col.get_deck_config_for_update(DeckId(99)), Err(AnkiError::NotFound)));
    assert!(matches!(col.get_current_deck_for_update(DeckId(99)), Err(AnkiError::NotFound)));
}

#[test]
fn filtered_deck_is_an_error() {
    let mut col = sample();
    assert!(matches!(col.get_deck_config_for_update(DeckId(13)), Err(AnkiError::NotFound)));
}

#[test]
fn full_query_and_defaults() {
    let mut col = sample();
    let out = col.get_deck_config_for_update(DeckId(11)).unwrap();
    assert_eq!(out.all_config.len(), 2);
    assert_eq!(out.all_config[0].config.name, "Basic");
    assert_eq!(out.all_config[0].use_count, 3);
    assert_eq!(out.all_config[1].config.name, "Zen");
    assert_eq!(out.all_config[1].use_count, 0);
    assert_eq!(out.current_deck.name, "Root::Child");
    assert_eq!(out.current_deck.config_id, DeckConfId(1));
    assert_eq!(out.current_deck.parent_config_ids, vec![DeckConfId(1)]);
    assert_eq!(out.defaults.id, DeckConfId(0));
    assert_eq!(out.defaults.name, "Default");
    assert_eq!(out.defaults.new_per_day, 20);
    assert_eq!(out.defaults.reviews_per_day, 200);
}

#[test]
fn query_twice_gives_same_answer() {
    let mut col = sample();
    let a = format!("{:?}", col.get_deck_config_for_update(DeckId(12)));
    let b = format!("{:?}", col.get_deck_config_for_update(DeckId(12)));
    assert_eq!(a, b);
}

#[test]
fn cycle_in_hierarchy_terminates() {
    let col = Collection {
        deck_configs: vec![config(1, "A"), config(2, "B")],
        decks: vec![normal(1, "X", Some(2), 1), normal(2, "Y", Some(1), 2)],
    };
    assert_eq!(col.parent_decks(&col.decks[0]), vec![1, 0]);
    assert_eq!(col.parent_config_ids(&col.decks[0]), vec![DeckConfId(2), DeckConfId(1)]);
}

#[test]
fn duplicate_copies_every_field() {
    let c = DeckConfig { id: DeckConfId(5), name: "Five".to_string(), new_per_day: 3, reviews_per_day: 4 };
    let d = c.duplicate();
    assert_eq!(d.id, DeckConfId(5));
    assert_eq!(d.name, "Five");
    assert_eq!(d.new_per_day, 3);
    assert_eq!(d.reviews_per_day, 4);
}

#[test]
fn bytes_less_orders_lexicographically() {
    assert!(bytes_less(b"Basic", b"Zen"));
    assert!(!bytes_less(b"Zen", b"Basic"));
    assert!(bytes_less(b"ab", b"abc"));
    assert!(!bytes_less(b"abc", b"abc"));
    assert!(bytes_less(b"", b"a"));
}

#[test]
fn use_counts_of_no_decks_are_empty() {
    let col = Collection { deck_configs: vec![config(1, "One")], decks: vec![] };
    assert!(col.get_deck_config_use_counts().is_empty());
}

#[test]
fn use_counts_exact_with_filtered_deck() {
    let col = Collection {
        deck_configs: vec![config(1, "One")],
        decks: vec![
            normal(1, "A", None, 1),
            normal(2, "B", None, 1),
            filtered(3, "F", None),
            normal(4, "C", None, 1),
        ],
    };
    assert_eq!(col.get_deck_config_use_counts(), vec![(DeckConfId(1), 3)]);
}

#[test]
fn filtered_decks_leave_use_counts_unchanged() {
    let base = Collection {
        deck_configs: vec![],
        decks: vec![normal(1, "A", None, 4), normal(2, "B", None, 5), normal(3, "C", None, 4)],
    };
    let more = Collection {
        deck_configs: vec![],
        decks: vec![
            filtered(9, "F1", None),
            normal(1, "A", None, 4),
            filtered(8, "F2", None),
            normal(2, "B", None, 5),
            normal(3, "C", None, 4),
            filtered(7, "F3", None),
        ],
    };
    let mut a = base.get_deck_config_use_counts();
    let mut b = more.get_deck_config_use_counts();
    a.sort_by_key(|c| c.0 .0);
    b.sort_by_key(|c| c.0 .0);
    assert_eq!(a, vec![(DeckConfId(4), 2), (DeckConfId(5), 1)]);
    assert_eq!(a, b);
}

#[test]
fn profile_list_ignores_storage_order() {
    let decks = || vec![normal(1, "A", None, 3), normal(2, "B", None, 1), normal(3, "C", None, 3)];
    let first = Collection { deck_configs: vec![config(1, "m"), config(2, "c"), config(3, "x")], decks: decks() };
    let second = Collection { deck_configs: vec![config(3, "x"), config(1, "m"), config(2, "c")], decks: decks() };
    let a: Vec<(i64, usize)> =
        first.get_deck_config_with_extra_for_update().iter().map(|r| (r.config.id.0, r.use_count)).collect();
    let b: Vec<(i64, usize)> =
        second.get_deck_config_with_extra_for_update().iter().map(|r| (r.config.id.0, r.use_count)).collect();
    assert_eq!(a, vec![(2, 0), (1, 1), (3, 2)]);
    assert_eq!(a, b);
}
