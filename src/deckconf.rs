use vstd::prelude::*;

verus! {

/// Identity of a configuration profile.
#[derive(Clone, Copy, Debug, PartialEq, Eq, Structural, Hash)]
pub struct DeckConfId(pub i64);

/// Identity of a deck.
#[derive(Clone, Copy, Debug, PartialEq, Eq, Structural, Hash)]
pub struct DeckId(pub i64);

/// A configuration profile: a named bundle of scheduling settings that decks
/// can share.
#[derive(Debug)]
pub struct DeckConfig {
    pub id: DeckConfId,
    pub name: String,
    pub new_per_day: u32,
    pub reviews_per_day: u32,
}

/// Name given to the built-in profile.
pub open spec fn default_name() -> Seq<char> {
    "Default"@
}

/// New cards per day in the built-in profile.
pub const DEFAULT_NEW_PER_DAY: u32 = 20;

/// Reviews per day in the built-in profile.
pub const DEFAULT_REVIEWS_PER_DAY: u32 = 200;

impl DeckConfig {
    /// A copy of this profile, field for field.
    pub fn duplicate(&self) -> (r: DeckConfig)
        ensures
            r == *self,
    {
        DeckConfig {
            id: self.id,
            name: self.name.clone(),
            new_per_day: self.new_per_day,
            reviews_per_day: self.reviews_per_day,
        }
    }

    /// The sort key of a profile: the UTF-8 bytes of its name.
    pub open spec fn name_key(self) -> Seq<u8> {
        vstd::utf8::encode_utf8(self.name@)
    }
}

impl Default for DeckConfig {
    /// The built-in profile offered when a new one is created. It is never
    /// stored, so its id is zero.
    fn default() -> (r: DeckConfig)
        ensures
            r.id == DeckConfId(0),
            r.name@ == default_name(),
            r.new_per_day == DEFAULT_NEW_PER_DAY,
            r.reviews_per_day == DEFAULT_REVIEWS_PER_DAY,
    {
        proof {
            reveal_strlit("Default");
        }
        DeckConfig {
            id: DeckConfId(0),
            name: "Default".to_owned(),
            new_per_day: DEFAULT_NEW_PER_DAY,
            reviews_per_day: DEFAULT_REVIEWS_PER_DAY,
        }
    }
}

/// What kind of deck a deck is: a normal deck carries the profile assigned
/// to it, a filtered deck carries none.
#[derive(Clone, Copy, Debug, PartialEq, Eq, Structural)]
pub enum DeckKind {
    Normal { config_id: DeckConfId },
    Filtered,
}

/// A deck, with the deck above it in the hierarchy, if any.
#[derive(Debug)]
pub struct Deck {
    pub id: DeckId,
    pub name: String,
    pub parent_id: Option<DeckId>,
    pub kind: DeckKind,
}

impl Deck {
    /// The profile of a normal deck; none for any other kind.
    pub open spec fn spec_normal(self) -> Option<DeckConfId> {
        match self.kind {
            DeckKind::Normal { config_id } => Some(config_id),
            DeckKind::Filtered => None,
        }
    }

    /// The profile of a normal deck; `NotFound` for any other kind.
    pub fn normal(&self) -> (r: Result<DeckConfId, AnkiError>)
        ensures
            r matches Ok(c) ==> self.spec_normal() == Some(c),
            r is Err <==> self.spec_normal() is None,
    {
        match self.kind {
            DeckKind::Normal { config_id } => Ok(config_id),
            DeckKind::Filtered => Err(AnkiError::NotFound),
        }
    }
}

/// Why a query could not be answered.
#[derive(Clone, Copy, Debug, PartialEq, Eq, Structural)]
pub enum AnkiError {
    /// The deck does not exist, or it is not a deck that carries a profile.
    NotFound,
}

} // verus!
