//! The game-data document, decoded field by field: each field may be
//! missing, of the wrong shape, or a plain value. Construction checks the
//! fields in a fixed order and then derives the same per-location visit
//! knowledge as the night module.

use crate::graph::valid_location;
use crate::night::clues_view;
use crate::night::derive_locations;
use crate::night::derived_status;
use crate::night::first_bad_location;
pub use crate::night::Location;
use vstd::prelude::*;

verus! {

/// Faults that can arise while building a `Game` from a decoded document.
#[derive(Debug, PartialEq, Eq)]
pub enum Error {
    /// The document is not a mapping at all.
    GameDataNotAnObject,
    /// The named field is absent.
    MissingKey(String),
    /// The named field does not have the expected shape.
    InvalidValueForKey(String),
    /// A location value lies outside the valid index range.
    InvalidLocationValue(usize),
}

/// One field of the document: absent, present but of the wrong shape, or a
/// decoded value.
pub enum GameField<T> {
    Missing,
    Invalid,
    Value(T),
}

/// The decoded fields of a game-data document.
pub struct GameFields {
    pub murder_location: GameField<u32>,
    pub jack_known_locations: GameField<Vec<u32>>,
    pub jack_nb_moves: GameField<u32>,
    pub jack_alleyways: GameField<Vec<u32>>,
    pub failed_clues_per_turn: GameField<Vec<Vec<usize>>>,
}

/// A decoded game-data document: either not a mapping at all, or its
/// fields.
pub enum GameData {
    NotAnObject,
    Object(GameFields),
}

/// The first absent or wrongly shaped field, in checking order, with
/// whether it was absent (`true`) or wrongly shaped (`false`).
pub open spec fn first_field_fault(f: GameFields) -> Option<(Seq<char>, bool)> {
    if f.murder_location is Missing {
        Some(("murder_location"@, true))
    } else if f.murder_location is Invalid {
        Some(("murder_location"@, false))
    } else if f.jack_known_locations is Missing {
        Some(("jack_known_locations"@, true))
    } else if f.jack_known_locations is Invalid {
        Some(("jack_known_locations"@, false))
    } else if f.jack_nb_moves is Missing {
        Some(("jack_nb_moves"@, true))
    } else if f.jack_nb_moves is Invalid {
        Some(("jack_nb_moves"@, false))
    } else if f.jack_alleyways is Missing {
        Some(("jack_alleyways"@, true))
    } else if f.jack_alleyways is Invalid {
        Some(("jack_alleyways"@, false))
    } else if f.failed_clues_per_turn is Missing {
        Some(("failed_clues_per_turn"@, true))
    } else if f.failed_clues_per_turn is Invalid {
        Some(("failed_clues_per_turn"@, false))
    } else {
        None
    }
}

/// First out-of-range location in a fully decoded document, in checking
/// order: the start location, then the observations.
pub open spec fn game_first_bad(
    murder_location: u32,
    known: Seq<u32>,
    failed: Seq<Seq<usize>>,
) -> Option<usize> {
    if !valid_location(murder_location) {
        Some(murder_location as usize)
    } else {
        first_bad_location(failed, known)
    }
}

/// One game: start location, move budget, observations, and the visit
/// knowledge derived from them at construction.
#[derive(Debug)]
pub struct Game {
    murder_location: u32,
    jack_nb_moves: u32,
    jack_known_locations: Vec<u32>,
    jack_alleyways: Vec<u32>,
    locations: Vec<Location>,
}

impl Game {
    /// The start location.
    pub closed spec fn spec_murder_location(&self) -> u32 {
        self.murder_location
    }

    /// The move budget.
    pub closed spec fn spec_nb_moves(&self) -> u32 {
        self.jack_nb_moves
    }

    /// The known-visited locations, in the order given.
    pub closed spec fn spec_known(&self) -> Seq<u32> {
        self.jack_known_locations@
    }

    /// The 0-based turn offsets that use the alleyway edge class.
    pub closed spec fn spec_alleyways(&self) -> Seq<u32> {
        self.jack_alleyways@
    }

    /// The derived visit knowledge, one entry per location.
    pub closed spec fn spec_statuses(&self) -> Seq<Location> {
        self.locations@
    }

    /// A well-formed game has a valid start, valid known locations, and one
    /// knowledge entry per location.
    pub open spec fn wf(&self) -> bool {
        &&& valid_location(self.spec_murder_location())
        &&& forall|i: int|
            0 <= i < self.spec_known().len() ==> valid_location(#[trigger] self.spec_known()[i])
        &&& self.spec_statuses().len() == 195
    }

    /// Builds the game from a decoded document. Fails on the first absent
    /// or wrongly shaped field in checking order, then on the first
    /// location value outside the board (the start location first, then
    /// the observations in processing order).
    pub fn from_json(data: GameData) -> (r: Result<Game, Error>)
        requires
            data matches GameData::Object(f) ==> f.failed_clues_per_turn matches GameField::Value(
                fc,
            ) ==> fc@.len() <= u32::MAX,
        ensures
            data matches GameData::NotAnObject ==> r == Err::<Game, Error>(
                Error::GameDataNotAnObject,
            ),
            data matches GameData::Object(f) ==> match first_field_fault(f) {
                Some((name, missing)) => r matches Err(e) && (if missing {
                    e matches Error::MissingKey(k) && k@ == name
                } else {
                    e matches Error::InvalidValueForKey(k) && k@ == name
                }),
                None => {
                    &&& f.murder_location matches GameField::Value(murder)
                    &&& f.jack_known_locations matches GameField::Value(known)
                    &&& f.failed_clues_per_turn matches GameField::Value(fc)
                    &&& match game_first_bad(murder, known@, clues_view(fc@)) {
                        Some(v) => r == Err::<Game, Error>(Error::InvalidLocationValue(v)),
                        None => r is Ok,
                    }
                },
            },
            data matches GameData::Object(f) ==> r matches Ok(g) ==> {
                &&& f.murder_location matches GameField::Value(murder)
                &&& f.jack_nb_moves matches GameField::Value(moves)
                &&& f.jack_known_locations matches GameField::Value(known)
                &&& f.jack_alleyways matches GameField::Value(alleys)
                &&& f.failed_clues_per_turn matches GameField::Value(fc)
                &&& g.wf()
                &&& g.spec_murder_location() == murder
                &&& g.spec_nb_moves() == moves
                &&& g.spec_known() == known@
                &&& g.spec_alleyways() == alleys@
                &&& forall|node: u32|
                    valid_location(node) ==> g.spec_statuses()[node - 1] == derived_status(
                        clues_view(fc@),
                        known@,
                        node,
                    )
            },
    {
        let fields = match data {
            GameData::NotAnObject => {
                return Err(Error::GameDataNotAnObject);
            },
            GameData::Object(fields) => fields,
        };

        let murder_location = match fields.murder_location {
            GameField::Missing => {
                return Err(Error::MissingKey("murder_location".to_string()));
            },
            GameField::Invalid => {
                return Err(Error::InvalidValueForKey("murder_location".to_string()));
            },
            GameField::Value(v) => v,
        };
        let jack_known_locations = match fields.jack_known_locations {
            GameField::Missing => {
                return Err(Error::MissingKey("jack_known_locations".to_string()));
            },
            GameField::Invalid => {
                return Err(Error::InvalidValueForKey("jack_known_locations".to_string()));
            },
            GameField::Value(v) => v,
        };
        let jack_nb_moves = match fields.jack_nb_moves {
            GameField::Missing => {
                return Err(Error::MissingKey("jack_nb_moves".to_string()));
            },
            GameField::Invalid => {
                return Err(Error::InvalidValueForKey("jack_nb_moves".to_string()));
            },
            GameField::Value(v) => v,
        };
        let jack_alleyways = match fields.jack_alleyways {
            GameField::Missing => {
                return Err(Error::MissingKey("jack_alleyways".to_string()));
            },
            GameField::Invalid => {
                return Err(Error::InvalidValueForKey("jack_alleyways".to_string()));
            },
            GameField::Value(v) => v,
        };
        let failed_clues = match fields.failed_clues_per_turn {
            GameField::Missing => {
                return Err(Error::MissingKey("failed_clues_per_turn".to_string()));
            },
            GameField::Invalid => {
                return Err(Error::InvalidValueForKey("failed_clues_per_turn".to_string()));
            },
            GameField::Value(v) => v,
        };

        if murder_location < 1 || murder_location > 195 {
            return Err(Error::InvalidLocationValue(murder_location as usize));
        }
        let locations = match derive_locations(&failed_clues, &jack_known_locations) {
            Ok(locations) => locations,
            Err(v) => {
                return Err(Error::InvalidLocationValue(v));
            },
        };
        proof {
            crate::night::lemma_known_all_valid(jack_known_locations@, 0);
        }
        Ok(
            Game {
                murder_location,
                jack_nb_moves,
                jack_known_locations,
                jack_alleyways,
                locations,
            },
        )
    }

    /// The start location.
    pub fn murder_location(&self) -> (r: &u32)
        ensures
            *r == self.spec_murder_location(),
    {
        &self.murder_location
    }

    /// The move budget.
    pub fn jack_nb_moves(&self) -> (r: &u32)
        ensures
            *r == self.spec_nb_moves(),
    {
        &self.jack_nb_moves
    }

    /// The 0-based turn offsets that use the alleyway edge class.
    pub fn jack_alleyways(&self) -> (r: &Vec<u32>)
        ensures
            r@ == self.spec_alleyways(),
    {
        &self.jack_alleyways
    }

    /// The known-visited locations, in the order given.
    pub fn jack_known_locations(&self) -> (r: &Vec<u32>)
        ensures
            r@ == self.spec_known(),
    {
        &self.jack_known_locations
    }

    /// The derived visit knowledge for one location.
    pub fn jack_visit_status_for_location(&self, location_index: &u32) -> (r: &Location)
        requires
            self.wf(),
            valid_location(*location_index),
        ensures
            *r == self.spec_statuses()[*location_index - 1],
    {
        &self.locations[(*location_index as usize) - 1]
    }
}

} // verus!
