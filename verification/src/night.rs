//! One night of the puzzle: the start location, the move budget, the raw
//! observations, and the per-location visit knowledge derived from them.
//!
//! Derivation is order-sensitive: negative clues are applied in increasing
//! turn order (a later "not visited as of turn t" overwrites an earlier
//! one), then each known-visited location either sharpens an existing
//! floor into `VisitedAfter` or becomes an unconditional `Visited`.

use crate::graph::contains_location;
use crate::graph::valid_location;
use vstd::prelude::*;

verus! {

broadcast use vstd::seq_lib::group_seq_properties;

/// Faults that can arise while building a `Night` from a decoded document.
#[derive(Debug, PartialEq, Eq)]
pub enum Error {
    /// The document does not decode into the night's fields.
    InvalidJSONValue,
    /// A location value lies outside the valid index range.
    InvalidLocationValue(usize),
}

/// What is known about one location's visit during the night.
#[derive(Clone, Copy, Debug, PartialEq, Eq)]
pub enum Location {
    /// No information.
    Unknown,
    /// Confirmed not visited at any point up to and including this turn.
    NeverVisitedAsOf(u32),
    /// Confirmed visited, and confirmed not visited up to this turn: the
    /// visit happened strictly after it.
    VisitedAfter(u32),
    /// Confirmed visited, with no temporal bound.
    Visited,
}

/// Which edge class a turn's move must use.
#[derive(Clone, Copy, Debug, PartialEq, Eq)]
pub enum MoveType {
    Regular,
    Alleyway,
}

/// The raw fields of a night document.
pub struct NightFields {
    pub murder_location: u32,
    pub jack_nb_moves: u32,
    pub jack_known_locations: Vec<u32>,
    pub jack_alleyways: Vec<u32>,
    pub failed_clues_per_turn: Vec<Vec<usize>>,
}

/// A decoded night document: either it did not decode into the expected
/// fields, or those fields.
pub enum NightData {
    Invalid,
    Valid(NightFields),
}

/// A clue value is valid when it names a location on the board.
pub open spec fn valid_clue(c: usize) -> bool {
    1 <= c <= 195
}

/// The per-turn clue lists as sequences.
pub open spec fn clues_view(v: Seq<Vec<usize>>) -> Seq<Seq<usize>> {
    Seq::new(v.len(), |i: int| v[i]@)
}

/// The last turn (1-based) whose failed-clue list names the location, if
/// any: the strongest "not visited as of" floor for it.
pub open spec fn last_clue_turn(failed: Seq<Seq<usize>>, node: u32) -> Option<u32>
    decreases failed.len(),
{
    if failed.len() == 0 {
        None
    } else if failed.last().contains(node as usize) {
        Some(failed.len() as u32)
    } else {
        last_clue_turn(failed.drop_last(), node)
    }
}

/// Visit knowledge for a location after the negative clues alone.
pub open spec fn floor_status(failed: Seq<Seq<usize>>, node: u32) -> Location {
    match last_clue_turn(failed, node) {
        Some(t) => Location::NeverVisitedAsOf(t),
        None => Location::Unknown,
    }
}

/// Visit knowledge for a location after negative clues and known visits.
pub open spec fn derived_status(failed: Seq<Seq<usize>>, known: Seq<u32>, node: u32) -> Location {
    if known.contains(node) {
        match last_clue_turn(failed, node) {
            Some(t) => Location::VisitedAfter(t),
            None => Location::Visited,
        }
    } else {
        floor_status(failed, node)
    }
}

/// First invalid clue value at or after position `i` of one turn's list.
pub open spec fn first_invalid_clue_in(l: Seq<usize>, i: int) -> Option<usize>
    decreases l.len() - i,
{
    if i < 0 || i >= l.len() {
        None
    } else if !valid_clue(l[i]) {
        Some(l[i])
    } else {
        first_invalid_clue_in(l, i + 1)
    }
}

/// First invalid clue value at or after turn index `t`, in processing order.
pub open spec fn first_bad_clue(failed: Seq<Seq<usize>>, t: int) -> Option<usize>
    decreases failed.len() - t,
{
    if t < 0 || t >= failed.len() {
        None
    } else {
        match first_invalid_clue_in(failed[t], 0) {
            Some(c) => Some(c),
            None => first_bad_clue(failed, t + 1),
        }
    }
}

/// First invalid known-visited value at or after position `j`.
pub open spec fn first_invalid_known_from(known: Seq<u32>, j: int) -> Option<u32>
    decreases known.len() - j,
{
    if j < 0 || j >= known.len() {
        None
    } else if !valid_location(known[j]) {
        Some(known[j])
    } else {
        first_invalid_known_from(known, j + 1)
    }
}

/// First out-of-range location named by the observations, in processing
/// order: clue lists in turn order first, then the known-visited list.
pub open spec fn first_bad_location(failed: Seq<Seq<usize>>, known: Seq<u32>) -> Option<usize> {
    match first_bad_clue(failed, 0) {
        Some(c) => Some(c),
        None => match first_invalid_known_from(known, 0) {
            Some(k) => Some(k as usize),
            None => None,
        },
    }
}

/// First out-of-range location in a night document, in checking order:
/// the start location, then the observations.
pub open spec fn night_first_bad(f: NightFields) -> Option<usize> {
    if !valid_location(f.murder_location) {
        Some(f.murder_location as usize)
    } else {
        first_bad_location(clues_view(f.failed_clues_per_turn@), f.jack_known_locations@)
    }
}

/// A known list whose scan finds no invalid value holds valid locations only.
pub(crate) proof fn lemma_known_all_valid(known: Seq<u32>, j: int)
    requires
        0 <= j <= known.len(),
        first_invalid_known_from(known, j) is None,
    ensures
        forall|k: int| j <= k < known.len() ==> valid_location(known[k]),
    decreases known.len() - j,
{
    if j < known.len() {
        lemma_known_all_valid(known, j + 1);
    }
}

/// Derives the per-location visit knowledge from the observations, or
/// reports the first out-of-range location named by them.
#[verifier::loop_isolation(false)]
pub(crate) fn derive_locations(failed_clues: &Vec<Vec<usize>>, known: &Vec<u32>) -> (r: Result<
    Vec<Location>,
    usize,
>)
    requires
        failed_clues@.len() <= u32::MAX,
    ensures
        r matches Ok(locs) ==> {
            &&& first_bad_location(clues_view(failed_clues@), known@) is None
            &&& locs@.len() == 195
            &&& forall|node: u32|
                valid_location(node) ==> locs@[node - 1] == derived_status(
                    clues_view(failed_clues@),
                    known@,
                    node,
                )
        },
        r matches Err(v) ==> first_bad_location(clues_view(failed_clues@), known@) == Some(v),
{
    let ghost cv = clues_view(failed_clues@);
    let mut locations: Vec<Location> = Vec::new();
    for z in 0..195usize
        invariant
            locations@.len() == z,
            forall|k: int| 0 <= k < z ==> locations@[k] == Location::Unknown,
    {
        locations.push(Location::Unknown);
    }
    proof {
        assert forall|node: u32| valid_location(node) implies locations@[node - 1] == floor_status(
            cv.take(0),
            node,
        ) by {
            assert(cv.take(0).len() == 0);
        }
    }

    for t in 0..failed_clues.len()
        invariant
            locations@.len() == 195,
            first_bad_clue(cv, 0) == first_bad_clue(cv, t as int),
            forall|node: u32|
                valid_location(node) ==> locations@[node - 1] == floor_status(
                    cv.take(t as int),
                    node,
                ),
    {
        let turn: u32 = (t as u32) + 1;
        let clue_list = &failed_clues[t];
        for c in 0..clue_list.len()
            invariant
                locations@.len() == 195,
                first_invalid_clue_in(cv[t as int], 0) == first_invalid_clue_in(
                    cv[t as int],
                    c as int,
                ),
                forall|node: u32|
                    valid_location(node) ==> locations@[node - 1] == (if cv[t as int].take(
                        c as int,
                    ).contains(node as usize) {
                        Location::NeverVisitedAsOf(turn)
                    } else {
                        floor_status(cv.take(t as int), node)
                    }),
        {
            let clue = clue_list[c];
            if clue < 1 || clue > 195 {
                proof {
                    assert(first_invalid_clue_in(cv[t as int], c as int) == Some(clue));
                    assert(first_bad_clue(cv, t as int) == Some(clue));
                }
                return Err(clue);
            }
            locations.set(clue - 1, Location::NeverVisitedAsOf(turn));
            proof {
                assert(cv[t as int].take(c + 1) =~= cv[t as int].take(c as int).push(
                    cv[t as int][c as int],
                ));
            }
        }
        proof {
            assert(cv[t as int].take(cv[t as int].len() as int) =~= cv[t as int]);
            assert(cv.take(t + 1).drop_last() =~= cv.take(t as int));
            assert(cv.take(t + 1).last() == cv[t as int]);
            assert forall|node: u32| valid_location(node) implies locations@[node - 1]
                == floor_status(cv.take(t + 1), node) by {
                if cv[t as int].contains(node as usize) {
                    assert(last_clue_turn(cv.take(t + 1), node) == Some((t + 1) as u32));
                } else {
                    assert(last_clue_turn(cv.take(t + 1), node) == last_clue_turn(
                        cv.take(t as int),
                        node,
                    ));
                }
            }
        }
    }
    proof {
        assert(cv.take(cv.len() as int) =~= cv);
    }

    for j in 0..known.len()
        invariant
            locations@.len() == 195,
            first_bad_clue(cv, 0) is None,
            first_invalid_known_from(known@, 0) == first_invalid_known_from(known@, j as int),
            forall|node: u32|
                valid_location(node) ==> locations@[node - 1] == derived_status(
                    cv,
                    known@.take(j as int),
                    node,
                ),
    {
        let loc = known[j];
        if loc < 1 || loc > 195 {
            return Err(loc as usize);
        }
        let zero_idx_loc = (loc as usize) - 1;
        let updated = match locations[zero_idx_loc] {
            Location::NeverVisitedAsOf(turn) => Location::VisitedAfter(turn),
            Location::VisitedAfter(turn) => Location::VisitedAfter(turn),
            _ => Location::Visited,
        };
        locations.set(zero_idx_loc, updated);
        proof {
            assert(known@.take(j + 1) =~= known@.take(j as int).push(known@[j as int]));
            assert forall|node: u32| valid_location(node) implies locations@[node - 1]
                == derived_status(cv, known@.take(j + 1), node) by {
                if node != loc {
                    assert(known@.take(j + 1).contains(node) == known@.take(j as int).contains(
                        node,
                    ));
                } else {
                    assert(known@.take(j + 1).contains(node));
                }
            }
        }
    }
    proof {
        assert(known@.take(known@.len() as int) =~= known@);
    }
    Ok(locations)
}

/// One night: start location, move budget, observations, and the visit
/// knowledge derived from them at construction.
#[derive(Debug)]
pub struct Night {
    murder_location: u32,
    jack_nb_moves: u32,
    jack_known_locations: Vec<u32>,
    jack_alleyways: Vec<u32>,
    failed_clues_per_turn: Vec<Vec<usize>>,
    locations: Vec<Location>,
}

impl Night {
    /// The start location.
    pub closed spec fn spec_murder_location(&self) -> u32 {
        self.murder_location
    }

    /// The move budget.
    pub closed spec fn spec_nb_moves(&self) -> u32 {
        self.jack_nb_moves
    }

    /// The known-visited locations, in the order given.
    pub closed spec fn spec_known(&self) -> Seq<u32> {
        self.jack_known_locations@
    }

    /// The 0-based turn offsets that use the alleyway edge class.
    pub closed spec fn spec_alleyways(&self) -> Seq<u32> {
        self.jack_alleyways@
    }

    /// The per-turn failed-clue lists.
    pub closed spec fn spec_failed(&self) -> Seq<Seq<usize>> {
        clues_view(self.failed_clues_per_turn@)
    }

    /// The derived visit knowledge, one entry per location.
    pub closed spec fn spec_statuses(&self) -> Seq<Location> {
        self.locations@
    }

    /// A well-formed night has a valid start, valid known locations, and
    /// its knowledge array derived from its observations.
    pub open spec fn wf(&self) -> bool {
        &&& valid_location(self.spec_murder_location())
        &&& forall|i: int|
            0 <= i < self.spec_known().len() ==> valid_location(#[trigger] self.spec_known()[i])
        &&& self.spec_statuses().len() == 195
        &&& forall|node: u32|
            valid_location(node) ==> self.spec_statuses()[node - 1] == derived_status(
                self.spec_failed(),
                self.spec_known(),
                node,
            )
    }

    /// Builds the night from a decoded document: keeps the raw fields and
    /// derives the visit knowledge, failing on the first location value
    /// outside the board (checking the start location first, then the
    /// observations in processing order).
    pub fn from_json(data: NightData) -> (r: Result<Night, Error>)
        requires
            data matches NightData::Valid(f) ==> f.failed_clues_per_turn@.len() <= u32::MAX,
        ensures
            data matches NightData::Invalid ==> r == Err::<Night, Error>(Error::InvalidJSONValue),
            data matches NightData::Valid(f) ==> match night_first_bad(f) {
                Some(v) => r == Err::<Night, Error>(Error::InvalidLocationValue(v)),
                None => r is Ok,
            },
            data matches NightData::Valid(f) ==> r matches Ok(n) ==> {
                &&& n.wf()
                &&& n.spec_murder_location() == f.murder_location
                &&& n.spec_nb_moves() == f.jack_nb_moves
                &&& n.spec_known() == f.jack_known_locations@
                &&& n.spec_alleyways() == f.jack_alleyways@
                &&& n.spec_failed() == clues_view(f.failed_clues_per_turn@)
            },
    {
        let fields = match data {
            NightData::Invalid => {
                return Err(Error::InvalidJSONValue);
            },
            NightData::Valid(fields) => fields,
        };
        if fields.murder_location < 1 || fields.murder_location > 195 {
            return Err(Error::InvalidLocationValue(fields.murder_location as usize));
        }
        let locations = match derive_locations(
            &fields.failed_clues_per_turn,
            &fields.jack_known_locations,
        ) {
            Ok(locations) => locations,
            Err(v) => {
                return Err(Error::InvalidLocationValue(v));
            },
        };
        proof {
            lemma_known_all_valid(fields.jack_known_locations@, 0);
        }
        Ok(
            Night {
                murder_location: fields.murder_location,
                jack_nb_moves: fields.jack_nb_moves,
                jack_known_locations: fields.jack_known_locations,
                jack_alleyways: fields.jack_alleyways,
                failed_clues_per_turn: fields.failed_clues_per_turn,
                locations,
            },
        )
    }

    /// The start location.
    pub fn murder_location(&self) -> (r: &u32)
        ensures
            *r == self.spec_murder_location(),
    {
        &self.murder_location
    }

    /// The move budget.
    pub fn jack_nb_moves(&self) -> (r: &u32)
        ensures
            *r == self.spec_nb_moves(),
    {
        &self.jack_nb_moves
    }

    /// The 0-based turn offsets that use the alleyway edge class.
    pub fn jack_alleyways(&self) -> (r: &Vec<u32>)
        ensures
            r@ == self.spec_alleyways(),
    {
        &self.jack_alleyways
    }

    /// The known-visited locations, in the order given.
    pub fn jack_known_locations(&self) -> (r: &Vec<u32>)
        ensures
            r@ == self.spec_known(),
    {
        &self.jack_known_locations
    }

    /// The derived visit knowledge for one location.
    pub fn jack_visit_status_for_location(&self, location_index: &u32) -> (r: &Location)
        requires
            self.wf(),
            valid_location(*location_index),
        ensures
            *r == self.spec_statuses()[*location_index - 1],
    {
        &self.locations[(*location_index as usize) - 1]
    }

    /// The edge class mandated for a turn: alleyway when the turn's 0-based
    /// offset is listed, regular otherwise. Turns are 1-based.
    pub fn jack_move_type_for_turn(&self, turn: &u32) -> (r: MoveType)
        requires
            *turn >= 1,
        ensures
            r == spec_move_type(self.spec_alleyways(), *turn),
    {
        if contains_location(&self.jack_alleyways, turn - 1) {
            MoveType::Alleyway
        } else {
            MoveType::Regular
        }
    }
}

/// The edge class mandated for a 1-based turn, given the alleyway offsets.
pub open spec fn spec_move_type(alleyways: Seq<u32>, turn: u32) -> MoveType
    recommends
        turn >= 1,
{
    if alleyways.contains((turn - 1) as u32) {
        MoveType::Alleyway
    } else {
        MoveType::Regular
    }
}

} // verus!
