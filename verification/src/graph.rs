//! The static board: for every location in `[MIN_INDEX, MAX_INDEX]`, two
//! ordered neighbour lists (regular moves and alleyway moves). Built
//! all-or-nothing from a decoded graph document; immutable afterwards.

use vstd::prelude::*;

verus! {

broadcast use vstd::seq_lib::group_seq_properties;

/// Smallest valid location index on the board.
pub const MIN_INDEX: usize = 1;

/// Largest valid location index on the board.
pub const MAX_INDEX: usize = 195;

/// A location index is valid when it lies in `[MIN_INDEX, MAX_INDEX]`.
pub open spec fn valid_location(loc: u32) -> bool {
    1 <= loc <= 195
}

/// Faults that can arise while building a `Graph` from a decoded document.
#[derive(Debug, PartialEq, Eq)]
pub enum Error {
    /// The document is not a mapping at all.
    GraphNotAnObject,
    /// The document has no entry for this location index.
    LocationNotFound(u32),
    /// The entry for this location index is not a mapping of move-kind
    /// names to lists of integers.
    LocationNotParsable(u32),
    /// The entry lacks the named move-kind key.
    MissingKey(String),
    /// A neighbour value lies outside `[MIN_INDEX, MAX_INDEX]`.
    InvalidLocationValue(u32),
}

/// The two neighbour lists found under one location's entry; `None` where
/// the move-kind key is absent.
pub struct LocationRecord {
    pub regular_moves: Option<Vec<u32>>,
    pub alleyway_moves: Option<Vec<u32>>,
}

/// One location's entry in a decoded graph document.
pub enum LocationEntry {
    /// The document has no entry for the location.
    Missing,
    /// The entry is not a mapping of move-kind names to lists of integers.
    Unparsable,
    /// The entry's two lists.
    Record(LocationRecord),
}

/// A decoded graph document: either not a mapping at all, or the entries
/// looked up for locations `1..=MAX_INDEX`, in index order (position `i`
/// holds the entry for location `i + 1`; positions past the end of the
/// vector count as missing).
pub enum GraphData {
    NotAnObject,
    Object(Vec<LocationEntry>),
}

/// Entry for location `idx` in the decoded document; absent positions
/// count as missing.
pub open spec fn entry_of(entries: Seq<LocationEntry>, idx: int) -> LocationEntry {
    if 1 <= idx && idx - 1 < entries.len() {
        entries[idx - 1]
    } else {
        LocationEntry::Missing
    }
}

/// First value at or after position `i` that is not a valid location.
pub open spec fn first_invalid_from(l: Seq<u32>, i: int) -> Option<u32>
    decreases l.len() - i,
{
    if i < 0 || i >= l.len() {
        None
    } else if !valid_location(l[i]) {
        Some(l[i])
    } else {
        first_invalid_from(l, i + 1)
    }
}

/// First value in the list that is not a valid location, if any.
pub open spec fn first_invalid_value(l: Seq<u32>) -> Option<u32> {
    first_invalid_from(l, 0)
}

/// The first fault found in one location's entry, in checking order:
/// presence, parsability, the regular list, then the alleyway list.
pub enum EntryFault {
    NotFound,
    NotParsable,
    NoRegularMoves,
    BadRegularValue(u32),
    NoAlleywayMoves,
    BadAlleywayValue(u32),
}

/// The regular list of an entry, empty where absent.
pub open spec fn entry_regular(e: LocationEntry) -> Seq<u32> {
    match e {
        LocationEntry::Record(rec) => match rec.regular_moves {
            Some(l) => l@,
            None => Seq::empty(),
        },
        _ => Seq::empty(),
    }
}

/// The alleyway list of an entry, empty where absent.
pub open spec fn entry_alleyway(e: LocationEntry) -> Seq<u32> {
    match e {
        LocationEntry::Record(rec) => match rec.alleyway_moves {
            Some(l) => l@,
            None => Seq::empty(),
        },
        _ => Seq::empty(),
    }
}

/// Fault of one entry, if any, in checking order.
pub open spec fn entry_fault(e: LocationEntry) -> Option<EntryFault> {
    match e {
        LocationEntry::Missing => Some(EntryFault::NotFound),
        LocationEntry::Unparsable => Some(EntryFault::NotParsable),
        LocationEntry::Record(rec) => match rec.regular_moves {
            None => Some(EntryFault::NoRegularMoves),
            Some(reg) => match first_invalid_value(reg@) {
                Some(v) => Some(EntryFault::BadRegularValue(v)),
                None => match rec.alleyway_moves {
                    None => Some(EntryFault::NoAlleywayMoves),
                    Some(alley) => match first_invalid_value(alley@) {
                        Some(v) => Some(EntryFault::BadAlleywayValue(v)),
                        None => None,
                    },
                },
            },
        },
    }
}

/// First faulty entry at or after location `idx`, scanning up to `MAX_INDEX`.
pub open spec fn first_fault_from(entries: Seq<LocationEntry>, idx: int) -> Option<(int, EntryFault)>
    decreases 196 - idx,
{
    if idx < 1 || idx > 195 {
        None
    } else {
        match entry_fault(entry_of(entries, idx)) {
            Some(f) => Some((idx, f)),
            None => first_fault_from(entries, idx + 1),
        }
    }
}

/// A list with no invalid value is valid throughout.
proof fn lemma_no_invalid_from(l: Seq<u32>, i: int)
    requires
        0 <= i <= l.len(),
        first_invalid_from(l, i) is None,
    ensures
        forall|k: int| i <= k < l.len() ==> valid_location(l[k]),
    decreases l.len() - i,
{
    if i < l.len() {
        lemma_no_invalid_from(l, i + 1);
    }
}

/// A list whose scan finds no invalid value holds valid locations only.
proof fn lemma_all_valid_when_no_invalid(l: Seq<u32>)
    requires
        first_invalid_value(l) is None,
    ensures
        forall|k: int| 0 <= k < l.len() ==> valid_location(l[k]),
{
    lemma_no_invalid_from(l, 0);
}

/// The error that construction reports for the fault of location `idx`.
pub open spec fn error_matches_fault(e: Error, idx: int, f: EntryFault) -> bool {
    match f {
        EntryFault::NotFound => e == Error::LocationNotFound(idx as u32),
        EntryFault::NotParsable => e == Error::LocationNotParsable(idx as u32),
        EntryFault::NoRegularMoves => e matches Error::MissingKey(k) && k@ == "regular_moves"@,
        EntryFault::BadRegularValue(v) => e == Error::InvalidLocationValue(v),
        EntryFault::NoAlleywayMoves => e matches Error::MissingKey(k) && k@ == "alleyway_moves"@,
        EntryFault::BadAlleywayValue(v) => e == Error::InvalidLocationValue(v),
    }
}

/// The immutable adjacency structure: one regular and one alleyway
/// neighbour list per location, in index order.
#[derive(Debug)]
pub struct Graph {
    regular_connections: Vec<Vec<u32>>,
    alleyway_connections: Vec<Vec<u32>>,
}

impl Graph {
    /// The regular neighbour lists, one per location, in index order.
    pub closed spec fn regular(&self) -> Seq<Seq<u32>> {
        Seq::new(self.regular_connections@.len(), |i: int| self.regular_connections@[i]@)
    }

    /// The alleyway neighbour lists, one per location, in index order.
    pub closed spec fn alleyway(&self) -> Seq<Seq<u32>> {
        Seq::new(self.alleyway_connections@.len(), |i: int| self.alleyway_connections@[i]@)
    }

    /// A well-formed graph covers every location and lists only valid
    /// neighbours.
    pub open spec fn wf(&self) -> bool {
        &&& self.regular().len() == 195
        &&& self.alleyway().len() == 195
        &&& forall|i: int, j: int|
            0 <= i < 195 && 0 <= j < self.regular()[i].len() ==> valid_location(
                #[trigger] self.regular()[i][j],
            )
        &&& forall|i: int, j: int|
            0 <= i < 195 && 0 <= j < self.alleyway()[i].len() ==> valid_location(
                #[trigger] self.alleyway()[i][j],
            )
    }

    /// Checks one move-kind list: the key must be present and every value a
    /// valid location. Returns a copy of the list.
    #[verifier::loop_isolation(false)]
    fn verified_connections(connections: &Option<Vec<u32>>, key: &str) -> (r: Result<Vec<u32>, Error>)
        ensures
            match connections {
                None => r matches Err(e) && (e matches Error::MissingKey(k) && k@ == key@),
                Some(l) => match first_invalid_value(l@) {
                    Some(v) => r == Err::<Vec<u32>, Error>(Error::InvalidLocationValue(v)),
                    None => r matches Ok(out) && out@ == l@,
                },
            },
    {
        match connections {
            None => Err(Error::MissingKey(key.to_string())),
            Some(l) => {
                let mut out: Vec<u32> = Vec::new();
                for i in 0..l.len()
                    invariant
                        out@ == l@.take(i as int),
                        first_invalid_from(l@, 0) == first_invalid_from(l@, i as int),
                {
                    let v = l[i];
                    if v < 1 || v > 195 {
                        return Err(Error::InvalidLocationValue(v));
                    }
                    out.push(v);
                }
                proof {
                    assert(out@ =~= l@) by {
                        assert(l@.take(l@.len() as int) =~= l@);
                    }
                }
                Ok(out)
            },
        }
    }

    /// Builds the graph from a decoded document. Fails on the first fault in
    /// index order: a missing or unparsable entry, a missing move-kind key,
    /// or a neighbour outside `[MIN_INDEX, MAX_INDEX]`; no partial graph is
    /// ever produced.
    #[verifier::loop_isolation(false)]
    #[verifier::rlimit(50)]
    pub fn from_json(data: GraphData) -> (r: Result<Graph, Error>)
        ensures
            data matches GraphData::NotAnObject ==> r == Err::<Graph, Error>(
                Error::GraphNotAnObject,
            ),
            data matches GraphData::Object(entries) ==> match first_fault_from(entries@, 1) {
                Some((idx, f)) => r matches Err(e) && error_matches_fault(e, idx, f),
                None => r is Ok,
            },
            data matches GraphData::Object(entries) ==> r matches Ok(g) ==> {
                &&& first_fault_from(entries@, 1) is None
                &&& g.wf()
                &&& forall|n: int|
                    1 <= n <= 195 ==> (#[trigger] g.regular()[n - 1]) == entry_regular(
                        entry_of(entries@, n),
                    ) && g.alleyway()[n - 1] == entry_alleyway(entry_of(entries@, n))
            },
    {
        let entries = match data {
            GraphData::NotAnObject => {
                return Err(Error::GraphNotAnObject);
            },
            GraphData::Object(entries) => entries,
        };

        let mut all_regular: Vec<Vec<u32>> = Vec::new();
        let mut all_alleyway: Vec<Vec<u32>> = Vec::new();

        for x in 0..195usize
            invariant
                all_regular@.len() == x,
                all_alleyway@.len() == x,
                first_fault_from(entries@, 1) == first_fault_from(entries@, x as int + 1),
                forall|n: int|
                    1 <= n <= x ==> (#[trigger] all_regular@[n - 1])@ == entry_regular(
                        entry_of(entries@, n),
                    ) && all_alleyway@[n - 1]@ == entry_alleyway(entry_of(entries@, n)),
                forall|n: int|
                    1 <= n <= x ==> entry_fault(#[trigger] entry_of(entries@, n)) is None,
        {
            let idx: u32 = (x as u32) + 1;
            if x >= entries.len() {
                return Err(Error::LocationNotFound(idx));
            }
            match &entries[x] {
                LocationEntry::Missing => {
                    return Err(Error::LocationNotFound(idx));
                },
                LocationEntry::Unparsable => {
                    return Err(Error::LocationNotParsable(idx));
                },
                LocationEntry::Record(rec) => {
                    let regular_cnx = match Self::verified_connections(
                        &rec.regular_moves,
                        "regular_moves",
                    ) {
                        Ok(v) => v,
                        Err(e) => {
                            return Err(e);
                        },
                    };
                    all_regular.push(regular_cnx);
                    let alleyway_cnx = match Self::verified_connections(
                        &rec.alleyway_moves,
                        "alleyway_moves",
                    ) {
                        Ok(v) => v,
                        Err(e) => {
                            return Err(e);
                        },
                    };
                    all_alleyway.push(alleyway_cnx);
                },
            }
        }

        let graph = Graph { regular_connections: all_regular, alleyway_connections: all_alleyway };
        proof {
            assert forall|n: int| 1 <= n <= 195 implies (#[trigger] graph.regular()[n - 1])
                == entry_regular(entry_of(entries@, n)) && graph.alleyway()[n - 1]
                == entry_alleyway(entry_of(entries@, n)) by {
                assert(all_regular@[n - 1]@ == entry_regular(entry_of(entries@, n)));
                assert(all_alleyway@[n - 1]@ == entry_alleyway(entry_of(entries@, n)));
            }
            assert forall|i: int, j: int|
                0 <= i < 195 && 0 <= j < graph.regular()[i].len() implies valid_location(
                #[trigger] graph.regular()[i][j],
            ) by {
                let e = entry_of(entries@, i + 1);
                assert(entry_fault(e) is None);
                lemma_all_valid_when_no_invalid(entry_regular(e));
            }
            assert forall|i: int, j: int|
                0 <= i < 195 && 0 <= j < graph.alleyway()[i].len() implies valid_location(
                #[trigger] graph.alleyway()[i][j],
            ) by {
                let e = entry_of(entries@, i + 1);
                assert(graph.regular()[i] == entry_regular(e));
                assert(entry_fault(e) is None);
                lemma_all_valid_when_no_invalid(entry_alleyway(e));
            }
            assert(first_fault_from(entries@, 1) is None);
            assert(graph.wf());
        }
        Ok(graph)
    }

    /// The regular neighbour list of a location, or `None` where the
    /// location index is invalid.
    pub fn connections_for_location(&self, location: &u32) -> (r: Option<&Vec<u32>>)
        requires
            self.wf(),
        ensures
            match r {
                Some(l) => valid_location(*location) && l@ == self.regular()[*location - 1],
                None => !valid_location(*location),
            },
    {
        if 1 <= *location && *location <= 195 {
            Some(&self.regular_connections[(*location as usize) - 1])
        } else {
            None
        }
    }

    /// The alleyway neighbour list of a location, or `None` where the
    /// location index is invalid.
    pub fn alleyway_connections_for_location(&self, location: &u32) -> (r: Option<&Vec<u32>>)
        requires
            self.wf(),
        ensures
            match r {
                Some(l) => valid_location(*location) && l@ == self.alleyway()[*location - 1],
                None => !valid_location(*location),
            },
    {
        if 1 <= *location && *location <= 195 {
            Some(&self.alleyway_connections[(*location as usize) - 1])
        } else {
            None
        }
    }

    /// The de-duplicated union of both neighbour lists of a location, or
    /// `None` where the location index is invalid.
    #[verifier::loop_isolation(false)]
    pub fn all_connections_for_location(&self, location: &u32) -> (r: Option<Vec<u32>>)
        requires
            self.wf(),
        ensures
            match r {
                Some(l) => {
                    &&& valid_location(*location)
                    &&& forall|v: u32|
                        #[trigger] l@.contains(v) <==> (self.regular()[*location - 1].contains(v)
                            || self.alleyway()[*location - 1].contains(v))
                    &&& forall|i: int, j: int| 0 <= i < j < l@.len() ==> l@[i] != l@[j]
                },
                None => !valid_location(*location),
            },
    {
        if *location < 1 || *location > 195 {
            return None;
        }
        let loc = (*location as usize) - 1;
        let mut all_cnx: Vec<u32> = Vec::new();
        let regular_cnx = &self.regular_connections[loc];
        for i in 0..regular_cnx.len()
            invariant
                self.wf(),
                loc == *location - 1,
                valid_location(*location),
                regular_cnx@ == self.regular()[loc as int],
                forall|v: u32|
                    #[trigger] all_cnx@.contains(v) <==> self.regular()[loc as int].take(
                        i as int,
                    ).contains(v),
                forall|a: int, b: int| 0 <= a < b < all_cnx@.len() ==> all_cnx@[a] != all_cnx@[b],
        {
            let v = regular_cnx[i];
            if !contains_location(&all_cnx, v) {
                all_cnx.push(v);
            }
            proof {
                assert(self.regular()[loc as int].take(i + 1) =~= self.regular()[loc as int].take(
                    i as int,
                ).push(regular_cnx@[i as int]));
            }
        }
        proof {
            assert(self.regular()[loc as int].take(regular_cnx@.len() as int) =~= self.regular()[
                loc as int
            ]);
        }
        let alleyway_cnx = &self.alleyway_connections[loc];
        for i in 0..alleyway_cnx.len()
            invariant
                self.wf(),
                loc == *location - 1,
                valid_location(*location),
                alleyway_cnx@ == self.alleyway()[loc as int],
                forall|v: u32|
                    #[trigger] all_cnx@.contains(v) <==> (self.regular()[loc as int].contains(v)
                        || self.alleyway()[loc as int].take(i as int).contains(v)),
                forall|a: int, b: int| 0 <= a < b < all_cnx@.len() ==> all_cnx@[a] != all_cnx@[b],
        {
            let v = alleyway_cnx[i];
            if !contains_location(&all_cnx, v) {
                all_cnx.push(v);
            }
            proof {
                assert(self.alleyway()[loc as int].take(i + 1) =~= self.alleyway()[
                    loc as int
                ].take(i as int).push(alleyway_cnx@[i as int]));
            }
        }
        proof {
            assert(self.alleyway()[loc as int].take(alleyway_cnx@.len() as int) =~= self.alleyway()[
                loc as int
            ]);
        }
        Some(all_cnx)
    }
}

/// Whether a list of locations contains the given value.
#[verifier::loop_isolation(false)]
pub fn contains_location(list: &Vec<u32>, value: u32) -> (b: bool)
    ensures
        b == list@.contains(value),
{
    for i in 0..list.len()
        invariant
            !list@.take(i as int).contains(value),
    {
        if list[i] == value {
            return true;
        }
        proof {
            assert(list@.take(i + 1) =~= list@.take(i as int).push(list@[i as int]));
        }
    }
    proof {
        assert(list@.take(list@.len() as int) =~= list@);
    }
    false
}

} // verus!
