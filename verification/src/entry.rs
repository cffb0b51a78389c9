//! Facets of the cube and the log entries that the device records.

use vstd::prelude::*;

verus! {

/// Number of facets of the cube.
pub const FACET_COUNT: u8 = 12;

/// One side of the cube, numbered from 1 to [`FACET_COUNT`].
#[derive(Clone, Copy, Debug, PartialEq, Eq)]
pub struct Facet {
    number: u8,
}

impl View for Facet {
    type V = int;

    /// The facet's number, counted from 1.
    closed spec fn view(&self) -> int {
        self.number as int
    }
}

impl Facet {
    #[verifier::type_invariant]
    spec fn in_range(self) -> bool {
        1 <= self.number <= FACET_COUNT
    }

    /// The facet with the given number, if the cube has one.
    pub fn new(number: u8) -> (facet: Option<Facet>)
        ensures
            facet is Some <==> 1 <= number <= FACET_COUNT,
            facet matches Some(f) ==> f@ == number,
    {
        if 1 <= number && number <= FACET_COUNT {
            Some(Facet { number })
        } else {
            None
        }
    }

    /// The facet's number, counted from 1.
    pub fn number(&self) -> (number: u8)
        ensures
            number == self@,
            1 <= number <= FACET_COUNT,
    {
        proof {
            use_type_invariant(self);
        }
        self.number
    }

    /// The facet's position in a list of all sides, counted from 0.
    pub fn index_zero(&self) -> (index: usize)
        ensures
            index == self@ - 1,
            index < FACET_COUNT,
    {
        proof {
            use_type_invariant(self);
        }
        (self.number - 1) as usize
    }

    /// Two facets with the same number are the same facet.
    pub proof fn lemma_view_injective(a: Facet, b: Facet)
        ensures
            a@ == b@ <==> a == b,
    {
    }
}

/// A fact that the device recorded about one stay on a facet.
///
/// The device numbers its entries upwards as it records them; the `id` is
/// the only field by which entries are told apart and found again.
#[derive(Clone, Copy, Debug, PartialEq, Eq)]
pub struct LogEntry {
    /// Identifier given by the device.
    pub id: u32,
    /// The facet that was up.
    pub facet: Facet,
    /// Whether the cube was paused during this entry.
    pub pause: bool,
    /// When the facet came up, in seconds since the Unix epoch.
    pub time: i64,
    /// How long the facet stayed up, in seconds.
    pub duration: u32,
}

/// Whether an entry with the given identifier occurs in the sequence.
pub open spec fn has_id(entries: Seq<LogEntry>, id: u32) -> bool {
    exists|i: int| 0 <= i < entries.len() && (#[trigger] entries[i]).id == id
}

/// Strictly ascending by identifier: sorted, and no identifier twice.
pub open spec fn ascending(entries: Seq<LogEntry>) -> bool {
    forall|i: int, j: int|
        0 <= i < j < entries.len() ==> (#[trigger] entries[i]).id < (#[trigger] entries[j]).id
}

/// Ascending by identifier where equal identifiers may follow each other.
pub open spec fn ordered(entries: Seq<LogEntry>) -> bool {
    forall|i: int, j: int|
        0 <= i < j < entries.len() ==> (#[trigger] entries[i]).id <= (#[trigger] entries[j]).id
}

/// Holds of the entries that carry the given identifier.
pub open spec fn carries(id: u32) -> spec_fn(LogEntry) -> bool {
    |e: LogEntry| e.id == id
}

/// The entries of the sequence that carry the given identifier, in order.
pub open spec fn with_id(entries: Seq<LogEntry>, id: u32) -> Seq<LogEntry> {
    entries.filter(carries(id))
}

} // verus!
