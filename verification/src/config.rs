//! The part of the tool's configuration that the commands read.

use crate::entry::{Facet, FACET_COUNT};
use crate::text::{decimal, decimal_text};
use vstd::prelude::*;

verus! {

/// What the configuration says about one side of the cube.
#[derive(Debug, PartialEq, Eq)]
pub struct Side {
    /// The name that the operator gave to the side, if any.
    pub name: Option<String>,
}

/// Per-facet settings, one [`Side`] for each facet of the cube.
///
/// The configuration file holds more than this (the secret for the first
/// connection among it); the commands decided here read the names only.
#[derive(Debug, PartialEq, Eq)]
pub struct Config {
    sides: Vec<Side>,
}

impl View for Config {
    type V = Seq<Option<Seq<char>>>;

    /// The names of the sides, the first facet's name first.
    closed spec fn view(&self) -> Seq<Option<Seq<char>>> {
        self.sides@.map_values(
            |s: Side|
                match s.name {
                    Some(n) => Some(n@),
                    None => None,
                },
        )
    }
}

impl Config {
    #[verifier::type_invariant]
    spec fn complete(self) -> bool {
        self.sides.len() == FACET_COUNT
    }

    /// A configuration with the given sides; `None` unless there is exactly
    /// one side for each facet.
    pub fn new(sides: Vec<Side>) -> (config: Option<Config>)
        ensures
            config is Some <==> sides.len() == FACET_COUNT,
            config matches Some(c) ==> {
                &&& c@.len() == FACET_COUNT
                &&& forall|i: int|
                    0 <= i < FACET_COUNT ==> #[trigger] c@[i] == match sides[i].name {
                        Some(n) => Some(n@),
                        None => None,
                    }
            },
    {
        if sides.len() == FACET_COUNT as usize {
            Some(Config { sides })
        } else {
            None
        }
    }

    /// The name that the configuration gives to a facet, if it gives one.
    pub fn side_name(&self, facet: &Facet) -> (name: Option<&String>)
        ensures
            self@.len() == FACET_COUNT,
            match name {
                Some(n) => self@[facet@ - 1] == Some(n@),
                None => self@[facet@ - 1] is None,
            },
    {
        proof {
            use_type_invariant(self);
        }
        let index = facet.index_zero();
        match &self.sides[index].name {
            Some(n) => Some(n),
            None => None,
        }
    }
}

/// What a facet is called: its configured name, or its number where no
/// configuration is at hand or the configuration names it not.
pub open spec fn facet_name_text(facet: Facet, config: Option<Config>) -> Seq<char> {
    match config {
        Some(c) => match c@[facet@ - 1] {
            Some(name) => name,
            None => decimal_text(facet@ as u8),
        },
        None => decimal_text(facet@ as u8),
    }
}

/// The configuration behind an optional reference, if there is one.
pub open spec fn supplied(config: Option<&Config>) -> Option<Config> {
    match config {
        Some(c) => Some(*c),
        None => None,
    }
}

/// The name under which a facet is shown to the operator.
pub fn facet_name(facet: &Facet, config: Option<&Config>) -> (name: String)
    ensures
        name@ == facet_name_text(*facet, supplied(config)),
{
    let configured = match config {
        Some(c) => c.side_name(facet),
        None => None,
    };
    match configured {
        Some(n) => n.clone(),
        None => decimal(facet.number()),
    }
}

} // verus!
