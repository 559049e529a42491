//! The Petri-net data model: places, labelled transitions, weighted arcs,
//! an initial marking, and candidate final markings.
//!
//! Arc endpoints are identifiers; the model does not require that every
//! endpoint names a declared place or transition, and the replay engine
//! tolerates dangling endpoints silently.

use vstd::prelude::*;

use crate::assoc::Assoc;

verus! {

pub struct Place {
    pub id: String,
    pub label: String,
}

pub struct Transition {
    pub id: String,
    pub label: String,
    /// True when the label is empty or the literal "tau"; invisible
    /// transitions never match an event activity during replay.
    pub is_invisible: bool,
}

/// A weighted arc between a place and a transition (either direction).
pub struct Arc {
    pub source: String,
    pub target: String,
    pub multiplicity: u32,
}

/// An assignment of token counts to place identifiers.
pub type Marking = Assoc<u64>;

pub struct PetriNet {
    pub places: Vec<Place>,
    pub transitions: Vec<Transition>,
    pub arcs: Vec<Arc>,
    pub initial_marking: Marking,
    pub final_markings: Vec<Marking>,
}

pub struct PlaceV {
    pub id: Seq<char>,
    pub label: Seq<char>,
}

pub struct TransitionV {
    pub id: Seq<char>,
    pub label: Seq<char>,
    pub is_invisible: bool,
}

pub struct ArcV {
    pub source: Seq<char>,
    pub target: Seq<char>,
    pub multiplicity: u32,
}

pub struct PetriNetV {
    pub places: Seq<PlaceV>,
    pub transitions: Seq<TransitionV>,
    pub arcs: Seq<ArcV>,
    /// Initial marking as ordered pairs (the map it denotes is `initial()`).
    pub initial_marking: Seq<(Seq<char>, u64)>,
    pub final_markings: Seq<Seq<(Seq<char>, u64)>>,
}

impl View for Place {
    type V = PlaceV;

    open spec fn view(&self) -> PlaceV {
        PlaceV { id: self.id@, label: self.label@ }
    }
}

impl View for Transition {
    type V = TransitionV;

    open spec fn view(&self) -> TransitionV {
        TransitionV { id: self.id@, label: self.label@, is_invisible: self.is_invisible }
    }
}

impl View for Arc {
    type V = ArcV;

    open spec fn view(&self) -> ArcV {
        ArcV { source: self.source@, target: self.target@, multiplicity: self.multiplicity }
    }
}

impl View for PetriNet {
    type V = PetriNetV;

    open spec fn view(&self) -> PetriNetV {
        PetriNetV {
            places: self.places@.map(|_i: int, p: Place| p@),
            transitions: self.transitions@.map(|_i: int, t: Transition| t@),
            arcs: self.arcs@.map(|_i: int, a: Arc| a@),
            initial_marking: self.initial_marking.pseq(),
            final_markings: self.final_markings@.map(|_i: int, m: Marking| m.pseq()),
        }
    }
}

impl PetriNetV {
    /// The initial marking as a map from place identifier to token count.
    pub open spec fn initial(&self) -> Map<Seq<char>, u64> {
        crate::assoc::amap(self.initial_marking)
    }
}

impl PetriNet {
    pub open spec fn wf(&self) -> bool {
        &&& self.initial_marking.wf()
        &&& forall|i: int|
            0 <= i < self.final_markings@.len() ==> (#[trigger] self.final_markings@[i]).wf()
    }
}

} // verus!
