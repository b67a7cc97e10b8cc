//! What the player points at and has picked: the hovered pins and the
//! current selection of a chip, a pin or a range of pins.

use std::collections::{HashMap, HashSet};

use vstd::prelude::*;

use crate::ids::{ChipId, ObjectId, PinId};
use crate::layout::{numbered, numbered_label};

verus! {

broadcast use vstd::std_specs::hash::group_hash_axioms;

/// The pins under the mouse pointer.
pub struct HoveredPins {
    pins: HashSet<usize>,
}

impl View for HoveredPins {
    /// The numbers of the hovered pins.
    type V = Set<usize>;

    closed spec fn view(&self) -> Set<usize> {
        self.pins@
    }
}

/// The numbers of the pins in `pins`.
pub open spec fn pin_numbers(pins: Seq<PinId>) -> Set<usize> {
    pins.map_values(|p: PinId| p.0).to_set()
}

impl HoveredPins {
    pub fn new() -> (r: HoveredPins)
        ensures
            r@ == Set::<usize>::empty(),
    {
        HoveredPins { pins: HashSet::new() }
    }

    pub fn clear(&mut self)
        ensures
            final(self)@ == Set::<usize>::empty(),
    {
        self.pins.clear();
    }

    pub fn remove_one(&mut self, pin: PinId)
        ensures
            final(self)@ == old(self)@.remove(pin.0),
    {
        self.pins.remove(&pin.0);
    }

    /// The hovered pins become exactly `pins`.
    pub fn set(&mut self, pins: &[PinId])
        ensures
            final(self)@ == pin_numbers(pins@),
    {
        self.pins.clear();
        let mut i: usize = 0;
        while i < pins.len()
            invariant
                i <= pins@.len(),
                self.pins@ == pin_numbers(pins@.subrange(0, i as int)),
            decreases pins@.len() - i,
        {
            self.pins.insert(pins[i].0);
            proof {
                let before = pins@.subrange(0, i as int);
                let after = pins@.subrange(0, i + 1);
                assert(after =~= before.push(pins@[i as int]));
                assert(after.map_values(|p: PinId| p.0) =~= before.map_values(|p: PinId| p.0).push(
                    pins@[i as int].0,
                ));
                before.map_values(|p: PinId| p.0).lemma_push_to_set_commute(pins@[i as int].0);
            }
            i = i + 1;
        }
        assert(pins@.subrange(0, pins@.len() as int) =~= pins@);
    }

    pub fn contains_either(&self, a: PinId, b: PinId) -> (r: bool)
        ensures
            r == (self@.contains(a.0) || self@.contains(b.0)),
    {
        self.pins.contains(&a.0) || self.pins.contains(&b.0)
    }
}

impl Default for HoveredPins {
    fn default() -> (r: HoveredPins)
        ensures
            r@ == Set::<usize>::empty(),
    {
        HoveredPins::new()
    }
}

/// What the player has selected.
#[derive(Clone, Debug, PartialEq, Eq)]
pub enum Selection {
    Nothing,
    Pin(PinId),
    Chip(ChipId),
    MultiPins(Vec<PinId>),
}

impl Default for Selection {
    fn default() -> (r: Selection)
        ensures
            r is Nothing,
    {
        Selection::Nothing
    }
}

/// The pins already selected when another pin is clicked.
#[derive(Debug, PartialEq, Eq)]
pub enum PinSelection<'a> {
    One(PinId),
    Multiple(&'a [PinId]),
}

impl Selection {
    pub fn select_chip(&mut self, chip: ChipId)
        ensures
            *final(self) == Selection::Chip(chip),
    {
        *self = Selection::Chip(chip);
    }

    /// Clicking `pin`: when pins are already selected they are returned, for
    /// the caller to connect to; otherwise `pin` becomes the selection.
    pub fn select_pin(&mut self, pin: PinId) -> (r: Option<PinSelection<'_>>)
        ensures
            (match *old(self) {
                Selection::Pin(other) => r == Some(PinSelection::One(other)) && *final(self)
                    == *old(self),
                Selection::MultiPins(others) => (r matches Some(PinSelection::Multiple(s)) && s@
                    == others@) && *final(self) == *old(self),
                _ => r is None && *final(self) == Selection::Pin(pin),
            }),
    {
        match self {
            Selection::Pin(other) => Some(PinSelection::One(*other)),
            Selection::MultiPins(others) => Some(PinSelection::Multiple(others.as_slice())),
            _ => {
                *self = Selection::Pin(pin);
                None
            },
        }
    }

    pub fn reset(&mut self)
        ensures
            *final(self) is Nothing,
    {
        *self = Selection::Nothing;
    }

    /// One update: when the delete key was pressed with a chip selected, the
    /// chip is returned for removal and the selection is cleared.
    pub fn update(&mut self, delete_pressed: bool) -> (removed: Option<ChipId>)
        ensures
            (match *old(self) {
                Selection::Chip(chip) => if delete_pressed {
                    removed == Some(chip) && *final(self) is Nothing
                } else {
                    removed is None && *final(self) == *old(self)
                },
                _ => removed is None && *final(self) == *old(self),
            }),
    {
        if delete_pressed {
            if let Selection::Chip(chip) = self {
                let chip = *chip;
                self.reset();
                return Some(chip);
            }
        }
        None
    }
}

/// What clicking a pin leads to.
#[derive(Clone, Debug, PartialEq, Eq)]
pub enum PinClick {
    /// The pin became the selection.
    Selected,
    /// The two pins are to be connected, or disconnected if they were.
    Toggle(PinId, PinId),
    /// The selected range of pins is to be connected to a range of the same
    /// length that starts at the clicked pin.
    ConnectRange(Vec<PinId>),
}

impl Selection {
    /// Clicking `pin`. With one pin selected the two are toggled; with a range
    /// selected the range is to be connected from `pin` on; either way the
    /// selection is then cleared. Otherwise `pin` becomes the selection.
    pub fn click_pin(&mut self, pin: PinId) -> (r: PinClick)
        ensures
            (match *old(self) {
                Selection::Pin(other) => r == PinClick::Toggle(other, pin) && *final(self) is Nothing,
                Selection::MultiPins(others) => (r matches PinClick::ConnectRange(range) && range@
                    == others@) && *final(self) is Nothing,
                _ => r == PinClick::Selected && *final(self) == Selection::Pin(pin),
            }),
    {
        let mut previous = Selection::Nothing;
        std::mem::swap(&mut previous, self);
        match previous {
            Selection::Pin(other) => PinClick::Toggle(other, pin),
            Selection::MultiPins(others) => PinClick::ConnectRange(others),
            _ => {
                *self = Selection::Pin(pin);
                PinClick::Selected
            },
        }
    }

    /// The selection made by dragging a rectangle over `pins`: those pins, or
    /// nothing when the rectangle held none.
    pub fn from_dragged_pins(pins: Vec<PinId>) -> (r: Selection)
        ensures
            pins@.len() == 0 ==> r is Nothing,
            pins@.len() > 0 ==> (r matches Selection::MultiPins(v) && v@ == pins@),
    {
        if pins.len() == 0 {
            Selection::Nothing
        } else {
            Selection::MultiPins(pins)
        }
    }
}

/// The pairs to connect between two ranges of pins: the `i`-th of each, as
/// far as the shorter range goes.
pub fn zip_pins(a: &[PinId], b: &[PinId]) -> (r: Vec<(PinId, PinId)>)
    ensures
        r@.len() == if a@.len() < b@.len() {
            a@.len()
        } else {
            b@.len()
        },
        forall|i: int| 0 <= i < r@.len() ==> r@[i] == (a@[i], b@[i]),
{
    let mut r: Vec<(PinId, PinId)> = Vec::new();
    let mut i: usize = 0;
    while i < a.len() && i < b.len()
        invariant
            i <= a@.len(),
            i <= b@.len(),
            r@.len() == i,
            forall|k: int| 0 <= k < i ==> r@[k] == (a@[k], b@[k]),
        decreases a@.len() - i,
    {
        r.push((a[i], b[i]));
        i = i + 1;
    }
    r
}

/// For each pin object of the world, by object number, the pin it shows.
pub struct PinObjectIds(pub HashMap<usize, PinId>);

/// The pins shown by `objects`, in order, skipping objects that show none.
pub open spec fn pins_shown(shown: Map<usize, PinId>, objects: Seq<ObjectId>) -> Seq<PinId>
    decreases objects.len(),
{
    if objects.len() == 0 {
        Seq::empty()
    } else {
        let rest = pins_shown(shown, objects.drop_last());
        match shown.get(objects.last().0) {
            Some(pin) => rest.push(pin),
            None => rest,
        }
    }
}

impl PinObjectIds {
    /// Records that `object` shows `pin`.
    pub fn register(&mut self, object: ObjectId, pin: PinId)
        ensures
            final(self).0@ == old(self).0@.insert(object.0, pin),
    {
        self.0.insert(object.0, pin);
    }

    /// The pins shown by `objects`, in order; objects that are not pins are skipped.
    pub fn pins_of_objects(&self, objects: &[ObjectId]) -> (r: Vec<PinId>)
        ensures
            r@ == pins_shown(self.0@, objects@),
    {
        let mut r: Vec<PinId> = Vec::new();
        let mut i: usize = 0;
        while i < objects.len()
            invariant
                i <= objects@.len(),
                r@ == pins_shown(self.0@, objects@.subrange(0, i as int)),
            decreases objects@.len() - i,
        {
            proof {
                let next = objects@.subrange(0, i + 1);
                assert(next.drop_last() =~= objects@.subrange(0, i as int));
            }
            match self.0.get(&objects[i].0) {
                Some(pin) => r.push(*pin),
                None => {},
            }
            i = i + 1;
        }
        assert(objects@.subrange(0, objects@.len() as int) =~= objects@);
        r
    }
}

impl Default for PinObjectIds {
    fn default() -> (r: PinObjectIds)
        ensures
            r.0@ == Map::<usize, PinId>::empty(),
    {
        PinObjectIds(HashMap::new())
    }
}

/// The name shown for a pin: its label, or `Pin` and its number for a pin without one.
pub fn pin_label(label: &Option<String>, pin: PinId) -> (r: String)
    ensures
        r@ == match label {
            Some(l) => l@,
            None => numbered("Pin "@, pin.0 as nat),
        },
{
    match label {
        Some(l) => l.clone(),
        None => numbered_label("Pin ", pin.0),
    }
}

} // verus!
