//! The outline of a chip and the pins it asks for: where each pin sits on the
//! outline, its label and the level it starts at.

use vstd::prelude::*;

use crate::chips::HEX_DIGITS;
use crate::text::{chars_of, string_from_chars};

verus! {

/// A place on a chip's outline: the side, and the tile along that side,
/// counted from the top or the left.
#[derive(Clone, Copy, Debug, PartialEq, Eq, Hash, Structural)]
pub enum Pin {
    Top(usize),
    Right(usize),
    Bottom(usize),
    Left(usize),
}

/// What a chip says of one of its pins.
#[derive(Clone, Debug)]
pub struct PinDef {
    pub label: Option<String>,
    /// The level the pin drives before the chip first updates.
    pub initial_state: bool,
}

/// A pin definition as plain values: the label's characters and the starting level.
pub open spec fn def_view(def: PinDef) -> (Option<Seq<char>>, bool) {
    (
        match def.label {
            Some(s) => Some(s@),
            None => None,
        },
        def.initial_state,
    )
}

impl PinDef {
    /// A labelled pin that starts low.
    pub fn new(label: String) -> (r: PinDef)
        ensures
            def_view(r) == (Some(label@), false),
    {
        PinDef { label: Some(label), initial_state: false }
    }

    /// A labelled pin that starts at `state`.
    pub fn new_with_state(label: String, state: bool) -> (r: PinDef)
        ensures
            def_view(r) == (Some(label@), state),
    {
        PinDef { label: Some(label), initial_state: state }
    }
}

/// A chip's outline, in tiles wide and high, and its pins in the order given.
pub struct PinLayout {
    pub size: (u32, u32),
    pub pins: Vec<(Pin, PinDef)>,
}

/// Pins with their definitions as plain values.
pub open spec fn pins_view(pins: Seq<(Pin, PinDef)>) -> Seq<(Pin, Option<Seq<char>>, bool)> {
    pins.map_values(|p: (Pin, PinDef)| (p.0, def_view(p.1).0, def_view(p.1).1))
}

/// The pins of a layout as plain values.
pub open spec fn layout_pins(layout: PinLayout) -> Seq<(Pin, Option<Seq<char>>, bool)> {
    pins_view(layout.pins@)
}

/// Whether `pin` lies on the outline of a chip `size` tiles wide and high.
pub open spec fn on_outline(pin: Pin, size: (u32, u32)) -> bool {
    match pin {
        Pin::Top(i) => i < size.0,
        Pin::Bottom(i) => i < size.0,
        Pin::Left(i) => i < size.1,
        Pin::Right(i) => i < size.1,
    }
}

/// Every pin lies on the outline and no two pins share a place.
pub open spec fn well_placed(size: (u32, u32), pins: Seq<(Pin, Option<Seq<char>>, bool)>) -> bool {
    &&& forall|k: int| 0 <= k < pins.len() ==> on_outline(#[trigger] pins[k].0, size)
    &&& forall|j: int, k: int| 0 <= j < k < pins.len() ==> #[trigger] pins[j].0 != #[trigger] pins[k].0
}

/// The decimal digits of `n`, most significant first, without leading zeros.
pub open spec fn decimal(n: nat) -> Seq<char>
    decreases n,
{
    if n < 10 {
        seq![HEX_DIGITS@[n as int]]
    } else {
        decimal(n / 10).push(HEX_DIGITS@[(n % 10) as int])
    }
}

/// A label made of `prefix` and the decimal digits of `n`, such as `D3`.
pub open spec fn numbered(prefix: Seq<char>, n: nat) -> Seq<char> {
    prefix + decimal(n)
}

fn push_decimal(out: &mut Vec<char>, n: usize)
    ensures
        final(out)@ == old(out)@ + decimal(n as nat),
    decreases n,
{
    if n >= 10 {
        push_decimal(out, n / 10);
    }
    out.push(HEX_DIGITS[n % 10]);
    proof {
        if n >= 10 {
            assert(old(out)@ + decimal(n as nat) =~= (old(out)@ + decimal((n / 10) as nat)).push(
                HEX_DIGITS@[(n % 10) as int],
            ));
        } else {
            assert(n % 10 == n);
        }
    }
}

/// The label `prefix` followed by the decimal digits of `n`.
pub fn numbered_label(prefix: &str, n: usize) -> (r: String)
    ensures
        r@ == numbered(prefix@, n as nat),
{
    let mut cs = chars_of(prefix);
    push_decimal(&mut cs, n);
    string_from_chars(&cs)
}

/// A pin with a fixed label that starts low.
pub fn labelled(pin: Pin, label: &str) -> (r: (Pin, PinDef))
    ensures
        r.0 == pin,
        def_view(r.1) == (Some(label@), false),
{
    (pin, PinDef::new(label.to_owned()))
}

/// A pin labelled `prefix` and `n` that starts low.
pub fn numbered_pin(pin: Pin, prefix: &str, n: usize) -> (r: (Pin, PinDef))
    ensures
        r.0 == pin,
        def_view(r.1) == (Some(numbered(prefix@, n as nat)), false),
{
    (pin, PinDef::new(numbered_label(prefix, n)))
}

/// A side of a chip's outline.
#[derive(Clone, Copy, Debug, PartialEq, Eq, Structural)]
pub enum Side {
    Top,
    Right,
    Bottom,
    Left,
}

/// The place `i` along `side`.
pub open spec fn pin_at(side: Side, i: usize) -> Pin {
    match side {
        Side::Top => Pin::Top(i),
        Side::Right => Pin::Right(i),
        Side::Bottom => Pin::Bottom(i),
        Side::Left => Pin::Left(i),
    }
}

fn side_pin(side: Side, i: usize) -> (r: Pin)
    ensures
        r == pin_at(side, i),
{
    match side {
        Side::Top => Pin::Top(i),
        Side::Right => Pin::Right(i),
        Side::Bottom => Pin::Bottom(i),
        Side::Left => Pin::Left(i),
    }
}

/// `count` pins side by side along `side` from place `first` on, labelled
/// `prefix` and `0`, `1`, ..., all starting low.
pub open spec fn numbered_run(side: Side, first: nat, prefix: Seq<char>, count: nat) -> Seq<
    (Pin, Option<Seq<char>>, bool),
> {
    Seq::new(count, |k: int| (pin_at(side, (first + k) as usize), Some(numbered(prefix, k as nat)), false))
}

/// Appends the run `numbered_run(side, first, prefix, count)`.
pub fn push_numbered_run(
    pins: &mut Vec<(Pin, PinDef)>,
    side: Side,
    first: usize,
    prefix: &str,
    count: usize,
)
    requires
        first + count <= usize::MAX,
    ensures
        pins_view(final(pins)@) == pins_view(old(pins)@) + numbered_run(side, first as nat, prefix@, count as nat),
{
    let ghost start = pins_view(pins@);
    let mut k: usize = 0;
    while k < count
        invariant
            k <= count,
            first + count <= usize::MAX,
            pins_view(pins@) == start + numbered_run(side, first as nat, prefix@, k as nat),
        decreases count - k,
    {
        let entry = numbered_pin(side_pin(side, first + k), prefix, k);
        let ghost before = pins@;
        pins.push(entry);
        proof {
            assert(pins@ =~= before.push(entry));
            assert(pins_view(pins@) =~= pins_view(before).push(
                (pin_at(side, (first + k) as usize), Some(numbered(prefix@, k as nat)), false),
            ));
            assert(numbered_run(side, first as nat, prefix@, (k + 1) as nat) =~= numbered_run(
                side,
                first as nat,
                prefix@,
                k as nat,
            ).push((pin_at(side, (first + k) as usize), Some(numbered(prefix@, k as nat)), false)));
        }
        assert(pins_view(pins@) =~= start + numbered_run(side, first as nat, prefix@, (k + 1) as nat));
        k = k + 1;
    }
}

} // verus!
