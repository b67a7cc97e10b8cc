//! Logic of a game of building circuits from logic chips: an assembler for
//! the 8-bit CPU, the CPU's fetch/decode cycle, the behaviour and pin layouts
//! of the simple chips, the chip palette, and the bookkeeping that the game
//! world keeps (draw layers, the object hierarchy, hovered pins, selection).

pub mod bits;
pub mod ids;
pub mod text;
pub mod assembler;
pub mod cpu;
pub mod chips;
pub mod selection;
pub mod layers;
pub mod catalog;
pub mod script;
pub mod pointer;
pub mod layout;
pub mod hierarchy;
