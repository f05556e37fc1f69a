//! Mode S / ADS-B decoding, proved correct.
//!
//! Samples become magnitudes ([`magnitude`]), magnitudes become bits ([`demod`],
//! [`demod_2400`]), bits become frames whose parity is checked ([`crc`], [`frame`]),
//! frames become messages ([`message`], [`cpr`]), and messages fill a table of aircraft
//! ([`state`]). [`source`] and [`pipeline`] drive this from a recording. The other
//! modules are for those who look at the table: events and filters for network clients,
//! wire formats, and lines of text.
//!
//! Nothing is rounded before the edge: angles are exact ratios, speeds are in
//! micrometres per second, and time is in nanoseconds.

pub mod avr;
pub mod beast;
pub mod ble;
pub mod broadcaster;
pub mod config;
pub mod cpr;
pub mod crc;
pub mod demod;
pub mod demod_2400;
pub mod double;
pub mod events;
pub mod frame;
pub mod gdl90;
pub mod magnitude;
pub mod message;
pub mod numeral;
pub mod order;
pub mod pipeline;
pub mod report;
pub mod server;
pub mod source;
pub mod state;
pub mod table;
pub mod text;

use vstd::prelude::*;

verus! {

/// A complex I/Q sample with signed 8-bit components.
#[derive(Debug, Clone, Copy, PartialEq, Eq, Structural)]
pub struct Iq {
    pub i: i8,
    pub q: i8,
}

impl Iq {
    pub fn new(i: i8, q: i8) -> (s: Iq)
        ensures
            s.i == i,
            s.q == q,
    {
        Iq { i, q }
    }
}

impl Default for Iq {
    fn default() -> (s: Iq)
        ensures
            s.i == 0,
            s.q == 0,
    {
        Iq { i: 0, q: 0 }
    }
}

} // verus!
