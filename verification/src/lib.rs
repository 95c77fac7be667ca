//! Packet-classification decisions of an nDPI detection plugin for Suricata.
use vstd::prelude::*;

pub mod ndpi;
pub mod risk;
pub mod suricata;

verus! {

} // verus!
