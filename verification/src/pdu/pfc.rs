//! `pfc_flags` bits (byte 3 of the common header).
use vstd::prelude::*;

verus! {

pub const FIRST_FRAG: u8 = 0x01;

pub const LAST_FRAG: u8 = 0x02;

/// [`FIRST_FRAG`] and [`LAST_FRAG`]: the whole call in one PDU.
pub const WHOLE: u8 = 0x03;

pub const PENDING_CANCEL: u8 = 0x04;

pub const RESERVED_1: u8 = 0x08;

pub const CONC_MPX: u8 = 0x10;

pub const DID_NOT_EXECUTE: u8 = 0x20;

pub const MAYBE: u8 = 0x40;

pub const OBJECT_UUID: u8 = 0x80;

} // verus!
