//! Entry-point selectors, and builders for the call data that a front end
//! submits to the host: a four-byte selector followed by the SCALE-encoded
//! arguments.

use vstd::prelude::*;

use crate::scale::{le_bytes, push_le};
use crate::types::{Balance, MarketId, OptionIndex};

verus! {

pub const CONSTRUCTOR: u32 = 0x00_00_00_01;

pub const SET_MARKET_CREATOR: u32 = 0x00_00_00_02;

pub const SET_RESOLVER_ORACLE: u32 = 0x00_00_00_03;

pub const CREATE_MARKET: u32 = 0x01_00_00_01;

pub const PLACE_BET: u32 = 0x02_00_00_01;

pub const REQUEST_RESOLUTION: u32 = 0x03_00_00_01;

pub const ON_RESOLUTION_COMPLETE: u32 = 0x04_00_00_01;

pub const CLAIM_WINNINGS: u32 = 0x05_00_00_01;

pub const GET_MARKET: u32 = 0x06_00_00_01;

pub const GET_POSITION: u32 = 0x07_00_00_01;

pub const GET_IMPLIED_ODDS: u32 = 0x08_00_00_01;

/// A selector's four bytes on the wire, most significant first.
pub open spec fn selector_bytes(s: u32) -> Seq<u8> {
    seq![
        (s as int / 0x1_00_00_00 % 256) as u8,
        (s as int / 0x1_00_00 % 256) as u8,
        (s as int / 0x1_00 % 256) as u8,
        (s as int % 256) as u8,
    ]
}

/// Append a selector's four bytes, most significant first.
fn push_selector(out: &mut Vec<u8>, s: u32)
    ensures
        final(out)@ == old(out)@ + selector_bytes(s),
{
    out.push((s / 0x1_00_00_00 % 256) as u8);
    out.push((s / 0x1_00_00 % 256) as u8);
    out.push((s / 0x1_00 % 256) as u8);
    out.push((s % 256) as u8);
    proof {
        assert(out@ =~= old(out)@ + selector_bytes(s));
    }
}

/// Call data for requesting resolution of a market.
pub fn resolution_call_data(market_id: MarketId) -> (out: Vec<u8>)
    ensures
        out@ == selector_bytes(REQUEST_RESOLUTION) + le_bytes(market_id as int, 8),
{
    let mut out: Vec<u8> = Vec::new();
    push_selector(&mut out, REQUEST_RESOLUTION);
    push_le(&mut out, market_id, 8);
    out
}

/// Call data for placing a bet.
pub fn bet_call_data(market_id: MarketId, option_index: OptionIndex, amount: Balance) -> (out: Vec<
    u8,
>)
    ensures
        out@ == selector_bytes(PLACE_BET) + le_bytes(market_id as int, 8) + seq![option_index]
            + le_bytes(amount as int, 8),
{
    let mut out: Vec<u8> = Vec::new();
    push_selector(&mut out, PLACE_BET);
    push_le(&mut out, market_id, 8);
    out.push(option_index);
    push_le(&mut out, amount, 8);
    proof {
        assert(out@ =~= selector_bytes(PLACE_BET) + le_bytes(market_id as int, 8) + seq![
            option_index,
        ] + le_bytes(amount as int, 8));
    }
    out
}

/// Call data for claiming winnings from a market.
pub fn claim_call_data(market_id: MarketId) -> (out: Vec<u8>)
    ensures
        out@ == selector_bytes(CLAIM_WINNINGS) + le_bytes(market_id as int, 8),
{
    let mut out: Vec<u8> = Vec::new();
    push_selector(&mut out, CLAIM_WINNINGS);
    push_le(&mut out, market_id, 8);
    out
}

/// Call data for reading a market.
pub fn market_query_call_data(market_id: MarketId) -> (out: Vec<u8>)
    ensures
        out@ == selector_bytes(GET_MARKET) + le_bytes(market_id as int, 8),
{
    let mut out: Vec<u8> = Vec::new();
    push_selector(&mut out, GET_MARKET);
    push_le(&mut out, market_id, 8);
    out
}

} // verus!
