//! The logic of an IPTV proxy.
use vstd::prelude::*;

pub mod addresses;
pub mod adts;
pub mod api;
pub mod bits;
pub mod blacklist;
pub mod candidates;
pub mod canonical;
pub mod caps_cache;
pub mod catalog;
pub mod catchup;
pub mod clock;
pub mod codec;
pub mod config;
pub mod decimal;
pub mod default_order;
pub mod encode;
pub mod epg;
pub mod hosts;
pub mod json;
pub mod listing;
pub mod measured;
pub mod order;
pub mod outside;
pub mod play;
pub mod play_log;
pub mod play_sessions;
pub mod playlist;
pub mod pps;
pub mod probe;
pub mod proxy;
pub mod radio;
pub mod readiness;
pub mod request;
pub mod segment;
pub mod single;
pub mod slice;
pub mod sps;
pub mod status;
pub mod sweep;
pub mod table;
pub mod text;
pub mod transport;
pub mod upstream;
pub mod urlencoding;
pub mod validate;
pub mod xtream;

verus! {

} // verus!
