# iptv_proxy

A self-hosted IPTV proxy. It merges the streams that a provider lists on several hosts into one
list of channels, plays each channel from the best stream that works, and goes on with the next
one where a stream fails.

The library under `src/` holds the rules and is verified with Verus:

- **Channels.** `canonical`, `catalog`, `default_order`, `radio`, `listing`: which streams are one
  channel, in what order channels come, and what a client gets to see.
- **Playback.** `proxy`, `candidates`, `request`, `play`, `catchup`, `upstream`, `validate`: which
  URLs a play tries and in what order, what a failed attempt costs, and how long a play may look.
- **Segments.** `playlist`, `segment`, `codec`, `sps`, `pps`, `slice`, `adts`, `bits`: playlists
  whose links lead through the proxy, and what a transport stream or a piece of audio tells.
- **What is known.** `blacklist`, `measured`, `caps_cache`, `readiness`, `hosts`, `probe`, `sweep`,
  `play_log`, `play_sessions`, `epg`, `status`: state that plays, probes and reports change.
- **Ground.** `text`, `order`, `table`, `clock`, `single`, `decimal`, `json`, `urlencoding`, `xtream`, `config`,
  `api`.

`outside` lists what the library takes from other crates; its contracts are believed, not proved.

Times of day are nanoseconds since the Unix epoch. Spans are measured on a clock that does not go
back, also in nanoseconds. The library never reads a clock: callers pass the time in.

Bit rates, frame rates and durations are single-precision numbers. A `Single` holds the bits of one,
and the arithmetic on it, proved in integers, comes to what floating point comes to.

`app/` is the server around the library: HTTP, timers, locks and files. `tests/` runs the library.
