# home_iptv_proxy

An aggregator for M3U sources. It merges the channels of the configured sources
into one playlist, and each source is either played directly or relayed: the
live stream, the replay and everything in the HLS playlists of a relayed channel
then go through the service under signed links.

- `src/` is the library. Reading playlists, composing the list, filling replay
  templates, rewriting HLS playlists, signing links, admitting requests, editing
  the sources and merging refreshes are written in Verus with exact contracts.
  The modules whose names end in `_laws` state what holds of several operations
  together.
- `app/` is the server around it: configuration file, HTTP and the clock.
- `tests/` runs the library on concrete values.

Text is modelled as a sequence of characters. What the library takes from
`url`, `sha2`, `hmac`, `base64`, `urlencoding` and `chrono` stands behind small
functions marked `external_body`, each with the claim that is made of it.

A source may have an `upstream_base_url`. Whatever is fetched for a relayed
channel of such a source is fetched from the scheme and host of that address.
