# drm-beatsaver-cacher

Keeps a cache of BeatSaver map data for DumbRequestManager: a gzip-compressed
Protobuf file that maps each map id to a compact record of the map. On start it
fills or refreshes the cache from BeatSaver's latest maps, then serves the file
over HTTP and keeps it current from BeatSaver's map and vote websockets.

## Layout

- `src/` is the library, verified with Verus:
  - `models` — the parts of a BeatSaver map that the cacher reads, as plain values;
  - `cacher` — which maps are cached, the record built for each (`cacher::protogen`),
    and the scan over BeatSaver's latest maps as a state machine;
  - `mapdata` — the records and the cache itself (`MapList`);
  - `wire` and `codec` — the Protobuf wire format and the cache file's messages,
    with the proof that a written map list reads back as the same map;
  - `file` — gzip packing and unpacking, through flate2;
  - `settings` — the cacher's settings, read through the `config` crate;
  - `websocket` — applying map updates, deletions and votes to the cache.
- `app/` is the program around the library: configuration loading, file I/O,
  the HTTP server, the BeatSaver client and the websocket connections.
- `tests/` runs the library on concrete values.
