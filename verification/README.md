# dayder

Finds time series that correlate with a chart, over data sets stored in the btsf
binary time series format, and serves them over HTTP.

- `src/` is the verified library (Verus):
  - `btsf` reads and writes btsf files held in memory; a proof shows that reading
    what the correlated writer wrote gives the series back.
  - `stats` pairs the points of two series (exact matches and interpolation
    brackets); proofs describe the pairing of time-sorted series.
  - `correlate` thins out a long query series.
  - `caching` remembers the correlations of recent query series in an LRU cache.
  - `server` holds the request decisions: the query chart, the name filter, the
    matching data sets.
  - `index` builds the name index map.
- `app/` is the program around it: file and network I/O, the iron web server,
  and the floating point work (interpolated values, Pearson correlation, ranking).
