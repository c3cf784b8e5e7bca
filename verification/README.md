# sqm-autorate

Keeps the latency of an internet line low: reflectors are pinged, and from the delays that come
back, the rates of the download and the upload shaper (CAKE) are lowered and raised.

- `src/` is the library. It holds the decisions of the program, with contracts that Verus
  proves: reading the settings, making requests and reading replies, choosing reflectors, and
  calculating rates. Doubles are held as bit patterns (`float64`), and their arithmetic
  (`arithmetic`) is proved to be that of IEEE 754.
- `tests/` runs the library, against the standard library and the processor where these do the
  same thing.
- `app/` is the program: it reads the environment, owns the sockets, averages the delays, sets
  the rates and runs the threads.

Settings come from environment variables (`SQMA_DOWNLOAD_INTERFACE`, `SQMA_DOWNLOAD_BASE_KBITS`,
`SQMA_UPLOAD_INTERFACE` and `SQMA_UPLOAD_BASE_KBITS` are needed; `src/config.rs` has the others
and their defaults), or from UCI (`sqm-autorate.main.*`) where the program is built with
`RUSTFLAGS="--cfg uci"`.
