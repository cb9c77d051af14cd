# pepper_sync

The sync engine of a Zcash light wallet: which blocks to scan and in which order, what is read from compact blocks, what
becomes of reorganisations of the chain, and how the wallet's data is kept and stored. The library in `src/` is written
in Verus: what its functions return and change is stated in their contracts and proved.

- `src/chain.rs`, `src/primitives.rs`, `src/scan_range.rs`, `src/sorted_map.rs`: networks, heights, ranges and ordered maps.
- `src/scan/`: compact blocks, the scan of a load of them, transparent gap addresses, and the tasks that blocks are
  fetched in.
- `src/sync/`: scan ranges and their priorities, spends, truncation, progress, and the steps of a session.
- `src/wallet/`: the wallet's stores, their invariants and their binary form.
- `src/trees.rs`, `src/outside.rs`: what is taken from the protocol libraries, each behind a function whose contract says
  what is relied on.
- `app/`: the connection to a server, the session that carries out what the library decides, and how progress is shown.

Laws that relate several functions are public proof functions named `law_..`, next to the functions they speak of.
