# aqw_patch

Runtime patches for the ABC bytecode of the officially-served AQW game client, with
proofs in Verus, and the frame statistics of the renderer.

A patch is applied to a decompressed SWF tag stream whose URL names the game client:

- `player_domain_cache` lowers the default cap of the client's cache of per-item
  application domains from 20 to 8.
- `handle_socket_data` replaces the body of `SmartFoxClient.handleSocketData` with
  that of a compiled snippet, whose names are looked up in the client's own constant
  pool or appended to it. Jumps and the exception handler move with their instructions.

Only the stream's first `DoAbc`/`DoAbc2` tag changes, and only if a patch applied.

## Layout

- `src/lib.rs`: which files are patched, `patch`, `try_patch`, and what they keep.
- `src/tag_splice.rs`: finding, splitting and replacing the ABC tag.
- `src/patches/`: the two patches. Under `handle_socket_data/`, `relocation.rs` moves
  offsets, `laws.rs` states what the patch keeps of a file, and `code_laws.rs` what the
  code that it puts in means and where it jumps.
- `src/constant_pool.rs`, `src/text.rs`: searching a constant pool, building messages.
- `src/abc_model.rs`, `src/swf_types.rs`: ABC files as mathematical values, and the
  declarations of `swf`'s types.
- `src/swf_calls.rs`: every outside call, with what is assumed of it.
- `src/stats.rs`: the frame counters.
- `app/`: the player's hook and per-thread counters, with logging.

The proofs assume what `src/swf_calls.rs` states of `swf`, on a 64-bit target. The
compiled snippet is an input: `app/` reads it from a file.
