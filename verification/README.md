# tessera-slate

A seqlock-protected **latest-value snapshot slot table** over POSIX shared memory, verified
with Verus.

A writer overwrites slot *N* in place; readers poll slot *N* for its current value. There is
no history: a reader converges to the latest written bytes.

- **One writer per slot**, many lock-free readers.
- Per-slot seqlock with bounded retry: torn reads are transient (`ReadResult::Torn`: keep
  the previous value and poll again).
- **Bytes only**: payloads are caller-owned bytes.

## Layout

- `src/` is the library, all of it verified. It holds the decisions: the layout of a region,
  its name, how it is created, attached and unlinked, the operations of a write, and the
  steps of a read. It touches no memory but its own.
- `app/` holds the mapped segment and performs what the library asks for: shared memory,
  atomic accesses, fences, the clock.
- `tests/` runs the library against segments held in ordinary vectors.

| module | what it holds |
|---|---|
| `header` | the bytes of a region: headers, offsets, sizes |
| `byte_order`, `text`, `clock` | numbers as bytes, numbers as text, clock readings as stamps |
| `namespace` | a region's name, from the BLAKE3 digest of a description |
| `error` | what can go wrong, and the sentences that say so |
| `host`, `memory` | operations on the system and on the mapped bytes, and their replies |
| `region` | create, attach, unlink; where the parts of a region stand |
| `slate` | writer and reader handles, writes, reads |
| `laws` | what holds of whole requests, with nobody else at work |
| `seqlock` | what holds with writers and readers at work at once |
| `ordering` | why the fences and orderings are enough where accesses are reordered |
| `worker` | how a sink worker process ends |

## What is taken on trust

Two calls are believed without proof: `blake3::hash` gives a digest that depends on its input
alone, and `bytemuck::bytes_of` shows the bytes of an integer in the byte order of the hardware.

The proofs also rest on what `app/` does: that it performs each operation as described, on a
zeroed segment where it created one, and hands the right reply back. `ordering` states what it
takes from the memory model: coherence of each location, and what acquire and release promise.
