# memory_server

The rules of a service that inspects the memory of other processes: it reads and writes memory,
searches it for values, remembers what it found, and narrows that down as the memory changes.

- `src/` is the library. It is verified with Verus and never touches another process: a handler
  decides what has to be read, and further functions take the bytes that were read and say what is
  remembered and answered.
- `app/` is the HTTP service around it: routes, JSON, threads and the native layer that reaches
  other processes.
- `tests/` runs the library.

Where to look first:

| module | what it holds |
| --- | --- |
| `chunks`, `search`, `scan` | cutting address ranges, searching one chunk |
| `snapshot` | remembered chunks, kept compressed, and their surviving offsets |
| `store` | everything remembered between requests |
| `relation`, `values`, `filter`, `order` | comparing values and narrowing down |
| `memory`, `process`, `regions` | the other handlers |
| `requests`, `reply` | what clients ask and are answered |
| `laws` | what holds of the service as a whole |

Calls into other crates stand behind small functions with contracts that are believed, not proved.
Each says so in its comment: `hexcode::{encode, decode}`, `search::{find_all, find_spans, any_span}`,
`block::{lz4_compress, lz4_decompress}`, `values::{read_u32, read_u64}`, `text::utf8_str` and the
specification of `String::push`.

A function that returns `None` has no answer for its input: an alignment of zero, an address behind
the end of the address space, a value of another width than its kind, or, on machines with words
shorter than eight bytes, more than one stored offset. The service stops the request there.
