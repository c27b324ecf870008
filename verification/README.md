# demandmap

Remote objects as plain memory. An object gets a range of addresses; the first touch of a
page faults, the block of the object that holds the page is downloaded into a cache file, and
the block is mapped in. Blocks stay in the file, least recently used ones making room, so
that later sessions start warm.

The library under `src/` is verified with Verus, without trusted items. The crate under
`app/` does what touches the outside: mappings, Mach exception messages (macOS), HTTP
requests and the Python module.

| module | what it is about |
| --- | --- |
| `layout` | where the parts of a cache lie in its byte region |
| `bytes`, `region` | the records in that region, read and written byte by byte |
| `links`, `index` | recency list, hash chains, free slots; inserting and evicting |
| `model` | what a cache contains, apart from how it is linked together |
| `slots` | the operations: `acquire`, `publish`, `release`, `get`, `get_or_fetch`, `try_get_or_fetch` |
| `reopen` | taking up what an earlier session left, and whether it holds together |
| `requests` | which addresses stand for which object |
| `fault`, `disk` | from the address of a fault to the block that answers it |
| `s3` | headers that describe an object, and bodies that come in pieces |
| `allocator` | one region, given once |
| `laws`, `runs` | what holds of all of this together, and over many operations |

Each operation is one step on the state of the cache. `app/shared.rs` runs the steps one at
a time, under a lock of the process and the lock word at the start of the region.
