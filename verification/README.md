# synchronizer

Keeps the chain of a node in step with the chains of its peers: which headers to ask for and to
send, where two chains part, which blocks to take in and which have to wait for their parents.

The library is in `src/`, written in Rust and proved with Verus.

| modules | what they hold |
| --- | --- |
| `hash`, `difficulty`, `table` | hashes, 256-bit work, maps keyed by hash |
| `block`, `chain` | headers, blocks, the stored blocks and the main chain |
| `status`, `config`, `peers`, `pool` | what is known of blocks and peers, settings, waiting blocks |
| `synchronizer` | the state of a node, `SyncView` for what it stands for |
| `headers`, `ancestry`, `locator` | filing headers, walking back along them, locators |
| `import` | taking in blocks, one outcome at a time |
| `session`, `message` | peers that come and go, timers, requests |
| `arrival`, `convergence`, `numbering`, `waiting` | what holds across several calls |

Contracts speak of `SyncView` and `ChainView`. Functions whose names start with `law_` state what
holds of the library as a whole.

The library does no input or output and reads no clock. Verifying and executing a block is done
by the caller: `process_new_block` hands out a pending block, and `resume_import` takes what came
of it and hands out the next. Sums and comparisons of 256-bit work are left to the crate `bigint`.

`app/` shares a synchronizer between tasks and connects it to a network.
