# coap

Q-Block transfers for CoAP: large bodies sent as bursts of non-confirmable blocks, put together
at the other end in whatever order they arrive, with requests for the blocks that were lost. The
library holds the state machines of both ends and the decisions of a server around them, verified
with Verus. It does no I/O.

- `src/` is the library.
  - `packet`, `time` and `block_wise` state most of what is taken on trust of the `coap_lite` crate
    and of `std`. `request` trusts one more function of the crate, which makes responses, and
    `server` one, which joins paths.
  - `sender`, `receiver`, `receivers` and `reports` are the two ends of a transfer.
  - `range_set`, `missing_blocks`, `body`, `uint` and `table` are what they are made of.
  - `drive`, `request`, `server`, `qblock_server` and `address` are the decisions of the loops
    and of the server.
  - `laws` proves what holds of whole transfers: that a body arrives as it was sent, that what was
    lost is asked for and recovered, and that transfers do not disturb each other. It proves the
    same of exchanges that are handled block by block.
- `tests/` runs the library.
- `app/` is the asynchronous code around it: sockets, channels, timers and tasks.

A block option holds a block number of twelve bits as `coap_lite` writes it, so a body of more than
4096 blocks does not arrive; the laws leave such bodies out.

The crate reads option distances and lengths of two bytes in the byte order of the machine. The laws
about bytes on the wire therefore speak of a machine: one whose lowest byte comes first reads every
message, and any other reads those whose options are near each other and short.

What the crate's block-wise handling remembers of an exchange it forgets some time after the last
use. The contracts leave open whether it has; the laws about whole exchanges say so where they rest
on its memory.
