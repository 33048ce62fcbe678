# bridge-daemon

The decisions of an audio router for PipeWire, verified with Verus: which sources
play on which outputs, how outputs are grouped so that they play in step, how
receiver hosts are paired, and how the audio of a group is cut, encoded and sent.

`src/` is the library. It does no I/O. Where a decision needs the outside world, the
library says what is to be done (`Action`, `Effect`, `ServerEffect`, `FeedAction`,
`ConnAction`, `OpenAction`) and takes back what came of it.

| modules | what they decide |
|---|---|
| `routing`, `graph`, `anchor` | the routing matrix, the links of a route, the PipeWire registry |
| `groups`, `reconciler`, `pass`, `announce`, `opening`, `device_groups` | what should run, and the steps from what runs to that |
| `sendspin`, `membership`, `server`, `relay`, `codec`, `flac`, `resample`, `wav` | the streams: codec, lead, members, blocks, packets |
| `agents`, `connection`, `hosts`, `targets`, `devices` | receiver hosts and devices: pairing, presence, levels |
| `rtp`, `modules`, `meters`, `feed` | RTP sources, module arguments, peak meters, the feed of a client |
| `maps`, `text`, `bytes`, `names` | ordered maps, text, samples and node names |

What the library promises across functions is stated in the proof functions whose
names begin with `law_`. What is taken for granted of code from outside stands in three
files: `flac.rs` declares the functions of the `flacenc` crate, `groups.rs` the hash of a
text, and `text.rs` two functions of `String` and `str`.

`app/` holds the edges: sockets, timers, files, PipeWire and the sendspin protocol.
`tests/` runs the library.
