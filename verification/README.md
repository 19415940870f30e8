# dweb_fabric

The networking kernel of a fabric, a logical network of devices with invited members, as a
library whose behaviour is stated in contracts and proved with Verus.

- `src/protocol` holds the canonical signed formats: facts, invites, relay capabilities.
- `src/roster` holds the facts of a fabric and derives its members from them.
- `src/session` holds the redemption of invites and the frames of control streams.
- `src/continuity` holds sessions that survive a change of connection, and HTTP over them.
- `src/text.rs` and `src/radix.rs` hold numbers, texts and bytes as text.
- `src/outside.rs` holds what the library believes of other crates and of `std`.

Contracts speak of views: what a value says, as sequences, maps and numbers. Public proof
functions state what holds of several functions together, such as that the order in which
facts arrive does not matter, that an invite is used once, or that a stream is delivered
whole and in order across interruptions.

`app/` puts the library on sockets, files and clocks.
