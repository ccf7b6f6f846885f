# ivy_rs

A verified core for the Ivy software bus, written in Verus.

- `src/` is the library, verified by Verus:
  - `wire.rs`: decimal numbers, separators and UTF-8 text at the byte level;
  - `ivy_messages.rs`: Ivy messages, their frames on a peer connection and the
    UDP announce format, with the laws that reading a frame gives back the
    message written;
  - `announce.rs`: the announce a bus sends and what it does with the ones it
    hears;
  - `pattern.rs`: matching a text against a subscription with the `regex` crate;
  - `peer.rs`: a peer as the bus thread knows it, and the frames in a read;
  - `bus.rs`: the bus thread's state machine (peer messages, application
    commands, connections, thread ends) and its laws;
  - `ivyerror.rs`: the error type.
- `app/` is the bus itself: threads, sockets, channels and callbacks, which
  hand every event to `bus::BusState` and carry out the actions it returns.
- `tests/` runs the library on concrete values.
