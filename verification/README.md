# serial-mock-service

A configurable mock for serial-attached scales and similar devices. It opens one
or more pseudo-terminals (or existing ttys), answers what arrives on them by
rule, sends canned bytes on demand, captures everything it receives, and is
driven over a small HTTP API. The same program is the client of that API.

The logic is a library that is verified with Verus; what touches the system is a
thin program around it.

## Layout

- `src/` is the verified library.
  - `config` is the configuration, its defaults and its validation.
  - `bytes` are byte literals: plain text, hex, base64, byte arrays.
  - `framing` cuts a byte stream into frames: by delimiter, by fixed length, by a
    length field, or after a quiet gap.
  - `matching` compiles rules and matches frames against them.
  - `capture` holds the bounded raw ring and the event log.
  - `port` is the state of one port: scenarios, triggers, rules, reload.
  - `server` is the set of ports.
  - `http` reads requests, routes them and replies; `json` writes the replies.
  - `reload` applies a new configuration to the running ports.
  - `cli` is what the client asks and what it makes of the reply.
  - `text` and `table` are building blocks.
  - `outside` lists the calls into the standard library and other crates, with
    what is taken for granted about them.
- `app/` is the program: sockets, devices, threads, signals, the command line.
- `tests/` run the library.

## What is proved

Every function says in its contract what it returns. Beyond that, public proof
functions named `law_...` state what holds across functions: that cutting a
stream into frames loses no byte, and does not depend on how the bytes arrive as
long as no length field is malformed and the buffer stays below the size at
which it is flushed; that buffers keep to their bounds and event ids only grow;
that validation accepts exactly the configurations without fault; that a reload
keeps the device and the capture of every port that stays; that refused requests
change nothing; and that the client and the service read each other's messages
back as they were written.
