# sender_receiver

Sends numbered probe packets over a link at a given rate, receives them at the other end, and
records when each went out and came in.

`src/` is the library, verified with Verus:

- `settings`: the settings of a run, read from a TOML table
- `addr`: IPv4 addresses in dotted decimal
- `lengths`: packet lengths, drawn at random or taken from a recorded trace
- `ipv4`, `packet`: the packets on the wire
- `sender`, `receiver`: what each side does, step by step
- `arrivals`: the course of a whole reception
- `record`, `text`: the files of records
- `interface`: choosing the network interfaces

`app/` is the program around it: threads, sockets, files and clocks. It reads `settings.toml` from
the working directory, takes the two interfaces from the command line, and wants `PPS` and `FLOW` in
the environment.

What the proofs rest on is marked `external_body`, `external_type_specification` or
`assume_specification`; each such item names the function of `pnet`, `csv`, `toml`, `rand` or std
that it stands for.
