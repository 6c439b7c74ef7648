# watchman

A file watching service that speaks the Watchman protocol: a daemon keeps what is
known of watched directories in memory and answers queries on them over a local
socket.

- `src/` is the library, verified with Verus: the encodings, the protocol, the
  in-memory trees with their logical clock, the query expressions, and the
  decisions of daemon and client. Everything there is a function of plain values;
  paths are bytes, and doubles are the bits of their representation.
- `app/` is the program around it: sockets, threads, the file system, the
  interfaces of the operating systems, and the decimal notation of doubles.
- `tests/` runs the library on concrete values.

Where a step needs the system, the library says what it needs and is told what
came of it. `daemon::dispatch` gives a `Job` for each request; the program does
what the job asks for and hands the result to the job, until there is an answer.
Streams are read piece by piece through a `protocol::Exchange`, which has each
request answered in its own framing before the next one is read, and directories
are listed one by one for a `tree::Crawl`.
