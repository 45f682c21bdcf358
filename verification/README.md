# servertime

Estimates the offset between this machine's clock and a web server's clock
from the `Date` header of repeated HTTPS requests, and prints the window of
possible offsets in milliseconds.

## Layout

- `src/` — the library, verified with Verus:
  - `lib.rs`: the offset window one answer allows, the timing of the next
    request, the sleep plan, and the estimate kept between runs (`Client`),
    with the laws that the estimate is the intersection of all answers'
    windows and that the step halves with each run.
  - `range.rs`: the window of offsets and its narrowing (intersection).
  - `average.rs`: the running average of sleep lateness, packed in one
    atomic 32-bit word, with the laws of its packing.
  - `http/client.rs`: the request, the checked response head, the server's
    date and the body's length.
  - `http/body.rs`: the decoders of a body of known length and of a chunked
    body.
  - `http/reads.rs`: what a body hands out over a sequence of reads: all of
    a body of known length, and exactly the chunks' data of a chunked body.
- `tests/` — tests of the library on concrete values.
- `app/` — the program: the TLS connection, the reads and writes, the
  sleeps, and the loop of runs.
