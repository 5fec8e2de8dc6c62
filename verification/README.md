# mlat_server

A multilateration server for aircraft. Receivers on the ground report when they heard a frame;
the server brings their clocks together, finds where the aircraft was, follows its track, and
offers positions in the BaseStation format.

`src/` is the library: the rules of the server, each with a contract that Verus proves.
`app/` is the program around it: sockets, files, the clock, and the arithmetic in floating
point. `tests/` runs the library.

## Numbers and times

A measurement (a time in ticks, a distance, an angle) is a `Scalar`: a binary64 number, held by
its bit pattern. The library stores, compares, rounds and writes such numbers, exactly; where a
rule needs a sum, a square root or the like, the caller supplies the result.
Times are nanoseconds on a clock of the caller's.

## Modules

| module | what it holds |
| --- | --- |
| `scalar`, `fixed`, `coordinates` | measured quantities, six decimals, points |
| `text`, `sets`, `table` | text, small sets, rows found by a key |
| `messages`, `modes`, `cpr` | Mode S frames: parity, addresses, altitudes, positions |
| `json`, `protocol`, `zlib_transport` | what receivers and the local decoder send |
| `options`, `connection` | how the server and a connection start and end |
| `clock_sync` | pairs of clocks, and routes from one clock to another |
| `frames` | frames that several receivers are still reporting |
| `cluster`, `tdoa_solver` | which receivers and which positions are believed |
| `track`, `altitude`, `tracker`, `beacons` | tracks, altitudes, all aircraft, transmitters that do not move |
| `receiver`, `server` | connected receivers, and what a message does to the server |
| `sbs`, `utc` | records of positions, dates and times of day |

Public proof functions whose names begin with `law_` state what holds across functions: that
nothing jumps farther than it can fly, that a known beacon is never shown to move, that a frame is
dispatched once, that the lines of a stream do not depend on its packets, that no time is brought
over a stale pairing, that four receivers with a known altitude are never cut down to three.

## What is not proved

Calls into other crates stand behind small functions whose contracts are taken on trust; each
says which function it calls and what it claims of it. They are: hash maps of `dashmap`
(`table`), streams and files of `flate2` (`zlib_transport`, `beacons`), documents of
`serde_json` (`json`), dates of `chrono` (`utc`), and a few functions on strings (`text`, `sbs`).
