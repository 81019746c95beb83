# shred_perf

Compares two sources of the same shred stream. For every shred that arrives on
both ports it records which port was first and by how much; it reports first
sightings, percentiles of the leads and differences, and how often and by how
much each source loses.

- `src/` is the library, verified with Verus.
  - `shred`, `arrivals`, `state`: what has arrived where, and the running
    comparison.
  - `processor`: what each packet and each event leads to.
  - `percentiles`, `sort`: order statistics of the samples.
  - `binary64`, `rounding`: the 53-bit rounding that positions, percentages and
    durations go through, on integers, and how near it is to exact arithmetic.
  - `text`, `format`, `report`: the lines that are printed.
  - `stats`: the data that is saved at the end.
  - `laws`: what holds of the comparison and of its report as a whole.
- `tests/` runs the library.
- `app/` is the program: sockets, timers, the command line, the clock, the log
  and the JSON file. It reads packets with the `solana-ledger` crate.

Run it with

    shred_perf --name-0 Shreder --port-0 20001 --name-1 Source2 --port-1 20002
