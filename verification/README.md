# sparrow

Packs irregular items into a strip that is as short as possible, or into as few bins as possible.
The items may first overlap; a separation then moves them apart, guided by weights that grow on
whatever keeps colliding. Strips can be divided into sheets by walls, so that they can be cut
straight.

The rules of the optimizer are a verified library, written in [Verus](https://github.com/verus-lang/verus):
the decisions that a run takes, the checks that an input or a result has to pass, and the texts that
the library reads or composes have contracts that Verus proves. What is floating point, geometry,
file access, logging or threading is an ordinary program around it, without contracts.

## Layout

| Where | What |
| --- | --- |
| `src/scalar.rs` | 32 bit floating point numbers by their bits: comparisons, order, and which are finite |
| `src/order.rs`, `src/random.rs`, `src/keymap.rs`, `src/text.rs` | stable sorting, random choices, maps by slot keys, decimal texts |
| `src/config.rs` | the settings |
| `src/quantify/` | the books of who collides with whom, how badly, and with which weight; the buffers that overlaps are measured with |
| `src/optimizer/` | strip packing: construction, separation, exploration, compression, disruption, sheets |
| `src/optimizer/bpp/` | bin packing: constructions, scattering a closed bin, exploration, pack-down, consolidation |
| `src/util/` | inputs and outputs: demands, rotations, warm starts, packability, the checks before an export, time limits |
| `tests/` | tests of the library, partly on real layouts |
| `app/` | the program: command line, files, geometry, and the loops that carry out what the library decides |

## How a run works

A phase of the optimizer is a state machine. The program tells it what happened as an event (a
separation ended with this loss, the time is up, these are the bins) and is told what to do next
as an action (separate, close this bin, go back to that solution). Solutions are handles to the
library: it decides which one to keep, and the program holds what they look like. The laws at the
end of each module say what holds of every sequence of events: only feasible solutions are kept,
items are neither lost nor doubled, no bin is used that is not in stock. An attempt may fail; it then
leaves the solution that was kept as it was.

## Usage

    sparrow -i instance.json -t 60 [--min-sep MM] [--sheet-width MM] [-p RUNS]
    sparrow bpp -i instance.json -t 60 --bin 3200x3200:10:1 [--pack-down spread]

A solution that was written earlier can be given as input; the run then starts from it. Solutions
are checked in full before they are written to `output/`.
