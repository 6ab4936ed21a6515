# rotastellar-agent

The decisions and computations of an agent that executes orbital compute
workloads on satellites, verified with Verus.

The agent pulls workloads from a console, replays their events on the satellite,
enriches them with the satellite's actual state and reports them. Before it does,
it predicts the hazards on the satellite's way (eclipses, passes through the South
Atlantic Anomaly, heat) and plans checkpoints around them.

## Layout

| Module | What it holds |
|--------|---------------|
| `types`, `agent` | Events, workloads, telemetry, errors |
| `client`, `sim_client` | Requests to the console and to the simulation service, what their answers mean, and the power and thermal model |
| `ocp` | Eclipse, window and pass steps: warnings, enrichment, tier selection, energy and throughput |
| `constellation` | Steps and transfers of a computation that spans satellites |
| `hazard` | Detecting, ordering and merging hazards; the checkpoint schedule |
| `orbit` | Keplerian motion, sidereal time, the sun's position |
| `simulated`, `execution`, `duty` | The satellite, the replay of a workload, the agent's round |
| `double` | Binary64 arithmetic on bit patterns, correctly rounded |
| `time`, `json`, `table`, `text` | Instants, JSON values, tables, texts |

`app/` is the program around the library: the command line, HTTP and timers. It
also hands the library the sines, cosines and exponentials that orbits need; what
the library computes from them is stated for every function that could be handed
in.

## Numbers

Every number that the agent computes with is a `Double`, a binary64 number held as
its bit pattern. An operation is stated as the exact result rounded to the nearest
number, so that contracts say to the bit what is computed. Values go in and out
through `f64::to_bits` and `f64::from_bits`.

## What is stated

Each function's contract says what it returns. What holds of several of them is
stated as a proof function beside them: that the state is saved before each hazard
and the save is done when the hazard starts, that every event reaches the console
once and in order, that completed steps are assigned ones, that the charge follows
the sun, that links get worse with distance.

## What is trusted

Calendar arithmetic and the reading and writing of timestamps come from `chrono`.
Each call stands behind one function in `time`, whose contract says what is relied
on. Everything else is proved.
