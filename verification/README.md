# greentd

The rules of Green TD, a multiplayer-first tower defence, as a verified library,
and the program around it.

A server owns the match. A client sends *intent* -- build here, sell that, call
the next wave -- and is told what came of it. Creeps enter on every lane of the
board in a column, walk to one goal, and cost a life when they get there; towers
shoot the creep closest to the goal; whoever lands the last hit is paid.

## The library (`src/`)

| Module | What it holds |
|---|---|
| `scalar`, `order`, `vector` | Single-precision arithmetic on bit patterns: rounding, comparison, points |
| `table`, `sorting`, `text`, `message` | Ordered tables, a stable sort, reading and writing text |
| `settings`, `config` | Command line, environment and file, layered into one configuration |
| `logging` | The name of a match's log file |
| `ratelimit` | The token bucket that bounds a peer's commands |
| `data` | The balance tables, their validation and canonical form; replicated state; refusals |
| `map` | The board: lanes, the goal, and which cells may be built on |
| `sim` | The match: waves, movement, leaks, fire, gold, and the end |
| `net` | The handshake, admission, intents, and the mirror of the match |
| `ui` | What keys and clicks ask for, and what the overlay says |

A state is modelled by a value of mathematical type (`SimView`, `MapView`,
`BalanceView`, `NetView`), an operation by a function on it, and the contract of
the code says that it computes that function. What holds of the library as a
whole is stated by the public proof functions named `law_..`, most of them in
`sim::laws`, `sim::ledger` and `map::laws`.

Counters that a match could in principle exhaust -- creep ids, gold, kills, leaks
-- are never allowed to wrap: `Sim::try_step` and `Net::serve` say when there was
no room.

## The program (`app/`)

`app/` opens files, sockets and windows. It reads the tables and the board from
disk, turns floats and entities into the library's numbers and handles, and
carries out what the library decided. Nothing in it decides a rule of the game.

```
greentd                            host: server + client in one process
greentd server                     a dedicated server
greentd client                     a client, joining 127.0.0.1:5000
greentd client --server 10.0.0.5:5000
```
