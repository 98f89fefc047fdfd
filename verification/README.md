# stadhouder

Stadhouder runs a *stateful service* where no process may stay up for good: a
shared hosting account with a web server, CGI and cron, and nothing else. This
crate is its logic, written and proved in Verus, with the programs around it.

- `src/` is the library: what is decided and computed, with a contract for each
  function. What takes fractions is not in it: the rate of simulated time, the
  share of memory in use and the comparison of that share with its limit are
  computed in `app/`, in floating point.
- `app/` is the programs: the client CGI program, the service with a small test
  application, a stand-in for cron, and a local web server. They read files,
  pipes, clocks and sockets, hand what they read to the library, and do what it
  decides.
- `tests/` holds the tests of the library.

## Modules

| Module | What it is about |
|---|---|
| `text`, `number`, `seqs` | texts, decimal integers, sequences |
| `json` | JSON values, and their text as `serde_json` has it |
| `paths` | paths as texts, on either platform |
| `layout`, `request` | where files are, and which host serves a request |
| `config`, `cookie`, `identity` | the configuration, and who may connect |
| `state` | the state folder: numbers, the service flag, connection profiles |
| `pipes`, `heartbeat` | frames, the names of pipes, and what to do about them |
| `engine`, `timers`, `runtime` | the contract with an application, and the running service |
| `run` | what holds of a whole run of the service |
| `client`, `handler` | what the client program decides and answers |
| `test_app` | a small application that uses every part of the contract |
| `cgi_server` | which CGI program a request is for, and what its output means |
| `time` | engine time |

## Connections

A client that connects is given an id, and a profile is written into the state
folder. The service scans that folder every four seconds. A new profile is a new
connection; one that has gone means that the client has closed. Messages travel
as frames through a pair of pipes that are named after the id.

The service goes by *engine time*. In production that is calendar time; a test
instance may shift it and change its rate through files in the state folder, so
every duration is compared as a difference of engine times, and nothing the
service goes by is left in the future when time jumps back.

Paths are texts, and are put together as the platform has it: with `/`, or with
`\` on Windows. The functions that make or compare paths take the platform.

What is proved of the whole stands at the end of each module, as proof functions
with a sentence each: that frames come out as they went in however they arrive,
that no heartbeat reaches the engine, and so on. `run` has those that speak of
all the turns of a run, one after the other. The engine is told once that a run
begins and once that it ends, before and after everything else. A timer fires in
one call, or is cancelled. A connection's end is reported in exactly one call
after the one that announced it, for the reason it has. The answers to a
client's polls, one behind the other, are the beginning of what the engine sent
it.

## What is taken on trust

The library calls `serde_json` for JSON text, `uuid` for connection ids, `axum`
for what an HTTP header may hold, and a few functions of the standard library
that Verus has no contracts for. Each such call stands in a small function of
its own, whose comment says what is claimed.
