# nulnet

A lightweight Linux host agent: it collects periodic telemetry, serves it over
a Unix socket to clients that prove who they are, and keeps itself up to date
from GitHub Releases or a CDN. What the agent decides is a library verified
with Verus; what it does to the world is ordinary Rust around it.

## The library (`src/`)

| Module      | What it is about                                                    |
| ----------- | ------------------------------------------------------------------- |
| `config`    | Defaults, where the configuration is, what a broken one leads to    |
| `release`   | What the files of a release are called                              |
| `version`   | Versions and which of two is newer                                  |
| `update`    | Where updates come from, and the update step by step                |
| `storage`   | Which files are snapshots, and which of them are asked for          |
| `telemetry` | From raw readings and the output of tools to a snapshot             |
| `transport` | Requests, authentication, commands and answers                      |
| `document`  | JSON objects as far as the agent reads and writes them              |
| `crypto`    | Hexadecimal text, digests, signatures and random bytes              |
| `rounding`  | The rounding of binary64 arithmetic, on whole numbers               |
| `number`    | Whole numbers in decimal                                            |
| `text`      | Trimming, splitting and searching                                   |

Measured numbers are floating-point numbers, which the library does not look
into: its types are generic over them. Percentages and sizes that it computes
itself are whole hundredths, rounded as binary64 arithmetic rounds them.

What is taken on trust stands behind a few functions in `crypto` and `document`
(`hex`, `sha2`, `ed25519-dalek`, `getrandom`, `serde_json`), and in what `text`
says of `String::push`.

## The program (`app/`)

`app/` reads and writes files and sockets, runs commands, keeps time and turns
bytes into values. It takes every decision from the library.

## Tests

`tests/` runs the library on concrete values, beside the standard library and
the outside crates where those say what the result should be.
