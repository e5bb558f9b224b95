# stormdrain

A BitTorrent client in two parts. `src/` is the core, written in Verus: what a
client computes and decides, with contracts that are proved. `app/` is the
program around it: arguments, sockets, files and clocks.

## The core

| Module | What it holds |
| --- | --- |
| `bencode` | bencode values, decoding and encoding |
| `metainfo`, `magnet` | torrent files and magnet links |
| `piece_manager` | the state of every piece of a torrent |
| `piece_download` | one piece on its way, block by block |
| `peer_task` | the course of a connection that we download from |
| `seed` | the course of a connection that we upload to |
| `file_writer`, `resume` | where pieces stand in the files, and resuming |
| `peer::message`, `peer::conn`, `peer::handshake` | the peer wire protocol |
| `peer::dial`, `peer::mse` | connecting, and the encryption of connections |
| `peer::metadata_exchange` | fetching the metadata of a magnet link |
| `tracker`, `announce` | HTTP and UDP trackers, and rounds of announces |
| `dht` | DHT packets, the routing table and lookups |
| `download` | the course of a download session |
| `rate` | caps on transfer rates |

Exchanges with the world are state machines: the program reports what happened,
and the machine says what to do next. Every machine has a `spec` transition
function on its view, and its `step` is proved to compute it.

At the end of most modules stands a part "Laws" with public proof functions:
what is encoded is decoded again, what is written is read back, a piece is never
claimed twice and never lost, only verified pieces are written, and the like.

## What is trusted

Calls into the crates `sha1`, `hex`, `num-bigint`, `rand` and `bytes`, and a few
string functions of the standard library, stand behind small wrappers whose
contracts are believed. They are in `digest`, `text`, `peer::mse`, `random` and
`buffer`; the comment on each says what is claimed.

## The program

```
stormdrain [OPTIONS] <SOURCE>
```

`SOURCE` is a path to a `.torrent` file, an HTTP(S) URL to a `.torrent`, or a
magnet link. A download that was interrupted continues where it left off.
