# pnet_filesync

Hybrid filesync app for pNet: a folder replica on each of the owner's devices,
and a web view on the owner portal. pNet is a dumb pipe; paths, hashes, chunks,
retries and conflict policy are decided here.

- `src/` is the library: every decision as a function over plain values, with a
  contract that Verus proves. Nothing in it opens a file or a socket, or reads a
  clock.
- `app/` is the program: it walks the folder, moves datagrams and HTTP requests,
  and does what the library decides.
- `tests/` runs the library on concrete values.

| Module | What it holds |
|--------|----------------|
| `paths` | which relative paths are acceptable, and their normal form |
| `proto` | the packets: HELLO, INDEX, WANT, CHUNK, ACK |
| `store` | the index: scanning, merging (last write wins), tombstones, blobs |
| `sync` | the queue with ACK + retry, transfers in slices, the tick |
| `fabric` | the local pNet app API and its directory |
| `web` | HTTP requests, the page, the answers |
| `portal` | registration with the owner portal |
| `pathmap`, `codec`, `text` | an ordered map of paths, bytes, characters |

## Run

`app/main.rs` is the program's root; it takes its settings from the environment.

Open the portal, sign in, Home → **Filesync**. Put files in the folder or upload
in the page; other approved `filesync` agents on your devices converge.

| Variable | Default |
|----------|---------|
| `PNET_FILESYNC_DIR` | `~/pnet-filesync` |
| `PNET_FILESYNC_STATE` | `~/.pnet/filesync` |
| `PNET_FILESYNC_WEB_PORT` | `9090` |
| `PNET_FILESYNC_SLUG` | `filesync` |
| `PNET_PORTAL` | `http://127.0.0.1:8777` |
| `PNET_ADDR` | `127.0.0.1:7777` |
| `PNET_SKIP_FABRIC=1` | local folder + web only |
| `PNET_FILESYNC_NO_WEB=1` | agent without HTTP |
