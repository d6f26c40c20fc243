# plannotator

The logic behind reviewing an agent's replies in a terminal, written in Rust and verified with
Verus.

- `src/` is the library. It finds and reads the sessions of the DeepSeek Harness (`dsh`) and
  decides where rendered feedback goes.
  - `transcript`: the zstd frame chain of a session file, and the messages in it.
  - `sessions`: the newest session of a directory, and a session by its id.
  - `delivery`: a send to the clipboard or to an agent in a Herdr pane, one turn at a time.
  - `frame`: how a zstd frame is laid out.
  - `host`, `pi`, `ranking`, `time`, `base64`, `text`: what these are built from.
  - `json`, `zstd`: what is taken from `serde_json` and `ruzstd`, with the contracts that the
    proofs rest on.
- `tests/` runs the library with both crates linked.
- `app/` is the file system, the terminal and the `herdr` program around the library.

Every function in `src/` has a contract. What holds of several of them together stands beside
them as public proof functions: that a copy is emitted whole, that feedback is never pasted into
a pane without an agent, that what is appended to a session comes first.
