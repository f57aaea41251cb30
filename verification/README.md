# lark_server

The core of a realtime JSON database: a tree of values that clients read, write, merge,
remove and subscribe to, kept in memory and backed by a blob on disk and a log of recent
writes. Its rules are executable Rust in `src/`, stated in contracts and proved with
[Verus](https://github.com/verus-lang/verus); only the rate limiter, which counts in
floating point, stands in `app/`.

## Layout

`src/` is the library.

- Data: `value`, `json`, `plain`, `size`, `node`, `tree`, `path`, `order`, `shape`, `text`.
- Partly loaded trees: `store`, `wal`, `replay`, `promotion`, `listing`, `eviction`,
  `sentinel`, `access`.
- Requests: `protocol`, `inbox`, `database`, `change`, `writes`, `transaction`, `reads`,
  `server_value`, `hash`, `hooks`, `ledger`.
- Who asks: `clients`, `sessions`, `rules`, `auth`, `jwt`, `firebase`.
- Running: `lifecycle`, `settings`, `files`, `stats`.

`tests/` runs the library against blobs, logs and rules held in memory.

`app/` is the ordinary Rust around it: the inbox and its handles, the loop, the files, the
rate limiter and the sums of fractions.

## How it works

Work that reaches outside (reading the blob, appending to the log, asking the security
rules) is cut into steps. A method of `Database` looks at a request and returns the next
step; the caller carries it out and hands the outcome to the method that follows. Nothing
in `src/` waits, and a contract says what follows from every outcome that is handed in.
Whether a token has expired is up to the clock; what an expired token comes to is not.

A tree need not be loaded in full. `shape` says what it means for a partly loaded tree to
agree with the data that it stands for: the blob with the pending log entries applied on
top. The laws (`law_..` proof functions) state that writing, removing, loading and evicting
keep that agreement, so that a read of a loaded path gives what was written.

## What is trusted

Calls into other crates stand behind small functions marked `external_body`. Each has a
comment that names the function it calls and says what is taken for granted about it. They
cover `serde_json` values and numbers, RFC 8785 canonical JSON, SHA-256 and hex,
`IndexSet`, base64 and JSON web tokens, and a few functions of std.
