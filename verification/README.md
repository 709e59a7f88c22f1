# xmip-core-observe

Observation: what is happening now, and what is unhealthy. What the message
path writes lands in a `Snapshot` over the scope tree, with its recent
`Activity`; a reader asks for everything at and beneath a scope.

The library under `src/` is verified: each public function states what it
returns or changes over a mathematical model of its values, and the laws
that span calls stand beside the functions as proof functions.

- `scope`: a scope is an Xmip URI and the tree is its path. `Scope::new`
  reads one, `Scope::contains` is the one containment rule — by segment,
  never by character — and `segments`, `node` and `stage` read its parts.
- `snapshot`: health and counts by scope; pausing and resuming a scope;
  health worst first and counts summed up the tree.
- `activity`: a bounded log of the recent items, newest first.
- `health`, `counted`, `stage`, `topology`: the words every surface shows,
  each read back from its word, and the worst-first order of records
  (`order`).
- `publication`, `recent`, `curve`, `run`, `capability`: what the files a
  surface reads hold, field for field, what a reader makes of what it does
  not know, and where a node's capability record sits.
- `text`: the bytes of a text, and cutting it at an ASCII byte.

`app/` writes and reads those files as TOML and holds the communication
topology, whose load, activity and rates are floating point.
