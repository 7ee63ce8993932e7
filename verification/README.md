# snap

Typed decisions from unstructured state: every question compiles to a prompt
whose first answer token must be a letter, and the answer is read off the one
logits row at that position. Nothing is generated and nothing is parsed.

The library (`src/`) is everything but the model runtime, floating point and
I/O, written in Verus and verified:

- `schema`, `value`, `text`, `num`: requests, JSON values, text, and numbers
  held by their bits.
- `prompts`, `compact`, `expand`, `engine`: a request compiled to items, a
  layout and one message per item.
- `frame`, `decide`, `warm`, `agree`: messages to prompts, prompts to one run
  over the cache, and that neither the mode nor the cache changes what is read
  or answered.
- `kv`, `plan`, `trie`, `wave`, `weave`, `run`, with `memory`, `prefix` and
  `weight` as their model: the prefix cache. `calls` and `ledger` keep the record
  of what the backend was given: every job's row is proved to be asked of it right
  after exactly the job's prompt, whatever the cache did.
- `repeat`, `again`: that the same prompts, and the same request, run again decode
  less.
- `decisions`, `answer`, `fold`, `api`: what was read, as typed answers.
- `calibrate`, `evaluate`, `report`, `bench`, `group`, `lines`: calibration,
  evaluation and benchmarks, up to the arithmetic.
- `batch`, `models`, `instances`, `server`, `commands`, `version`: the rest of
  the program's decisions.

`app/` is the `snap` command: llama.cpp behind the `kv::Backend` trait, the
floating-point arithmetic, the HTTP server, files and processes. `tests/` runs
the library, the engine over a simulated runtime.
