# nylon_engine

The parts of the NylonME memory engine that decide who may do what, and that make
JSON of what a language model says, verified with Verus.

- `scope`, `keys`, `access`: the levels of API keys, the table of keys and how it
  keeps up with its file, and the checks that HTTP and gRPC requests pass.
- `keyfile`: making keys, and adding, listing and revoking them in a file.
- `chat`, `loose`, `scan`: what is sent to a model, and getting JSON out of its
  reply, also if the reply wraps it in prose or breaks off.
- `settings`: what the environment variables mean.
- `json`, `text`, `error`: JSON values, characters and strings, errors.

`app/` holds what touches files, the environment and the network. It calls the
library and turns its outcomes into those of `tonic`, `axum` and `reqwest`.

## What is not proved

The library calls `serde_json`, `axum`'s header map, `tonic`'s requests and `rand`
through a few functions marked `external_body` or `assume_specification`. The
comment above each says what is taken for granted of the call. Reading and writing
JSON text is named (`json_of_text`, `pretty_text`) rather than described; what is
taken for granted of the two is that they depend on their argument alone, that
reading gives back what was written if arrays and objects nest at most 127 levels
deep in it, that what is read nests no deeper than that, and that a text which
starts with an opening brace is read as an object or not at all.
