# yaak_grpc

Descriptor pools for gRPC clients. The library under `src/` is verified with Verus: the contract of
each function says what it returns, and Verus proves that it does.

- Lowering of file descriptors under a protobuf edition to `proto2`, so that `prost-reflect` can read
  them: `editions`, `reading`, `writing`, `lowering`, `features`, `nesting`, and `dynamic` for the
  messages.
- Pools, and what a file must be like for a pool to look at it: `pool`, `readable`, `rules`,
  `escape`, `imports`, `reach`, `notes`, `declarations`.
- Loading of files that a reflection service sends, with what they import: `reflection`, `loader`,
  `topology`, `adjacency`, `reply`.
- The types that `Any` messages name: `any`.
- How `protoc` and `buf` are called, and what their failures are told as: `protoc`, `buf`, `tool`,
  `text`.
- The path under which a method is called: `method`.

What is not proved is marked `external_body` or `assume_specification`: the calls into
`prost-reflect`, `prost-types`, `http`, `dunce` and `uuid`. Their doc comments say what is believed
of them.

The crate under `app/` does the input and output: it runs the compilers, reads and removes files, and
talks to servers.
