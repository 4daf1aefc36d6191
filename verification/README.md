# sledgehammer_bindgen

Batched calls from Rust into JavaScript. Calls are queued as one-byte operation
codes packed four to a little-endian `u32` word; a generated JavaScript module reads
the words back and dispatches each code to the function it stands for.

- `src/bits.rs`: the width of an operation code for a number of functions,
  low-bit masks, and the JavaScript that selects a range of bits.
- `src/channel.rs`: the buffer that queues codes (`encode_op`, `append`,
  `flush`), with a model of the JavaScript reader and the proof that a flushed
  message makes exactly the queued calls, in order.
- `src/bindings.rs`: the bindings that an annotated module describes, the
  generated JavaScript module, and the channel layout.
- `src/metadata.rs`: the metadata update before a run (creating the reader,
  flagging a moved message).
- `src/text.rs`: decimal numbers in generated text.
- `app/`: the code generation around the library: it reads the annotated
  module with `syn` and writes, with `quote`, a buffer whose queue and
  decisions are the library's. Binding a function's arguments, the argument
  encoders and the metadata layout are supplied through `FunctionBinder`.
