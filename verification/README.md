# protomaps2d

Renders vector geometry tiles to 2D images.

`src/` is a library verified with Verus:

- `wire`: the protocol buffer wire format, as spec functions, and the
  readers of `quick_protobuf` that read one value each.
- `vector_tile`: the vector tile message types and their decoders, each
  proved to return the value that its spec function assigns to the bytes.
- `draw`: geometry command streams decoded into move, line and close
  commands; zig-zag parameter decoding.
- `tile`: looking up a feature's tags.
- `label`: the label collider, which refuses boxes that intersect a
  recorded one.
- `render`: what a tile's drawing consists of: its geometry drawings in
  drawing order, and the labels it offers for placement.

`app/` draws with piet: it turns the library's integer results into
floating-point drawing calls, measures label text, and exports the
WebAssembly entry point.
