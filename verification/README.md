# desktop_edits

Delivery of edits from a native application to its webviews over a local websocket,
verified with Verus.

The renderer sends each webview its edits in numbered batches and waits until the webview
has acknowledged them all. Connections come and go: a batch is held until exactly its own
number comes back, and goes out again, in the same frame, over the next connection if one is
lost on the way. Handshakes may finish out of order; one that comes too late never replaces
a newer connection. Whoever connects shows a random key, and the server shows one in return.

- `src/` is the library: pure state and decisions, with contracts. `src/delivery.rs` and
  `src/order.rs` hold the laws of delivery over any number of steps, `src/flush.rs` those
  of a webview's queue, and `src/barrier.rs` and `src/copies.rs` those of both together; the
  laws of handshakes, keys and messages stand at the end of their modules.
- `app/` is what surrounds it: sockets, threads, the async runtime and the entry point on
  Android. The Android entry point also needs jni, libc, ndk, ndk-context, tao and wry.
- `tests/` runs the library with the crates that it calls.

What is believed without proof of those crates stands in the doc comments of the functions
that call them: in `src/ack.rs` (one-shot channels), `src/keys.rs` (base64, random keys) and
`src/handshake.rs` (constant-time comparison).
