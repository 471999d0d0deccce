# vhost

Support library for co-simulation hosts, verified with Verus.

- `src/mem/static_mem.rs`: the static memory store. Each HDL memory
  instance, named by path, word width (bytes) and depth (words), gets one
  sparse byte buffer. Byte writes inside an instance are kept, reads give
  back the last byte written (zero if none), `static_mem_exports` gives
  each instance's dense image and written ranges, and a flush hands those
  exports to a `StaticMemSink` in registration order, stopping at the
  sink's first error. A sink states the calls it received through the
  ghost log `received`.
  The proof functions at the end of the file state the store's laws.
- `src/mem/static_snapshot.rs`: the dense image of an instance and the
  maximal runs of written offsets.
- `src/sockets.rs`: the decisions of the socket helpers (client ids,
  fixed-size reads, string reads, status codes).
- `src/rpcs/py_calls.rs`: the outcome of polling a Python callback.
- `app/`: the process-wide store behind a lock, the TCP sockets exported to
  C, the PyO3 bridge and the mailbox call entry point.
