# ultra_latency

A low-latency order sender, verified with Verus.

- `src/` is the verified library:
  - `order`: the packed 46-byte order record, its little-endian wire
    encoding, the CRC-32 checksum over every byte before the checksum
    field, order construction and nonces.
  - `pool`: round-robin selection over a pool of connections.
  - `batch`: a bounded order queue and the collection of batches of at
    most 32 orders.
  - `benchmark`: latency samples and their statistics (min, max, average,
    median, 99th and 99.9th percentiles, count below 1 ms).
  - `execution`: running execution metrics and market data keys.
- `app/` holds the network side: TCP and WebSocket connections, the batch
  sender loop, the benchmark driver, JSON orders and market data, and the
  conversion of decimal amounts to fixed point.
- `tests/` exercises the library on concrete values.
