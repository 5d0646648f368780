# vhost_bounce

Bounce-buffered vhost-user devices, with a verified core.

With bouncing enabled, a vhost-user backend never sees guest RAM. It gets a
pool of its own that holds shadow virtqueues and a buffer arena, and requests
are copied between guest memory and the pool in both directions.

- `src/` is the library. `bounce` holds the pool, its allocator, the shadow
  queues and the worker's decisions; `epoll_helper` the decisions of a device
  thread's event loop; `zoned` the configuration space of zoned block devices;
  `blk` the block device and `setup` the order in which it is set up.
- `bounce::model` says step by step what mirroring and completing do,
  `bounce::ownership` what every queue keeps, `bounce::laws` what follows for
  the guest, the backend and the device, and `bounce::account` where the bytes
  of a shared pool are.
- `bounce::copy` is the staged copy between two memories, and the order of its
  reads and writes.
- `bounce::memory` and `bounce::ring` are the boundary to `vm-memory` and
  `virtio-queue`: their contracts are taken on trust.
- `tests/` runs the library against real memory and queues, with a guest driver
  and a backend played by the tests.
- `app/` does the I/O: memory mappings, eventfds, epoll and the vhost-user
  socket.
