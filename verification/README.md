# safe_mmio

Moving values to and from MMIO registers as single accesses of 8, 16, 32 and
64 bits.

- `src/chunk.rs`: the access plan of a transfer (each access as wide as the
  bytes still to move allow) and its laws: the accesses cover the transfer end
  to end, sizes 1, 2, 4 and 8 are one access, every access is aligned when the
  start is aligned to the first one, and how many accesses a length takes.
- `src/repr.rs`: how an access value lies in memory in a given byte order,
  with the exact encode/decode functions and their round-trip laws.
- `src/trace.rs`: the accesses a device receives (`Access`), what a read or
  a write of a register block adds to them (`read_transfer`,
  `write_transfer`), and the laws on transfers: they cover the block once,
  a read is determined by the device's answers, and a write followed by a
  read of memory-like registers gives the bytes back.
- `src/device.rs`: the `Mmio` handle, the only way the crate reaches an
  `MmioOps` implementation. It keeps the history of the accesses made through
  it as private ghost state, which only its own `read` and `write` can
  extend. Its type invariant says that every recorded access is a call of
  the matching `MmioOps` method with the recorded address (and value, for a
  write) that, for a read, returned the recorded value (`performed`, stated
  with `call_ensures`); every transfer ensures it of the history it leaves.
- `src/custom_mmio.rs`: the `MmioOps` trait that a user implements, and the
  transfers, whose contracts state exactly which accesses they add to that
  history.
- `src/volatile_backend.rs`: the same transfers as the default backend walks
  them.
- `app/lib.rs`: the pointer types, the volatile implementation of `MmioOps`,
  and the unsafe `read_unsafe` / `write_unsafe` methods that turn values of
  any type into bytes (with zerocopy) and back.
