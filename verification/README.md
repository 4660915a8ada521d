# pomelo

A high-level emulator of a handheld console's operating system kernel,
written in Verus: the kernel's objects, handle tables, threads and their
wake-up protocol, IPC message encoding and handle transfer, the physical
page allocator, the system services, and the executable formats are
verified against their contracts.

## Layout

- `src/` — the verified library.
  - `types`, `errors` — handles, signals, timeouts, arbitration and result codes.
  - `object`, `object_table`, `sync`, `ports`, `thread` — kernel objects, handle
    tables, waker queues, ports and sessions, and thread state.
  - `kernel`, `svc`, `handler` — the kernel, the supervisor calls, and the
    dispatch of a guest's supervisor call.
  - `ipc` — reading and writing IPC messages.
  - `memory`, `kmm`, `le` — physical and virtual memory, the page allocator,
    and little-endian words.
  - `guest` — guest registers, thread-local storage and thread set-up.
  - `services` — the service manager and the system services.
  - `formats` — the extended header and content-container header.
  - `loader` — the configuration page and the layout of a program's code image.
- `tests/` — tests of the library.
- `app/` — the program: argument handling, the CPU recompiler glue, the
  host threads that run the services, and the scheduler loop.
