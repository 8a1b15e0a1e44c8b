# rolnix kernel

The memory management, process management and device logic of a small x86-64
kernel, as a Verus library, with the program around it.

- `src/` is the library. Every function has a contract that Verus proves:
  the physical memory manager with its deferred release and untyped regions,
  the boot-time setup, the kernel heap, four-level page tables, the round-robin
  scheduler, system calls, device programming, the multiboot map and the shell.
  Proof functions named `law_*` state what holds of the library as a whole.
- `app/` is the kernel program: entry, interrupt stubs, port I/O, statics and
  the loops that carry out what the library decides.
- `tests/` exercises the compiled library.

The library owns no hardware and no global state. Physical memory is a vector of
words that the caller supplies, and a physical memory manager, a page table or a
scheduler is a value that is passed along. The memory manager keeps its frame
table and its free lists in those words: the table in frames that it has set
aside, the lists threaded through the free frames. A page table keeps, as a ghost
value, the tree of tables that it stands for.
