# agave-abiv2-memory-contexts

A Verus-verified library for three pieces of a validator's execution path:

- `memory_contexts`: writable permissions of account regions across nested
  invocation frames; each frame records a region's flag before its first
  change, and popping the frame puts those flags back.
- `runtime_memory_contexts`: the runtime's per-frame memory contexts (ABIv1,
  placeholder, ABIv2), the shared ABIv2 mapping with the VM configuration
  and SBPF version of the executable it was made for, and the account window
  of that mapping whose writable flags each frame sets from the current
  instruction's accounts and restores on pop.
- `scheduler`: conflict scores of transactions and a stable sort by them.
- `shared_memory_protocol`: the messages exchanged over shared memory.

`permission_log` holds the shared model of flags under a sequence of writes
and the lemmas both permission modules are proved with.

`app/` holds what stays outside the verified library: the mapping of the
library's errors onto the runtime's `InstructionError`, `#[repr(C)]` copies of
the shared-memory messages, the construction of the ABIv2 region table, and
the hand-over of a VM region table and an executable's settings to the
library's ABIv2 mapping.
