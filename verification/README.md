# cinnamos_kernel

The logic of a small RISC-V kernel, written in Verus and verified: addresses and page
numbers, Sv48 and Sv32 page table entries, page table walks (mapping, unmapping,
translation), address spaces, memory regions and the slicing of usable memory around
reserved regions, a bump allocator and a page allocator, tasks, the hart-local storage and a
round-robin scheduler, trap handling decisions, interrupt priorities and handlers, the
registers of the PLIC and the serving of its interrupts, the structure of devicetree blobs and
the searches among their nodes, and the relocation of the kernel image.

Layout:

- `src/` is the verified library. Public functions state in their `ensures` what they
  return or change; where a result comes from the devicetree reader (`fdt`), it is stated
  over named results of the blob. The address space functions state their failures (a
  misaligned region, frames running out), what a success leaves translated on fresh
  ground, and that a page on a free last-level entry, or a region already mapped the same
  way, is mapped with success; not that a mapping on any ground succeeds. The properties that relate several
  functions are public proof functions whose names start with `lemma_`.
- `tests/` runs the library on concrete values.
- `app/` is the glue that touches hardware and files: control registers, firmware calls,
  memory-mapped registers, reading a devicetree blob, and writing relocated words.
