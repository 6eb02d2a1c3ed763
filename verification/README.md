# tachibana

A small UEFI boot loader and kernel, with their logic verified by Verus.

- `src/frame_buffer.rs`: colours in both channel orders, the frame buffer
  description handed to the kernel, and the choice of that description from a
  graphics mode.
- `src/render.rs`: pixel writes into frame buffer memory and the example
  picture the kernel draws, with the laws of painting an area.
- `src/elf_loader.rs`: the address range, page count and segment copy that
  place a kernel ELF file in memory (parsing through goblin).
- `src/memory_map.rs`: the text of the memory map file.
- `app/`: the firmware and hardware side: file access, memory allocation,
  leaving boot services, and the kernel entry point.
