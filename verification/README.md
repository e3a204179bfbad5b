# SolarOS

The logic of a small x86_64 kernel, written and proved in Verus.

- `src/` is the library: file systems (FAT32, and ext4 with a journal), the
  drivers' state machines (ATA, AHCI, PS/2, PCI, APIC), the ELF loader, page
  marking, the heap, the scheduler, system calls, the text console, the
  keyboard, accounts and the shell's commands.
- `app/` is the kernel around it: the boot sequence, ports, interrupts and
  stacks.
- `tests/` runs the library.

Each command of the file systems is stated in a `model` module as a function
from the state of the volume to its result and next state. The laws stand
beside the models:

- `fs::laws`: on a sound volume of either kind, what was written is read back,
  and writing, touching, making and moving leave the volume sound; so does
  removing what nothing else leads to. Fresh volumes are sound and orderly, and
  the commands keep them so, but for moving a directory into another; what an
  orderly volume names by a name that stands once, nothing else leads to. A
  write without space leaves an empty file.
- `ext4::laws`, `crash`, `atomic`: the journal, and what a cut leaves behind.
- `ext4::tree`, `files`, `keeping`, `erasing`, `moving`, `making`: what each
  command keeps of a sound ext4 volume.
- `ext4::counts`: the free counts are the clear bits; `ext4::order`: each inode
  has one name; `ext4::settled`: the journal agrees with the blocks at home;
  `ext4::shortage`: the write that ends for lack of space.
- `fat::sound`, `keeping`, `moving`: what each command keeps of a sound FAT
  volume; `fat::table`, `data`, `laws`, `erasing`: what a command does to the
  table, the data and the other files; `fat::fresh`: the new volume.
- `users`: saved accounts come back with the next load.
