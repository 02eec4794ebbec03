# lamlvm

Read-only reader of LVM2 logical volumes, for environments without a
userspace LVM stack (such as UEFI boot loaders). The parsing of a physical
volume and the mapping of logical-volume bytes onto device bytes are
verified with Verus.

## Layout

- `src/` — the verified library.
  - `header.rs`: the binary label, physical volume header and metadata
    area header.
  - `text.rs`: the volume group metadata text (`key = value`,
    `name { ... }`, lists, `#` comments), flattened into entries.
  - `namemap.rs`: name-keyed maps kept in name order, with their laws.
  - `metadata.rs`: the volume group, physical volume, logical volume and
    segment descriptions read from the parsed text.
  - `open.rs`: `Lvm2Opener`, the state machine that asks for one read of
    the device at a time and yields the parsed `Lvm2`; `Lvm2::open_image`
    runs it over an image in memory.
  - `lv.rs`: logical volumes and `OpenLV`, which decides where each seek
    lands on the device and how far each read may go.
  - `owned.rs`: `OwnedLvReader`, which resolves every segment when it is
    built, and the laws that make it agree with `OpenLV`.
- `app/` — the I/O around the library: `Lvm2::open` over any
  `embedded_io::Read + Seek` reader (trait `OpenPv`), and
  `embedded_io::Read + Seek` for `OpenLV` and `OwnedLvReader`.
- `tests/` — tests over physical volume images built in memory.

Only linear logical volumes on a single physical volume are supported;
other segment types are refused with `OpenLvError::Unsupported`.
