# furiosa_device

Lists the NPU cores of FuriosaAI devices and tells which of them are free.

- `src/` is the verified library (Verus). It decides everything from plain
  values that `app/` reads: device file names and paths, the texts of sysfs
  files, whether a device file could be opened.
  - `names`: the grammar of device file names.
  - `npu_core`: cores, their kinds, statuses, names.
  - `device_map`: grouping the device directory by device.
  - `masking`: marking cores that share a processing element with an
    occupied core.
  - `order`: the listing order and the sort.
  - `permutation`: facts about sequences that hold the same elements.
  - `listing`: the per-device decisions and the final listing.
  - `text`: digits, decimal numbers, white space.
- `app/` reads `/dev` and `/sys` with tokio and calls the library.
- `tests/` runs the library on concrete values.
