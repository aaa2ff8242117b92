# divoom_ditoo

A verified library for the Divoom Ditoo Pro: the serial protocol packets that
drive the device, and the `.divoom16` animation file format, with conversion
from and to GIF.

- `src/protocol/`: command codes, packet framing and checksum, and the
  payloads of the animation upload, alarm and clock commands.
- `src/divoom_file_format/`: frame headers, frames with their palettes and
  bit-packed pixel indices, whole animations, and the GIF bridge.
- `src/lib.rs`: the packets the device commands send, the upload of an
  animation file in chunks, and the reading of the settings reply.
- `app/`: the command line tool around the library (Bluetooth on Linux, files,
  logging).
- `tests/`: tests of the library on concrete values.

The contracts state the byte layouts exactly, and proof functions state the
laws that connect them, among them that writing an animation in the Divoom
format and reading it back gives the same frames, and that reading a
well-formed file and writing it again gives the same bytes.
