# ajax

Firmware updates for vehicle ECUs over CAN, with the logic verified by Verus.

The library reads firmware files (raw images, Intel HEX, ELF for 32-bit ARM), checks that an image
can be programmed, and talks to the bootloader of an ECU: ping, version, entering the bootloader,
starting the application, changing the bit rate, and updating the inactive bank.

- `src/text.rs`, `src/memory.rs`, `src/crc.rs`: text and numbers, bytes at addresses, the CRC.
- `src/hex.rs`, `src/hex_laws.rs`, `src/elf.rs`, `src/firmware.rs`: from the contents of a file to
  an image.
- `src/types.rs`, `src/config.rs`: ECUs and the configuration.
- `src/protocol.rs`, `src/can.rs`: the bootloader protocol and CAN frames.
- `src/flash/`: the steps of an operation (`plan`), what the bootloader answers (`reply`), what a
  session does (`job`, `session`), and what holds of every session and update (`run`, `laws`,
  `counts`, `update`).
- `app/`: the command line, files, the CAN interface and the clock.

A session never touches the bus itself. It says what is to be done next, is told what came of it,
and so on until it is finished; `app/flash.rs` carries it out.

## What is proved

Every function states what it returns for every input. On top of that, proof functions whose names
start with `law_` state what holds of the library as a whole, such as:

- the swap command is sent only when every block of the image was written and acknowledged, and
  the bootloader then reported the CRC of the image (an ECU aside whose boot request is itself a
  swap command);
- a successful update sends the swap command once, as its last frame, and nothing is sent more
  often than it is to be tried;
- a session ends, and succeeds when the bus and the bootloader do what is hoped for;
- the blocks of an image, and the frames of a block, make up the image, and stay inside the
  inactive bank;
- an image holds every byte of the memory that its file describes, and nothing else but erased
  bytes; of an ELF file these are the segments that go into the flash;
- an Intel HEX file gives the same memory with blank lines, white space around its lines, letters
  in the other case, and other changes that do not count.

## What is trusted

- `socketcan::Frame::from_raw_id` builds a frame exactly for payloads of at most eight bytes and
  identifiers of at most 29 bits (`src/can.rs`).
- `std::str::from_utf8` decodes UTF-8 (`src/firmware.rs`).
