# teldbg

A small telnet debugger for inspecting memory. A client connects, types
lines such as `mem dump 0x7ffd1234 64`, and receives a hexadecimal dump of
the bytes at that address, eight to a line, each line followed by the bytes
shown as characters.

The library (`src/`) holds everything that is decided or computed, with
contracts proved by Verus:

- `number`: reading unsigned numbers in a radix, with the errors of the
  standard library's `from_str_radix`;
- `hex`: fixed-width hexadecimal digits;
- `mem_dump`, `mem_write`: reading addresses, lengths, sizes and values, and
  rendering dumps and listings;
- `parser`: the call language (`c f(1, 0x2, "three", true)`), as spec
  functions over characters and an executable parser proved equal to them;
- `command`: what a typed line asks for, and the reply;
- `telnet`: what a session does with each event of the connection;
- `config`: the settings and their defaults.

The program (`app/`) listens on the network, reads and writes memory, and
reads the settings file; it hands plain values to the library and performs
what the library decides.
