# Agent F-Row

Shows what your coding agents are doing on the lights of a keyboard's F-row, a
numpad, a Stream Deck or a small window, and brings an agent's window forward
when its key is pressed.

- `src/` is the library: sessions and their states, lanes, settings, hook
  registration, the lighting palette, the keyboards' protocol, the Stream Deck's
  pictures. Every function states what it does and Verus proves it. What holds
  of the library as a whole stands beside it as public proof functions.
- `app/` is the program around it: files, sockets, threads, windows and devices.
- `tests/` run the library with the crates it calls.

No number here is a machine's float. What a light or a picture is worked out in
is single precision, and `single` holds its rules: each operation is the exact
result to the nearest number of 24 binary digits. A device's tuning is in parts
of `settings::ONE`, a length on the monitor in thousandths of a point, a length
of typeset words in steps of `layout::STEP` to the pixel. A double that only
passes through is carried by its bits.
