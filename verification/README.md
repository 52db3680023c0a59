# gamescope-led-sync

Ambient LED backlight for gamescope: the program reads gamescope's PipeWire
video stream, computes one colour per LED around the screen edges, and sends
the colours to a WLED controller as DRGB realtime packets over UDP.

- `src/` is the verified library: the LED layout, the edge zone sums of a
  frame, the order of the zones along the strip, the DRGB packet, the PNG
  frame dump (CRC-32, Adler-32, stored deflate blocks), the preview's choice
  of zones, the capture session's state between ticks, node discovery
  decisions, and the text of messages and timestamps.
- `app/` is the program around it: command-line parsing, the PipeWire
  stream, signals, sockets, files, the terminal, and the colour grading and
  smoothing, which work in floating point.
- `tests/` runs the library on concrete values.
