# chromashell

Live effects (plasma, fire, falling code, snow, lightning, ...) drawn in a
terminal, on their own or laid over a running shell.

`src/` is the verified library:

- `screen` — a small virtual terminal: the shell's output is fed byte by
  byte into a grid of cells with a cursor; printable bytes, line feed,
  carriage return, backspace, tab and the CSI sequences for cursor
  movement, erasing and foreground colour are understood, and OSC
  sequences (window titles and the like) are skipped. `params` and
  `sgr` read the parameters of a CSI sequence and the colour it selects.
- `effects` — the cell an effect draws, the text grid an effect is laid
  over, the effect names, and drawing text over a frame; `matrix`,
  `rain` and `lightning` hold the integer parts of those effects.
- `renderer`, `color`, `encode` — the bytes that draw a frame.
- `input`, `terminal` — the bytes a key sends to the shell and which
  events end an effect.
- `random` — the random numbers the effects draw.

`app/` is the program: argument parsing, the terminal and pseudo-terminal,
the frame loop, and the effects' floating-point simulation.
