# Grbly

A small GRBL sender and visualiser for desktop use, with its logic verified in Verus.

- `src/` is the library. Everything in it is verified: G-code words, toolpaths and the transform
  that follows a probed surface; the controller's replies, the send queue, the engine's decisions,
  soft limits, pass counts and height maps; the simulated stock; and what the display shows and
  what its buttons do.
- `app/` is the program around it: the window, the serial port, threads and files.
- `tests/` run the library on the processor's own floating point.

## Numbers

Numbers are held by their bits (`arith::Scalar`, `arith::Double`). Comparing and negating them is
done in the library. Sums, products, roots, conversions and the notation of numbers come from an
`arith::Arithmetic`, which every function that computes takes as its first argument; its contract
names the operations and their operands. `arith::Calculator` makes an arithmetic of three
functions, which must be total and depend on their arguments alone.

## Streaming

Lines are sent by counting the bytes in the controller's buffer of 128 bytes. The engine never
overruns it, keeps the order of the lines and loses none. When a height map is attached, every move
is cut into chunks of a millimetre, and the height of the surface is added to each.

## Probing

A probing move that meets nothing gives an error and no alarm. Every exit retracts to the safe
height: a probing that ends, with a height or an error, and one that is refused. The result of a grid is kept in `~/.cache/grbly/heightmap.txt`.

## Safety

Starting a job, starting the spindle and switching the soft limits take a second click within three
seconds. Jogging and setup are offered only in states of the machine that allow them. A line that
leaves the machine's travel ends the job. Verify motion on your machine before trusting it.
