# oxipng (verified core)

A lossless PNG optimiser whose core is written in Verus and proved against
its contracts. `src/` is the verified library; `app/` is the command-line
program around it (argument handling, files, threads, terminal output).

## Layout of `src/`

- `headers`, `png_data`: reading and writing PNG chunk streams (signature,
  chunk framing with CRCs, IHDR, animation frames), with the law that a
  written stream reads back to the same data.
- `filters`, `strategies`, `png`: scanline filters and the heuristics that
  choose them; unfiltering a filtered image gives the image back.
- `interlace`, `bit_depth`: Adam7 interlacing at every bit depth; changing
  the interlacing and changing it back gives the data back.
- `palette`: palette reduction and the palette orderings (luma, Zeng,
  modified Zeng, Battiato); every reordering keeps the colour of every pixel.
- `deflate`, `apng`, `colors`, `error`, `options`: compression calls into
  libdeflater, miniz_oxide and zopfli behind specified wrappers, and the
  library's plain data types.
- `optimize`, `cli`, `ranges`, `report`, `progress`: the decisions of the
  program (which trials to run and keep, how options parse, what is
  printed), as functions from plain values to plain values.
