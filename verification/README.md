# rs_termeter

Terminal charts from columns of numbers: braille line graphs (one or more
series, optionally with a second value axis) and pie charts, with summary
statistics.

- `src/` is the verified library: Bresenham lines on pixel grids
  (`raster`), braille cell patterns (`braille`), the line graph's size, axis
  labels and text (`graph`), the pie chart's size, legend and text (`pie`),
  reading data lines into fields and columns (`input`), series names and
  titles (`titles`), and text helpers (`text`).
- `app/` is the command-line program: argument parsing, reading files and
  standard input, the terminal's size, and all floating-point work (placing
  samples on the grid, axis values, statistics, pie angles, number
  formatting).
- `tests/` exercise the library on concrete values.
