# howfastly_map

The route map data of HowFastly as a verified library.

- `src/cells.rs`: the detail levels (ten and thirty degree cells), the cell of
  a point, the file and url of a cell, the cells under a frame, the reader of
  a cell file and the svg paths of a set of cells.
- `src/gen.rs`: the generator side: the polylines and towns read from the
  Natural Earth layers, a line split into the cells it crosses, the cells a
  ring lands in, and the text of every cell file of a level and of the base
  files.
- `src/text.rs`: characters, lines, words, integers and floats as the cell
  files write and read them.

Points are in hundredths of a degree throughout, the unit of a cell file.
Each public function states what it returns in its `ensures`; the `law_`
proof functions state what holds across functions, such as a cell file
reading back what the generator wrote into it.

`app/` holds the command line generator (reading the geojson files, the
floating point clip of rings against cells, writing the files) and the
floating point helpers of the web map and its speed chart.
