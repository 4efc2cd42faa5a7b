# one_b_rustc

Aggregates weather-station measurements, one `name;temperature` line each
(`Hamburg;12.0`), into the minimum, mean and maximum temperature of every
station, reported as `{Abha=-23.0/18.0/59.2, Abidjan=-16.2/26.0/67.3, ...}`
with the stations sorted by name.

The library in `src/` is verified with Verus:

- `word`, `number`, `input`: 8-byte little-endian words, the SWAR search for a
  byte, the branch-free temperature decoder, and the model of the file as
  lines (`lines`, `lines_ok`).
- `stats`: the mathematical model of the statistics (`aggregate`,
  `combine`) and its laws.
- `key`, `table`, `segment`: the open-addressing station table, the name
  lookup, and the parsing of a segment of the file with three interleaved
  cursors.
- `merge`, `order`, `report`, `format`, `listing`: merging the workers'
  station lists, sorting by name, writing the report and its checksum.
- `worker`: one worker's whole job (`aggregate_measurements`), the end of a
  run with several workers (`finish_workers`), and the laws that make
  sharing the segments out among workers sound.
- `validate`, `mapped`: checking that data is a file the tables can take in,
  and holding the file's bytes.

`app/` is the command-line program: it reads the file, hands segments out to
worker threads through an atomic cursor, merges their lists and prints the
report and timing.
