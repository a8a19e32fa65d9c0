# mmap_chunker_core

Plans how to cut a large file of records into byte ranges that workers can
process on their own. No record is split, no byte is left out, and no byte is
handed out twice. The planning logic is verified with Verus.

## Layout

- `src/` is the verified library.
  - `search`, `ranges`, `scanner`, `records`, `plan`: finding delimiters, and the
    chunks and partitions of bytes in memory.
  - `chunker`, `engine`: one open file and its current layout, with the rules of
    the C interface.
  - `error`, `framing`, `source`: how records are framed (delimiter, fixed width,
    length prefix), and planning over anything that can be read at an offset.
  - `logical`: several files as one dataset, shared among workers.
  - `text`, `json`, `document`, `grammar`, `spacing`: numbers, hex, reading and writing
    JSON, and what every JSON document has in common.
  - `identity`, `manifest`, `reader`, `coverage`, `index`, `roundtrip`, `alike`,
    `distinct`: range plans and record indexes as documents, reading them back, and
    checking them.
  - `scan`: stored plans as DataFusion plans with one task per range.
  - `cli`, `rows`: what the command line accepts, and what it prints.
- `tests/` runs the library.
- `app/` is the command line program, memory maps, file access, the C interface
  and the DataFusion scan.

## Reading the contracts

Each public function says what it returns over mathematical models: `partition`
and `chunk_ranges` for ranges, `next_boundary` and `boundary_past` for a framing,
`read_plan` and `plan_layout` for a stored plan. What relates several functions is a
proof function whose name starts with `law_`:

- `records::law_partitions_split_no_record`, `records::law_chunks_split_no_record`
- `scanner::law_slice_partition_covers`, `scanner::law_chunks_cover`
- `logical::law_every_byte_has_one_worker`, `logical::law_ranges_keep_records_whole`
- `coverage::law_coverage_accepts_exactly`, `coverage::law_planned_ranges_are_accepted`
- `framing::law_next_boundary_is_smallest`
- `roundtrip::law_range_plan_round_trip`, `roundtrip::law_record_index_round_trip`

What is taken on trust is marked where it stands: two `String` methods in `text`,
`char::from_u32` in `json`, and the DataFusion and formatting calls in `scan`.
