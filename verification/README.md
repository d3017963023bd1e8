# lyrics

Fetch synced lyrics for a music library and keep them as sidecar files beside the tracks
(`.lrc` when timestamped, `.txt` otherwise), check `.lrc` files, survey a library's coverage,
build an EPUB of its lyrics, and follow along with a song in the terminal.

## Layout

- `src/` is the library, verified with Verus: LRC parsing and linting, tag and path
  resolution, sidecar states and writes, the per-track decision step, the HTTP retry and
  throttle policy, the search-result ranking, the coverage census, the book model and its
  XHTML/OPF/NCX rendering, the EPUB entry list, the cover collage geometry, and the terminal
  view's clock, key bindings, state machine and layout.
- `app/` is the program around it: argument parsing, the config file, the HTTP client, file
  system walks and writes, tag reading, image decoding of files, the zip writer, the cover
  title drawing, and the terminal event loop.
- `tests/` exercises the library on concrete values.

Every decision the program makes is a call into the library; `app/` reads, writes, waits and
draws.

## Collections

The ordered maps and sets that group albums by artist, count files by extension, gather
the `.lrc` files to lint and hold a theme entry's unknown keys are sorted `Vec`s here, with their invariants stated and proved:
keys strictly increasing (so no key twice), and each operation's result given exactly.
Verus did not refuse `BTreeMap` or `BTreeSet`: vstd specifies them. But its specifications
say what a map holds only for key types whose `Ord` it knows to be a total order, and the
keys here are `String`s and tuples of them (album keys, extensions, paths). For those, a
`BTreeMap` contract would prove nothing about which entries come out or in what order,
while the sorted `Vec` lets every grouping, count and order be stated over `Seq` and proved.

The one map keyed by a number, an album's tracks grouped by disc number, is a stable sort
followed by runs of equal numbers. A `BTreeMap<u32, Vec<Entry>>` would have a usable key
order, but vstd specifies neither `get_mut`, `entry` nor owning iteration for it, and a
track entry (which holds `String`s) cannot be cloned with a known result. So the grouped
entries could not be moved back out of such a map in verified code.
