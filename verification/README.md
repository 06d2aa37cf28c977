# bevy_sfz

A verified loader for SFZ instruments.

An SFZ file describes an instrument as a list of regions: samples, each with the notes
and velocities that trigger it and with settings for pitch, volume, pan and release.
`bevy_sfz` turns such a file into an asset that holds the instrument together with
handles for all the samples it refers to.

## Layout

- `src/` is the library. Verus proves each of its contracts.
  - `asset`: the loaded instrument, which regions a note triggers, and the settings of a
    region with their defaults.
  - `loader`: the steps of loading, and the errors. Every sample that a region, a group or
    the instrument as a whole refers to is asked for once, and the loaded instrument has
    its handle.
  - `parsed`: what is taken over from an instrument that the `sofiza` crate parsed.
  - `path`: slash-separated paths. `encode`: paths inside URLs. `text`: substrings.
  - `instrument`, `opcode`: the data.
- `app/` is the Bevy side: asset type, asset loader and plugin. It reads the file, runs
  the parser and asks the asset server for the samples.
- `tests/` runs the library, on values written out and on files that `sofiza` parses.

## Trusted code

A few functions marked `#[verifier::external_body]` call other crates. Their contracts are
believed, not proved: in `parsed`, nine that read a parsed instrument; in `encode`, two
that call `percent-encoding`.

## Numbers and paths

Volume, pan and release time are single-precision numbers. The library chooses between them
and never computes with them, and carries them as their bits (`Float32`). Paths are text
with `/` between the components, on every system: drive letters and `\` have no meaning of
their own. A default path that is not Unicode has no text: samples below it are asked for by
the parsed path itself.
