# bukagu

Mirror a read-only source folder into destinations, map single files with a banner, and
keep encrypted backups of the source. The library is written in Verus: what each function
returns or changes is stated in its contract and proved.

## Layout

- `src/` is the verified library.
  - `text`, `path`, `sorting`, `resolve`, `clock`: text, paths as bytes, stable sorting,
    where paths really lie, and timestamps.
  - `engine`: scanning, comparing, planning and applying a mirror, and the file mappings.
    `engine::mirror` and `engine::world` prove that applying a plan makes the destination
    a mirror of the source and changes nothing else.
  - `backup`: keys, archives, retention and the run of a backup, step by step.
  - `store`, `credentials`, `cli`, `message`, `app`, `session`: what is kept, what can be
    asked for, and the state of a run.
  - `theme`, `ui`: the screens, as state machines over keys and as styled text.
- `tests/` holds the tests of the library.
- `app/` is the program around it: arguments, files, the network and the terminal.

The library does no input or output. What the file system or the network says is handed
to it as plain values, and it hands back what to do. BLAKE3, age and gzip are called through
small wrappers in `engine::hash` and `backup::crypto`, whose contracts say what is relied on.
