# Finder

An index of the files of NTFS volumes and the launcher on top of it. The library
under `src/` is verified with Verus: its functions state in `requires` and
`ensures` what they do, and the laws that hold of the whole are proof functions
whose names begin with `law_`.

- `mft/` reads table records, enumeration answers and journal records from bytes,
  and keeps the position of a journal.
- `index/` holds the entries: building from scans, journal batches, the cache, and
  the searches.
- `apps/` gathers and cleans the pool of applications.
- `boot`, `backend`, `front`, `cli`, `window`, `rows`, `walk`, `paths`, `settings`
  decide what the programs do next; whoever calls them performs it.
- `web`, `answers`, `launch`, `uninstall`, `icons`, `backdrop`, `data_uri` are the
  rest of the launcher.
- `text`, `winpath`, `bytes`, `sort`, `env`, `num`, `utf16` are the ground below.

`app/` is the command line around it: files, volumes, the registry, processes.
What is believed and not proved stands in doc comments at the functions that call
`zstd`, `lz4_flex`, `fuzzy-matcher`, `rayon`, `base64`, `image`, `serde_json` and
the parts of the standard library that Verus knows nothing of.
