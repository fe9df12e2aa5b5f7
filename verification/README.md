# reflet

Reflet keeps folder pairs in step: one-way mirroring of a source folder into a
destination, dated backups, or one archive per pair (ZIP built in, 7z and tar
through external tools), on demand, on a schedule or when files change.

The decisions are a verified library (`src/`, checked with Verus):

- `plan`, `tree`, `scan`, `paths`: mirror planning over folder listings, the
  safety threshold on deletions, ignore patterns, path nesting and joining;
- `archive`, `archive_pass`, `compression`, `digest`: the archive index, change
  classification, archive planning, the bookkeeping of an archive pass, the
  destination clean-up guard and the command lines of external tools;
- `pass`, `outcome`: what each step of a pass counts and logs, and how a pass
  is reported;
- `pairs`, `config`: editing the list of pairs and the settings;
- `scheduler`, `state`: schedules, sleep computation, watcher events, the
  bounded activity log and pair statuses;
- `text`, `textmap`, `order`, `lists`: text, ordered maps and sorting.

`app/` is the desktop shell around it: file system walks and copies, archive
writing, the scheduler and watcher loops, commands and persistence.
`tests/` exercises the library on concrete values.
