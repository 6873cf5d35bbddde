# timemd

A time tracker whose database is a tree of markdown files: projects, tracked
sessions, the schedule, todos and settings are plain markdown that people and
agents read and edit by hand.

`src/` is the library, verified with Verus. Every public function states what
it does in its contract, and the laws of the file format are proved there:

- each kind of list line (session, one-off block, repeating block, skipped
  repeat, milestone, todo) reads back as what wrote it (`*_round_trip` laws);
- whatever the reader takes from a list, its line reads back, so a list once
  read and written is a fixed point (`law_list_fixed_point` and the
  `*_written_back` laws);
- a section written into a document is what reading it gives
  (`law_list_write_then_read`);
- todo fields read the same in any order (`law_fields_any_order`).
- a day changed through its own methods writes back the frontmatter
  mapping, the preamble and every section it does not own as it read them
  (`law_day_writes_back_its_front`, `law_day_keeps_other_sections`), and
  adding a session keeps the day in start order (`law_add_session_keeps_order`);
- the settings, project and ntfy files write back every frontmatter entry
  they do not own, whatever its value (`front_others` in their `render`
  contracts);
- settling a finished block twice logs it once (`law_settle_twice_logs_once`),
  and a report's buckets hold each key's shares summed
  (`law_gathered_totals`);
- a todo id is minted from the description's hash, deterministically, and no
  door adds a second todo under an id the list already holds.

Calls into chrono, chrono-tz, iana-time-zone and yaml_serde stand behind small
trusted wrappers, each with a doc comment saying what its contract claims.

`tests/` runs the library on concrete files. `app/` is the `timemd` command
line: it reads and writes the files and hands the library plain values.
