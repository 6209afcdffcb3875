# HostZ

HostZ keeps several sets of hosts entries (local texts, remote texts
fetched over HTTP, and groups that combine other entries), lets the user
switch them on and off, and writes the switched-on ones into the system
hosts file.

## Layout

- `src/` is the library, written in Verus. Its functions carry contracts
  and are proved against them, except a few small trusted wrappers
  (marked `#[verifier::external_body]`) around `regex`, `serde_json` and
  a few `std` string operations: their contracts are believed, not
  proved, and each says in its doc comment which outside function it
  calls.
  - `models/` the hosts list, trash can, history and settings types;
  - `hosts_core/content_parser.rs` lookups and edits of the list, the text
    of entries and groups, and the removal of duplicate records;
  - `hosts_core/hosts_manager.rs` append mode, line endings, and the plan
    of a system hosts write;
  - `hosts_core/search.rs` find and replace over the entries' texts, with
    the `regex` crate;
  - `hosts_core/trash.rs` the trash can;
  - `hosts_core/privilege.rs` the texts of an elevated copy of the system
    hosts file and the check of what was written;
  - `services/` update checks, the rounds of the refresh scheduler,
    notifications, shortcuts and the tray menu;
  - `utils/` paths of the system;
  - `text.rs` small string operations with their contracts.
- `tests/` exercises the library on concrete values.
- `app/` is the program around the library: the SQLite databases, file
  and network access, the clock and random ids, starting the elevated
  copy, background threads, notifications,
  the serde forms of the types, and a command loop on standard input.

The laws that the library states (switching, deleting, the trash can round
trip, group resolution, duplicate removal, append mode, line endings,
replacing, version order, scheduler rounds) are public proof functions next to the code they are about.
