# listory

A file-name search engine for Windows volumes, with its core logic verified
by Verus.

- `src/` is the verified library:
  - `text` — case folding, substring matching, UTF-16 and path joining helpers;
  - `drive` — drive roots and drive letters, and how a root is indexed;
  - `searchd` — the daemon's indexes: one keyed by path and one keyed by
    file reference number, with search, path reconstruction and the
    application of change-journal records;
  - `desktop` — the desktop application's index over several drives, its
    search command, the content-search result list and the application of
    a drive's change-journal records;
  - `usn` — parsing of master-file-table and change-journal record buffers
    and the classification of change reasons;
  - `protocol` — the length-prefixed framing of pipe messages;
  - `session` — the conversation with one pipe client as a state machine;
  - `daemon` — the request handlers' decisions.
- `tests/` exercises the library on concrete values.
- `app/` is the Windows daemon around it: volume and pipe I/O, the
  monitoring thread and the protobuf messages.
