# nexious_quick

The decision logic of Nexious Quick, a keyboard launcher for applications,
websites, files and folders, written in Verus with machine-checked contracts.

- `src/` — the verified library:
  - `text` — character sequences, trimming, case, decimal numbers;
  - `order` — stable ordering by integer keys;
  - `item` — the stored and exchanged records;
  - `json` — JSON documents as plain values, read with `serde_json`;
  - `search` — LIKE escaping, aliases, relevance scores, ranking, SQL text;
  - `dedupe` — identity keys, duplicate checks on saving, the clean-up of
    duplicate entries;
  - `sync` — the system scan's report, merge plans for scanned applications
    and synchronised entries, the stored rows a re-sync writes;
  - `folders` — the list of synchronised folders, the breadth-first folder
    scan, the folder picker;
  - `web` — page keys, image signatures, base64 data URLs, host names, icon
    stores, bookmark files and trees, browser ordering;
  - `launch` — how an entry is started, argument splitting and quoting,
    executable headers, process and window matching;
  - `settings` — switches, the shortcut, automatic sync, start with the
    system, update checks, window behaviour;
  - `platform` — behaviour where the Windows shell is not available.
- `tests/` — tests of the library on concrete values.
- `app/` — the Tauri application: windows, tray, storage, file system and
  system calls, which hand plain values to the library and act on its answers.
