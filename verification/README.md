# thesis_converter

The verified core of a desktop tool that batch-converts students' thesis
documents (Word/WPS) to PDF with LibreOffice.

- `src/` is the library, checked by Verus:
  - `identifier` — the rule engine that picks the thesis file in a student
    folder (keyword filter, final-version preference, newest or largest file);
  - `scanner` — file records, the Word/WPS extension test, sorting folders;
  - `converter` — output locations, the per-file conversion protocol (the
    decision before a conversion starts, including the "skip" strategy for a
    PDF that already exists, and a step function over process events), batch splitting, the report, and parsers for
    `df -k`, `/proc/meminfo` and `vm_stat` output;
  - `commands` — what the application's commands compute, including the
    exported text and CSV reports;
  - `text`, `paths` — character-level helpers and the `std::path` operations.
- `app/` is the Tauri application around it: commands, directory walking,
  LibreOffice processes, the thread pool and progress events.
- `tests/` exercise the library on concrete inputs.
