# tuxedo_md

The verified core of Tuxedo MD, a desktop Markdown editor.

`src/` is a Verus library.  Its functions carry contracts that Verus proves,
except the few marked `#[verifier::external_body]`: each of those makes one
call into std, `blake3` or `serde_json`, and its contract is believed, not
proved (its doc comment says what it claims).  `serde_json` is used without
its `preserve_order` feature, so its objects are ordered by key.

- `path`: POSIX path syntax on strings and on byte paths (`file_name`,
  `extension`, `parent`, `join`): `/` is the only separator.  The library is
  meant for Unix-like systems; Windows separators and drive prefixes are not
  interpreted.
- `markdown`: which paths are Markdown documents, which directories a
  workspace walk enters, which launch arguments open documents.
- `workspace`: rebuilding paths from a directory walk, keeping Markdown
  files, the 20,000-file limit, and the stable case-insensitive ordering.
- `document`: opening checks, BLAKE3 fingerprints, conflict detection and the
  temporary-file plan of an atomic save.
- `state`: application state keys, their files and how missing files are
  reported.
- `licenses`: where license files are looked for, how they are read and merged.
- `menu`, `app_info`, `error`, `text`: the native menu, build information,
  error messages and string helpers.

Documents, state files and license files are located by paths given as
bytes, so that directories and names that are not UTF-8 are kept as the
platform gives them; such paths are shown as text lossily.

`app/` is the Tauri shell: the commands the web front end calls, file-system
access, the directory walk, menus and plugins.  It asks the library for every
decision.

`tests/` exercises the library on concrete values.
