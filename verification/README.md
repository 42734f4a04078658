# mdview

The verified core of a lightweight Markdown viewer for Windows.

`src/` is a Verus library:

- `winpath` — a lexical model of Windows paths (drive, UNC, device and
  verbatim prefixes; roots; components) with join, normalisation, parent and
  file name.
- `normal_form` — normalising a normalised path gives its text back, unless
  a name carrying a drive restarted it and left a name that is `.`, `..`,
  holds a `/` or itself starts with a drive.
- `percent` — percent-encoding of UTF-8 text and its inverse; decoding an
  encoding always gives the text back.
- `links` — resolution of link and image destinations against the directory
  of a document into absolute local paths, and detection of network (UNC)
  paths, which are refused.
- `markdown` — rendering through `pulldown-cmark`: every local destination is
  rewritten to a scheme the viewer handles, and images load lazily.
- `document` — decoding a file's bytes into text (UTF-16, binary and other
  encodings are named as such), the viewer's own notices, the startup
  request, and image media types.
- `commands` — which links may be opened, which URLs handed to the system,
  which navigations allowed, and how image requests are answered.
- `watch` — the decisions of the file watcher: settle, read, re-read after a
  grace period, publish or report the file missing.

`app/` is the Tauri program around it: the window, file and process I/O, the
file watcher thread, and the serialisable copy of `Document`.
