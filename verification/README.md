# md-reader

A lightweight Markdown reader. The verified library (`src/`) holds its logic:

- `text`: Unicode whitespace, trimming, line splitting as `str::lines` does it, UTF-8 byte lengths.
- `toc`: the outline (ATX headings outside code fences, with the byte offset of their line) and the reference link definitions (as a block followed by a blank line).
- `file_ops`: decoding a file's bytes (UTF-8 without its byte order mark, then GBK, then lossy UTF-8) and recognising Markdown files by their extension.
- `config`: preferences (theme, zoom in percent, outline switch) and the recent-file list.
- `reader`: keyboard shortcuts, outline markers, line count, search hit count, window title, the automatic-reload decisions and the choice of the file opened at start-up.

`app/` is the egui program around it: window, rendering, dialogs, file and configuration I/O.
