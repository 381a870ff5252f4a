# Ciallogcat

A desktop viewer for the log of Android devices. It finds the Android Debug
Bridge, lists the connected devices, reads the log of the one that the user
chooses, and filters it by package, level and text while it goes on.

The library under `src/` is verified with Verus:

- `text`, `render`: characters, lines, words, numbers and padding.
- `model`: log buffers, levels, entries, saved filters.
- `log_store`: the retained log in shared chunks, with its byte accounting.
- `pattern`, `filter`: regular expressions, what passes a filter, the requests to
  the filter worker and its results.
- `naming`: naming the processes of entries that came before their names.
- `selection`: the selected rows, and moving among the filtered ones.
- `logs`: the log as it is shown, with its filter, memory budget and selection.
- `answers`: why the answers of the filter still fit when they come.
- `adb`, `bridge`, `stream`: what the bridge is asked, and how its replies and the
  stream of the log are read.
- `queue`: the byte budget of entries that wait between reader and view.
- `capture`: choosing, starting, pausing and closing the capture of a device.
- `session`, `controls`, `view`: the whole state, its events, keys and labels.
- `config`, `saved`, `history`: settings, saved filters, queries.

`app/` is the window: panels, processes, threads and the settings file. `tests/`
runs the library.

What the library rests on besides is stated at the functions of `regex` and of the
standard library that it calls, each with what is claimed of it.
