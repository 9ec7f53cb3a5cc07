# psi-ask

An interactive userspace OOM handler. It watches the kernel's pressure stall
information for memory pressure and, instead of killing something by itself,
shows the biggest memory consumers and asks which one to kill. While the
question is open the worst offenders are stopped; afterwards they go on.

## Layout

- `src/` is the library: what pressure files, process files and memory reports
  say, which processes are listed and stopped, how the dialog counts down, and
  what comes after what. It is written in Rust and proved with Verus: each
  function states what it returns, and the functions named `law_...` state what
  holds of several of them together.
- `app/` is the program: the command line, files, signals, threads and the GTK
  dialog.
- `tests/` runs the library on concrete values.

## Modules

| module     | what it is about                                              |
|------------|---------------------------------------------------------------|
| `text`     | lines, words, prefixes and white space                        |
| `number`   | numbers as text, both ways                                    |
| `config`   | what the program was asked to do                              |
| `psi`      | pressure files, and the sources that are watched              |
| `watch`    | what a poll means, and when pressure is real                  |
| `process`  | processes, and the biggest memory consumers                   |
| `walk`     | walks up the tree of processes and down that of cgroups       |
| `pause`    | which processes are stopped, and that they go on              |
| `wayland`  | which process shows the dialog                                |
| `firefox`  | readable names for Firefox's processes                        |
| `report`   | the memory reports that these names come from                 |
| `dialog`   | what the dialog shows, its countdown, and what an answer does |
| `monitor`  | the watch from the first sign of pressure to the quiet period |
| `history`  | the samples behind the chart                                  |
| `size`     | sizes for people to read                                      |
| `startup`  | texts and colours around the rest                             |

Memory pressure is compared with the threshold in floating point; that is done
in `app/`, and the library takes the outcome.
