# vyges-power

Gate-level power analysis: a netlist, timing libraries and an activity source in;
per-instance leakage and dynamic power out, with the per-instance activity map that
an IR-drop and electromigration solver reads.

`src/` is the library, written and proved in Verus:

| module | what it holds |
| --- | --- |
| `job` | the `.pwr` job file: its grammar, its refusals, what an accepted job keeps |
| `vcd` | value change dumps: transitions of each signal, whole or in a window |
| `saif` | switching activity files: the bracketed trees, the nets, the toggle counts |
| `names` | which dumped signal a net of the netlist stands for |
| `activity` | the toggle rate of a net, measured or estimated |
| `power` | the clock network, the groups, and the terms of each instance's power |
| `engine` | the steps of an analysis, and what is told of its inputs |
| `sweep` | power over the windows of a sweep, and its peak |
| `render`, `format` | reports as text and as JSON |
| `cli` | what the command line asks for, and the exit codes |
| `double`, `units`, `text`, `name_map` | numbers, units, strings and maps underneath |

Numbers are IEEE 754 doubles. The library carries them by their bit pattern, compares
them, and decides by the comparison. `app/` does the arithmetic: it reads numerals,
multiplies the terms of an instance out, adds up, and formats. It also opens the
files, with the readers of `vyges_loom` for netlists, libraries, parasitics and
dumps, and sends notices through `vyges_events`.

`tests/` runs the library on concrete inputs.
