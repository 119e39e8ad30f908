# GEM compiler back end, verified

GEM simulates synchronous designs on GPUs. A design is synthesized to a netlist
of and gates, inverters, flip-flops, SRAMs and word-level macros (CARRY4,
DSP48E2, SRLC32E). This crate turns such a netlist into the script that the
simulation kernel executes, and proves with Verus what it does:

| module | what it does |
| --- | --- |
| `netlist`, `aigpdk` | netlists, and the cells they are made of |
| `macros` | pins, slots and dependencies of word-level macros |
| `elaborate` | from a netlist to an and-inverter graph |
| `aig`, `staging` | the graph, its traversal, its endpoint groups, major stages |
| `pe` | partitions: boomerang stages, macro phases, merging |
| `flatten` | from partitions to a script |
| `collections`, `sorting`, `parallel`, `text` | calls into other crates and std |

Contracts are stated over spec functions next to the code. Laws, which relate
several functions, are public proof functions whose names start with `law_`.

`app/` is ordinary Rust around the library: it converts netlist databases,
reads and stores partitions, and hands scripts to a device.
