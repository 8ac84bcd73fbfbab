# Pumpkinetica

A plugin for the [Pumpkin](https://github.com/Pumpkin-MC/Pumpkin) Minecraft server that loads,
pastes, edits and saves schematics: `.litematica` / `.litematic` and `.schem`. Its logic is a
library verified with [Verus](https://github.com/verus-lang/verus); the plugin around it is
ordinary Rust.

## Layout

`src/` is the library. Every function states what it returns, and Verus proves it: for every input,
or for those that its `requires` admits. A `requires` asks that a clipboard or an operation is well
formed, that a number fits its machine integer, or that a text can be taken apart. Where a caller
may not know that, a function tests it: `is_well_formed`, `can_move`, `is_countable`,
`is_schem_readable`, and those whose names begin with `try_`.

| Modules | What they hold |
|---|---|
| `text`, `names`, `bytes` | strings, maps from names, big-endian numbers |
| `nbt`, `nbt_read`, `nbt_write` | the tag format of Minecraft, to and from bytes |
| `gzip` | compression, by flate2 |
| `packing`, `litematica` | packed long arrays, and the Litematica format |
| `varint`, `block_string`, `schem`, `schem_write` | the Sponge format, read and written |
| `schematic`, `grid`, `assemble` | regions of blocks, and the box that holds them all |
| `clipboard`, `block_state`, `placement`, `palette` | the clipboard: turned, mirrored, pasted, saved |
| `host`, `resolve` | the block registry of the server |
| `survey`, `selection`, `paste`, `history` | reading and editing the world, undo and redo |
| `config`, `messages`, `listing`, `commands`, `ipc` | settings, commands, requests of other plugins |
| `nbt_laws`, `block_state_laws`, `motion_laws`, `edit_laws`, `save_laws` | what holds of several functions together |

Statements that relate several functions are the public proof functions whose names begin with
`law_`. Some examples:

- what was written reads back (`law_file_reads_back`, `law_saved_clipboard_loads`);
- four quarter turns leave a clipboard as it was (`law_four_quarters_are_none`);
- a copy that is pasted puts every block back (`law_copy_pastes_back`);
- an undo restores the world (`law_undo_reverts`).

A few functions call other crates: flate2, serde_json and the registry of the server. What is
believed of those calls stands above each of them.

Where an input would leave the range of machine integers, a function whose name begins with `try_`,
or that returns an `Option`, tells so.

`app/` is the plugin: command and event handlers, files, scheduling and the JSON of requests.

`tests/` runs the library on concrete values.
