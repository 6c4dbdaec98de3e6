# scriptsheet

A small spreadsheet whose columns are scripts. Each column has a key and a rhai script;
the script is the body of `fn run(row)`, and it may read other cells with `get(key, row)`.
Columns are arranged in named groups that can be reordered by drag and drop.

The library in `src/` is verified with Verus:

- `scripts`: the script store, the value cache, and the decisions of an evaluation
  (dependency loops, rows out of range, cached values, missing scripts, compiling on
  first use), with the messages they produce.
- `panes/table`: what the table shows: header labels, cell values, expanded rows, and
  how the groups are brought in line with the stored scripts.
- `panes/dnd`: moving items between groups, moving and deleting groups.
- `tree`: adding and removing columns, recording evaluation errors.
- `strmap`, `text`: a sorted string map, string order, and number formatting.
- `engine`: the declarations of the rhai types and the one call into rhai's compiler.

`app/` is the window (eframe, egui, egui_tiles, egui_table): it draws, saves and loads
the state (serde, ron), and runs the compiled scripts with rhai, asking the library what
to do with each cell.
