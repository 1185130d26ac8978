# rustbox

Small Unix-style tools (echo, cat, head, tail, grep, sort, cut, tr, find, ls,
tree, cp, mv, du, xargs, and a terminal report demo) whose decisions and
output are specified and proved with Verus.

- `src/` is the verified library. Each module states, over spec functions,
  exactly what a tool prints for its input and options: `escape` (echo),
  `lines` (cat, head, tail), `grep`, `matcher` and `highlight` (grep with the
  `regex` and `colored` crates), `sort` and `order`, `cut`, `charset` (tr),
  `glob` and `find`, `ls`, `names`, `tree`, `du`, `sizes`, `transfer`
  (cp, mv), `xargs`, `report` and `paint` (the terminal report, with
  `comfy-table` and `colored`), and `text` for shared character helpers.
  Calls into outside crates and a few `std` functions sit behind small
  trusted wrappers whose contracts are documented next to them.
- `app/` is one binary around the library: argument parsing, reading files
  and standard input, walking directories, running commands, and printing.
  Called under a tool's name it acts as that tool; otherwise it is the
  `rustbox` multi-tool with subcommands.
- `tests/` exercise the library on concrete inputs.
