# sith

A toolkit for 16-bit Windows NE (New Executable) binaries, written in Verus.

`src/` is the verified library: its functions carry `requires` / `ensures`
contracts over a mathematical model (`Seq`, `Set`, `nat`, views of the
library's own types), and the properties that span several functions are
stated and proved as public proof functions (`lemma_*`). The calls into std
and outside crates (paths, lower-casing, key names, the configuration
directory) sit behind small `external_body` wrappers whose contracts say
what those functions are documented to do; where the answer depends on the
machine (whether a file exists, where the configuration directory is),
nothing is promised of it.

| module | what it holds |
| --- | --- |
| `text` | character-level helpers: trimming, case, splitting, numerals |
| `style` | ANSI colouring of terminal reports |
| `numparse` | numbers and segment lists as typed on the command line |
| `hexdump` | hex dumps and the inspector's reading of the bytes under the cursor |
| `report`, `order` | the tallies behind the import, relocation and resource reports |
| `resources` | resource selection, file naming and the disassembly range |
| `keys` | key bindings, commands and the keymap with its settings file |
| `palette` | the command palette: sigils, subsequence scoring, ranking |
| `nav` | tabs, history and the actions the browser applies to them |
| `listing`, `strview`, `navigator` | following a line, the listing's rows and where a scroll lands, saving a listing, the strings browser, the navigator's function list |
| `branches` | lanes of the branch-arrow gutter |
| `callgraph` | the layered call-graph layout and its trimmed columns |
| `highlight` | tokens of a disassembly line |
| `wizard` | the new-project wizard: selection, digest, module order |
| `store` | where settings live, the recent list, themes |
| `labels`, `icons` | short labels, sizes and icons |

`app/` is the command-line front end: argument parsing, file access and
printing around the library. It reads binaries through the workspace's NE
parser, disassembler and analysis crates (`ne_core`, `ne_disasm`,
`ne_analysis`).

`tests/` exercises the library on concrete values.
