# apply_patch

Patches for source files, with the logic proved in [Verus](https://github.com/verus-lang/verus).

A patch is a text between `*** Begin Patch` and `*** End Patch` that says which files to
add, delete or update:

```
*** Begin Patch
*** Add File: notes/new.txt
+a line
*** Update File: src/main.rs
@@ fn main() {
-    old();
+    new();
*** Delete File: obsolete.txt
*** End Patch
```

- `src/` is the library. It parses a patch and repairs it first where its lines were run
  together (`parser`, `repair`), finds the lines to replace (`seek_sequence`, `replace`),
  moves the new lines to the indentation of the code around them (`anchor_finder`,
  `indent`), checks that no file gets worse (`syntax_guard`, `robustness`), and says what
  there is to do, all of it or nothing (`transaction`, `apply`). It touches no file: it is
  given what the files hold, and answers with operations and texts.
- `app/` reads the files, performs the operations and prints the texts.
- `tests/` runs the library on concrete values.

Syntax trees come from tree-sitter and unified diffs from `similar`. What the proofs take
on trust about the two stands in `src/syntax_tree.rs` and next to `unified_diff` in
`src/apply.rs`; what they take on trust about the standard library stands in `src/text.rs`
and `src/symbols.rs`.

Line and column numbers are `usize`; where the arithmetic could leave that range, a
contract says what happens there.
