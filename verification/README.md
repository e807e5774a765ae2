# flowscript

A small pipeline-oriented scripting language: source text is lexed, parsed
into pipelines, resolved against a symbol table, pruned, kind-checked,
emitted as bytecode, assembled, and run on a stack machine with a copying
garbage collector.

- `src/` is the verified library: every stage above, each function with a
  contract over a mathematical model, and the laws the stages keep (for
  example that resolving and checking only ever append errors, that pruning
  is idempotent, that a collection keeps every live block when the to-space
  holds nothing past its free pointer, and that heap values with no `true`
  boolean in them read back unchanged; a `true` inside a heap value reads
  back as `false`).
- `app/` is the command-line program around it: reading scripts and the
  prompt, printing, the float branches of the builtins and the few cases the
  library leaves to it (integer overflow, a repetition too long to hold, the
  casts that panic), the walk that folds builtins at compile time, and the
  loop that turns the frames one `frames::run_turn` at a time, running the
  builtins and float folds each turn hands back.
- `tests/` exercises the library on concrete programs and values.
