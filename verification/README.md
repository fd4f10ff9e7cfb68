# jslite

The verified core of a small sandboxed JavaScript engine: the lowering of a
parsed script into the intermediate representation of guest programs, with
the validation rules that refuse what the runtime does not support, the
compiler from that representation to
stack-machine bytecode, and the pieces of the runtime that need no floating
point — resource accounting, string and regular-expression helpers, error
rendering and scope tracking.

Every function in `src/` is checked by Verus against its contract.

- `source`: the parsed syntax tree, as plain values.
- `lowering`, `lowering_spec`: lowering a parsed script into the
  representation (`compile_parsed`, `Lowerer::lower_stmt`,
  `Lowerer::lower_expr`, ...). Each function's contract states the lowerer's
  state after it (open scopes and every diagnostic, in order), whether the
  node lowers, and how the lowered node relates to its source.
- `lowering_laws`: lowering fails closed — it never takes a diagnostic back,
  a construct that fails to lower always reports one, and so a script with a
  statement left out of its lowering never compiles.
- `ir`, `bytecode`: the program representation and the instruction set.
- `compiler`: `lower_to_bytecode`. Its contract states exactly which
  programs are refused and with which error, which functions are compiled
  and in which order (hoisted declarations first, the script last), that
  every prototype ends in
  `Return` and only makes closures of functions compiled before it, and that
  every jump, handler, `finally` exit and pending jump stays inside its
  function's code (unless a `continue` is bound to a `switch`, which the
  compiler accepts but never resolves).
- `emitted`: the exact code the compiler emits for literals, names,
  `this`, regular expressions, templates, object and array literals,
  unary, binary, logical, conditional and sequence expressions, member
  reads, calls, `new`, `await`, assignments to names and members, function
  expressions (a closure of the function just compiled), and empty,
  expression, declaration, block, `if`, `while`, `do`/`while` and
  `try`/`catch` statements built from them, and for whole scripts made of
  those;
  `compile_stmt`, `compile_expr` and `lower_to_bytecode` state it.
- `compile_faults`, `function_order`: the specification of compile errors,
  in compile order, and of the functions a program holds, in compile order.
- `bindings`, `scope`, `operators`: names a block or pattern binds, lexical
  scopes with the forbidden ambient globals, and the lowering of operators
  and property keys with their diagnostics.
- `accounting`, `limits`, `cancellation`, `host`: heap, allocation and
  instruction budgets, cancellation, and how host calls resume.
- `combinator`: the step a promise combinator (`all`, `allSettled`, `any`,
  `race`) takes when one of its inputs settles.
- `strings`, `regexp`: index normalisation, UTF-8 offsets (character and
  byte indices convert back and forth, and a test that a string's
  encoding fits in the address space), searching,
  splitting, replacing, regular-expression flags and replacement templates.
- `split_laws`: an unlimited split on a separator joins back into the
  string, with one piece more than there are occurrences and none holding
  the separator; a limit keeps a prefix of the unlimited split.
- `diagnostic`: errors and their rendering.
- `token_registry`: cancellation tokens a host creates, cancels, looks up
  and releases by name.
- `serial_format`: the format version serialized programs and snapshots
  carry, and the refusal of any other.
- `sidecar`: the decisions of the sidecar's line protocol — blank lines,
  protocol versions, and responses that echo each request's id.

`tests/` exercises the library on concrete programs and values.
