# pycc

A compiler for Pin1Yin1 source files (keywords written in pinyin), verified with Verus.

The library under `src/` holds the compiler's logic, each function with a contract proved
by Verus:

- `lex`: splitting a source into tokens (maximal runs of non-white-space characters);
- `parse`: the parser, from tokens to items; each parser states which tokens the unit it
  returns stands on, and expressions are put in postfix order; a float is written as
  `f64::from_str` reads it, or with `f` for its point (`2f0` is `2.0`);
- `semantic`, `declare`, `mangle`: checking functions, naming them, and deciding the type
  of every value among its possible types;
- `ir`: the intermediate representation;
- `codegen_c`: the C backend, whose output text is stated exactly;
- `codegen_llvm`: the choices the LLVM backend makes (types, instructions, constants, and
  the steps and blocks that lower each statement);
- `compile`: the front end, from a source to the IR.

`app/` is the command-line program: it reads files, prints errors, writes the IR as JSON,
and builds LLVM modules with inkwell following `codegen_llvm`.
