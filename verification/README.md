# babble

Library learning on e-graphs: which expressions recur in a program, which of
them are worth an instruction of their own, and what the program looks like
when it uses them. Every decision on the way is verified with Verus.

- `src/` is the library. Each function states in its contract what it returns;
  the functions whose names start with `law_` state what holds of several of
  them together.
  - `ast_node`, `rec_expr`, `sexp`: nodes, expressions, partial expressions,
    searching an e-graph for them, and printing.
  - `teachable`, `simple_lang`: what a language needs, and a small language.
  - `rewrites`: reading rewrite rules and their conditions.
  - `extract`: selections of library functions, the analysis of e-graphs, and
    extraction.
  - `schedule`, `bb_query`, `perf_infer`: latencies, areas and basic blocks.
  - `au_filter`: whether the inputs of an instruction can be encoded.
  - `expand`, `learn`, `runner`: a run of library learning, step by step.
  - `number`, `text*`, `id_map`, `assoc`, `sorting`, `marks`, `symbol`: what the
    others are built on.
- `app/` runs the library on the e-graphs of `egg`, in floating point, and
  reads files.
- `tests/` calls the library from outside.

What is taken on trust is marked `external_body` or `assume_specification`,
with a comment on the function that is called.
