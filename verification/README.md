# eqsat_loop_fuzz

A fuzzer for LLVM's loop-fusion pass.  It takes random IR from
`llvm-stress`, adds a back-edge to turn a straight-line region into a loop,
runs loop fusion with `opt`, validates the result with `alive-tv`, and runs
both programs to compare their outputs.  An equality-saturation model of
loop terms (with `egg`) explores fused and unfused forms.

## Layout

- `src/` is the library, verified with Verus:
  - `text.rs`: the character-level model of strings (trimming, searching,
    line splitting, joining) and executable helpers proved against it;
  - `scan.rs`: recognisers for branch targets, terminators and labels;
  - `pred_map.rs`: the predecessor map of a control-flow graph;
  - `cfg.rs`: basic-block parsing (of the first function), back-edge
    insertion and comment stripping;
  - `block_ranges.rs`: the parsed blocks described by line ranges;
  - `reparse.rs`: what parsing the IR again finds after a back-edge was
    added;
  - `loop_ir.rs`: conversion of a normalised IR loop into a loop term;
  - `cost.rs`: node costs used when extracting loop terms;
  - `harness.rs`: the function name, the C harness and the output verdict
    of differential execution;
  - `alive.rs`: the verdict read from `alive-tv`'s output;
  - `campaign.rs`: the per-pair pipeline decisions and the campaign's
    book-keeping.
- `app/` is the command-line driver: it runs the external tools, writes
  files, and holds the `egg` language, rewrite rule and extractors.
- `tests/` exercises the library on concrete inputs.
