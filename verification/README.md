# symbolon

A ladder of interpreters for one small machine language (fourteen operations over integers,
the empty list and pairs), and the back-ends that fold the interpreter away against one object
program. Everything under `src/` is verified with Verus.

## Layout

| module | what it holds |
|---|---|
| `json`, `parser`, `chars`, `words` | the JSON documents the machine and its programs arrive in, and their parser |
| `value`, `text` | values of the machine language, their truth, equality and printing |
| `regs`, `floor_a` | floor A: the machine walked as JSON, registers by name |
| `names`, `floor_b` | floor B: the machine folded into indexed nodes, registers by slot |
| `arena`, `floor_c` | floor C: copyable values, pairs in an arena |
| `floor_d` | floor D: linear code over an operand stack, run in rounds; folding of `Load Lit Eq (JmpF)` runs |
| `agree_ab`, `agree_bd`, `folding` | the floors agree: A with B, B with D, and D with its folded code |
| `ntag`, `stage_e`, `landing` | stage E: the specialiser, an object program laid out as straight code over slots; its jumps land inside that code |
| `stage_f`, `jit_total` | stage F: that code as x86-64 machine code, slots pinned to registers; it lays out all the specialiser gives it |
| `stage_g`, `gen` | stage G: an object program as a wasm function, pairs on a bump heap, strings packed |
| `engine` | stage H: the step body of an engine whose state lives in linear memory |
| `leb`, `wasm`, `self_contained` | wasm modules: LEB128, sections, the scanners, base64; built modules import nothing |

`app/` is the program around the library: it reads `machine.json`, `cases.json`,
`bench_host.json`, probe files and `engine_prog.json`, times the floors, runs stage F's code in an
executable page, and writes the wasm modules and pages.

## The laws

Each stands in `src/` as a proof function or as a clause of the function it is about:

- floors A and B agree on every run of a machine whose register operands are written as
  strings, with distinct register names (`agree_ab::law_floors_a_b_agree`; on a machine like
  `["var", 5]` the two floors name different registers); floor C computes what
  floor B does (`floor_c::run_c`); floor D runs the laid-out code to floor B's answer
  (`agree_bd::law_floors_b_d_agree`);
- folding keeps every run's outcome and never makes it run more instructions (`folding::law_fold_keeps_run`),
  so the folded code still agrees (`folding::law_folded_floor_d_agrees`,
  `folding::law_floors_a_d_agree`);
- a run of floor D begins no more rounds after the first than it has fuel
  (`folding::law_rounds_within_fuel`);
- the specialiser's jumps land inside the code it lays out
  (`landing::law_stage_e_jumps_land_inside`);
- stage F lays out every code whose jumps stay inside it, so all that the specialiser gives
  (`jit_total::law_jit_lays_out`, `jit_total::law_stage_f_takes_stage_e`);
- the pinning of slots to registers is determined (`stage_f::law_pins_unique`), and the two
  layout passes of stage F agree on every label (`stage_f::law_jit_labels_settle`);
- the modules built for stages G and H import nothing
  (`self_contained::law_module_d_imports_nothing`, `law_engine_module_imports_nothing`), and an
  unsigned LEB128 number reads back as written (`self_contained::lemma_read_uleb_enc`);
- base64 gives four characters per three bytes, rounded up (`wasm::law_b64_length`).
