use symbolon::arena::{val_to_v, Arena, Val};
use symbolon::json::Json;
use symbolon::parser::P;
use symbolon::stage_e::{run_e, Bind, Comp, CompileError, Op};
use symbolon::stage_f::{can_fuse, emit_one, jit, mov_r_rax, mov_rax_r, next_tos, pin_map, rex, xor_rr, Tos};
use symbolon::stage_g::{kname, scan_owned, GenError, Kind, Site, WComp};
use symbolon::value::{deep_eq, V};
use symbolon::wasm::{b64, has_import, ifop_count, section, wasm_engine_module, wasm_module_d, ScanError};

fn parse(s: &str) -> Json {
    P::new(s).val()
}

// let x = 5 in x + 1, as an object program: (4, (7, ((0, 5), (1, ((3, 7), (0, 1))))))
const LET_ADD: &str = r#"["⟨P⟩", 4, ["⟨P⟩", 7, ["⟨P⟩", ["⟨P⟩", 0, 5], ["⟨P⟩", 1, ["⟨P⟩", ["⟨P⟩", 3, 7], ["⟨P⟩", 0, 1]]]]]]"#;

#[test]
fn stage_e_lays_out_a_binding() {
    let prog = parse(LET_ADD);
    let mut c = Comp::new();
    assert!(c.emit_val(&prog).is_ok());
    assert!(c.code == vec![Op::Lit(5), Op::Store(0), Op::Load(0), Op::Lit(1), Op::Add]);
    assert_eq!(c.nslots, 1);
    assert!(c.env.is_empty());
    let mut ar: Arena = Vec::new();
    let mut count = 0u64;
    let v = run_e(&c.code, c.nslots, &mut ar, &mut count);
    assert!(v == Val::I(6));
    assert_eq!(count, 5);
}

#[test]
fn stage_e_refuses_unbound_and_escaping_names() {
    let mut c = Comp::new();
    let prog = parse(r#"["⟨P⟩", 3, 9]"#);
    assert!(c.emit_val(&prog) == Err(CompileError::Unbound(9)));
    let mut c2 = Comp::new();
    assert!(c2.emit_val(&parse("5")) == Err(CompileError::NotNode));
    let mut c3 = Comp::new();
    assert!(c3.emit_val(&parse(r#"["⟨P⟩", 99, 0]"#)) == Err(CompileError::NoTag(99)));
    let mut c4 = Comp::new();
    assert!(c4.emit_val(&parse(r#"["⟨P⟩", 21, ["⟨P⟩", 0, 1]]"#)) == Err(CompileError::NewboxOutsideLet));
}

#[test]
fn stage_e_while_counts_rounds() {
    // let b = newbox(3) in while(getbox(b), setbox(b, getbox(b) - 1))
    let prog = parse(r#"["⟨P⟩", 4, ["⟨P⟩", 1, ["⟨P⟩", ["⟨P⟩", 21, ["⟨P⟩", 0, 3]],
        ["⟨P⟩", 33, ["⟨P⟩", ["⟨P⟩", 22, ["⟨P⟩", 3, 1]],
                     ["⟨P⟩", 23, ["⟨P⟩", ["⟨P⟩", 3, 1], ["⟨P⟩", 2, ["⟨P⟩", ["⟨P⟩", 22, ["⟨P⟩", 3, 1]], ["⟨P⟩", 0, 1]]]]]]]]]]"#);
    let mut c = Comp::new();
    assert!(c.emit_val(&prog).is_ok());
    let mut ar: Arena = Vec::new();
    let mut count = 0u64;
    let v = run_e(&c.code, c.nslots, &mut ar, &mut count);
    assert!(v == Val::I(3));
}

#[test]
fn stage_e_inlines_with_the_defining_bindings() {
    // let a = 5; let f = ofn(q, q + a); let a = 90; f(1)  gives 6
    let prog = parse(r#"["⟨P⟩", 4, ["⟨P⟩", 1, ["⟨P⟩", ["⟨P⟩", 0, 5],
        ["⟨P⟩", 4, ["⟨P⟩", 2, ["⟨P⟩", ["⟨P⟩", 16, ["⟨P⟩", 3, ["⟨P⟩", 1, ["⟨P⟩", ["⟨P⟩", 3, 3], ["⟨P⟩", 3, 1]]]]],
        ["⟨P⟩", 4, ["⟨P⟩", 1, ["⟨P⟩", ["⟨P⟩", 0, 90],
        ["⟨P⟩", 17, ["⟨P⟩", ["⟨P⟩", 3, 2], ["⟨P⟩", 0, 1]]]]]]]]]]]]"#);
    let mut c = Comp::new();
    assert!(c.emit_val(&prog).is_ok());
    let mut ar: Arena = Vec::new();
    let mut count = 0u64;
    let v = run_e(&c.code, c.nslots, &mut ar, &mut count);
    assert!(v == Val::I(6));
    assert!(c.look(1).is_none());
    assert_eq!(c.depth, 0);
}

#[test]
fn stage_e_pairs_live_in_the_arena() {
    // car(cons(300, cons(2, nil)))
    let prog = parse(r#"["⟨P⟩", 9, ["⟨P⟩", 8, ["⟨P⟩", ["⟨P⟩", 0, 300], ["⟨P⟩", 8, ["⟨P⟩", ["⟨P⟩", 0, 2], ["⟨P⟩", 7, 0]]]]]]"#);
    let mut c = Comp::new();
    assert!(c.emit_val(&prog).is_ok());
    let mut ar: Arena = Vec::new();
    let mut count = 0u64;
    let v = run_e(&c.code, c.nslots, &mut ar, &mut count);
    assert!(deep_eq(&val_to_v(&ar, v), &V::I(300)));
    assert_eq!(ar.len(), 2);
}

#[test]
fn stage_f_encodes_moves() {
    assert_eq!(rex(false, 2), 0x48);
    assert_eq!(rex(true, 9), 0x4C);
    assert_eq!(rex(false, 9), 0x49);
    let mut b = Vec::new();
    mov_r_rax(2, &mut b);
    mov_rax_r(10, &mut b);
    xor_rr(8, &mut b);
    assert_eq!(b, vec![0x48, 0x89, 0xC2, 0x4C, 0x89, 0xD0, 0x4D, 0x31, 0xC0]);
    assert!(next_tos(&Op::Add).0);
    assert!(!next_tos(&Op::Store(0)).0);
}

#[test]
fn stage_f_pins_the_most_used_slots() {
    let code = vec![Op::Load(3), Op::Load(1), Op::Store(1), Op::Load(1), Op::Load(3), Op::Store(5), Op::Load(3)];
    let pins = pin_map(&code);
    assert_eq!(pins, vec![(1, 2), (3, 6), (5, 8)]);
    let many: Vec<Op> = (0..8).map(|s| Op::Load(s)).collect();
    let pins8 = pin_map(&many);
    assert_eq!(pins8, vec![(0, 2), (1, 6), (2, 8), (3, 9), (4, 10), (5, 11)]);
}

#[test]
fn stage_f_fuses_load_and_literal() {
    let code = vec![Op::Load(0), Op::Lit(1), Op::Add, Op::Load(0), Op::Lit(1i64 << 40), Op::Sub];
    let marks = vec![false; 7];
    assert!(can_fuse(&code, 0, &marks));
    assert!(!can_fuse(&code, 3, &marks));
    assert!(!can_fuse(&code, 4, &marks));
    let mut with_target = marks.clone();
    with_target[1] = true;
    assert!(!can_fuse(&code, 0, &with_target));
}

#[test]
fn stage_f_lays_out_machine_code() {
    let code = vec![Op::Lit(5), Op::Store(0), Op::Load(0), Op::Lit(1), Op::Add];
    let bytes = jit(&code).unwrap();
    assert_eq!(
        bytes,
        vec![0x48, 0x31, 0xD2, 0x48, 0xC7, 0xC0, 0x05, 0x00, 0x00, 0x00, 0x48, 0x89, 0xC2, 0x48, 0x89, 0xD0, 0x48, 0x05,
             0x01, 0x00, 0x00, 0x00, 0xC3]
    );
    assert!(jit(&[Op::NilV]).is_err());
}

#[test]
fn stage_f_jumps_are_relative_to_the_end() {
    // A backward jump to position 0 from the end of a five-byte `jmp rel32` at 0.
    let mut b = Vec::new();
    let label = vec![0usize, 5];
    assert!(emit_one(&mut b, &[Op::Jmp(0)], 0, Tos(false), &[], &[0], &label, 0).is_ok());
    assert_eq!(b, vec![0xE9, 0xFB, 0xFF, 0xFF, 0xFF]);
}

#[test]
fn stage_g_lays_out_a_binding() {
    let prog = parse(LET_ADD);
    let mut w = WComp::new();
    assert!(w.emit_val(&prog) == Ok(Kind::Int));
    w.finish();
    assert_eq!(w.b, vec![0x42, 0x05, 0x21, 0x00, 0x20, 0x00, 0x42, 0x01, 0x7C]);
    assert_eq!(w.nslots, 1);
    assert!(!w.mem);
    let m = wasm_module_d(&w.b, w.nslots, None, &w.pool);
    assert_eq!(m.len(), 54);
    assert_eq!(&m[0..8], &[0x00, 0x61, 0x73, 0x6D, 0x01, 0x00, 0x00, 0x00]);
    assert!(!has_import(&m));
    assert!(ifop_count(&m) == Ok((0, 6)));
}

#[test]
fn stage_g_checks_shapes() {
    // add(nil, 1) is refused: add needs integers.
    let prog = parse(r#"["⟨P⟩", 1, ["⟨P⟩", ["⟨P⟩", 7, 0], ["⟨P⟩", 0, 1]]]"#);
    let mut w = WComp::new();
    assert!(w.emit_val(&prog) == Err(GenError::Shape(Kind::Int, Kind::List, Site::AddSub)));
    assert_eq!(kname(Kind::Str), "str");
}

#[test]
fn stage_g_packs_static_strings() {
    // cons(104, cons(105, nil)): "hi" goes to the pool.
    let prog = parse(r#"["⟨P⟩", 8, ["⟨P⟩", ["⟨P⟩", 0, 104], ["⟨P⟩", 8, ["⟨P⟩", ["⟨P⟩", 0, 105], ["⟨P⟩", 7, 0]]]]]"#);
    let mut w = WComp::new();
    assert!(w.emit_val(&prog) == Ok(Kind::Str));
    assert_eq!(w.pool, vec![104, 105]);
    assert_eq!(WComp::as_static_str(&prog), Some(vec![104, 105]));
    assert_eq!(w.intern(&[104, 105]), (16i64 << 32) | 2);
    assert_eq!(w.pool, vec![104, 105]);
}

#[test]
fn stage_g_cells_go_on_the_heap() {
    // car(cons(300, cons(2, nil))): 300 is no byte, so cells are used.
    let prog = parse(r#"["⟨P⟩", 9, ["⟨P⟩", 8, ["⟨P⟩", ["⟨P⟩", 0, 300], ["⟨P⟩", 8, ["⟨P⟩", ["⟨P⟩", 0, 2], ["⟨P⟩", 7, 0]]]]]]"#);
    let mut w = WComp::new();
    assert!(w.emit_val(&prog) == Ok(Kind::Int));
    assert!(w.mem);
    assert!(w.heap.is_some());
    w.finish();
    assert_eq!(w.b[0], 0x42);
    let m = wasm_module_d(&w.b, w.nslots, Some(16), &w.pool);
    assert!(!has_import(&m));
    assert!(matches!(ifop_count(&m), Ok((0, _))));
}

#[test]
fn ownership_walk() {
    // getbox(x) under car is only looked into; as a bare value it is a copy.
    let peek = parse(r#"["⟨P⟩", 9, ["⟨P⟩", 22, ["⟨P⟩", 3, 1]]]"#);
    assert!(scan_owned(&peek, 1, 0));
    let bare = parse(r#"["⟨P⟩", 22, ["⟨P⟩", 3, 1]]"#);
    assert!(!scan_owned(&bare, 1, 0));
    assert!(scan_owned(&bare, 2, 0));
    assert!(!scan_owned(&parse(r#"["⟨P⟩", 99, 0]"#), 1, 0));
}

#[test]
fn module_scans() {
    let mut m = vec![0x00, 0x61, 0x73, 0x6D, 0x01, 0x00, 0x00, 0x00];
    section(2, vec![0x00], &mut m);
    assert!(has_import(&m));
    let e = wasm_engine_module(&[0x42, 0x00], 3);
    assert!(!has_import(&e));
    assert!(ifop_count(&e) == Ok((0, 2)));
    let mut bad = e.clone();
    bad.truncate(bad.len() - 3);
    assert!(ifop_count(&bad) == Err(ScanError::SectionOut));
}

#[test]
fn module_scan_finds_if_and_unknown_ops() {
    let with_if = wasm_module_d(&[0x42, 0x01, 0xA7, 0x04, 0x40, 0x0B, 0x42, 0x00], 0, None, &[]);
    assert!(ifop_count(&with_if) == Ok((1, 6)));
    let unknown = wasm_module_d(&[0xFE], 0, None, &[]);
    assert!(ifop_count(&unknown) == Err(ScanError::UnknownOp(0xFE)));
}

#[test]
fn base64_pads() {
    assert_eq!(b64(b"Man"), "TWFu");
    assert_eq!(b64(b"Ma"), "TWE=");
    assert_eq!(b64(b"M"), "TQ==");
    assert_eq!(b64(&[]), "");
    assert_eq!(b64(&[0x00, 0x61, 0x73, 0x6D]), "AGFzbQ==");
    assert_eq!(b64(&[0xFF, 0xEF]).len(), 4);
}

#[test]
fn bind_variants_are_distinct() {
    assert!(Bind::Slot(1) != Bind::Boxed(1));
}

#[test]
fn stage_g_refuses_prepending_a_non_byte_to_a_packed_string() {
    // cons(300, "hi"): "hi" is packed one byte per element, 300 does not fit a byte.
    let prog = parse(
        r#"["⟨P⟩", 8, ["⟨P⟩", ["⟨P⟩", 0, 300], ["⟨P⟩", 8, ["⟨P⟩", ["⟨P⟩", 0, 104], ["⟨P⟩", 8, ["⟨P⟩", ["⟨P⟩", 0, 105], ["⟨P⟩", 7, 0]]]]]]]"#,
    );
    let mut w = WComp::new();
    assert!(w.emit_val(&prog) == Err(GenError::PrependNotByte));
}

#[test]
fn built_modules_with_memory_and_pool_import_nothing() {
    let m = wasm_module_d(&[0x42, 0x00], 2, Some(16), &[104, 105]);
    assert!(!has_import(&m));
    assert!(ifop_count(&m) == Ok((0, 2)));
}

#[test]
fn stage_f_jumps_land_on_their_labels() {
    // if slot 0 { 1 }; 2 — the forward jump lands after the spill in front of its target.
    let code = vec![Op::Load(0), Op::Jz(3), Op::Lit(1), Op::Lit(2)];
    let bytes = jit(&code).unwrap();
    assert_eq!(
        bytes,
        vec![0x48, 0x31, 0xD2, 0x48, 0x89, 0xD0, 0x48, 0x85, 0xC0, 0x0F, 0x84, 0x08, 0x00, 0x00, 0x00, 0x48, 0xC7, 0xC0,
             0x01, 0x00, 0x00, 0x00, 0x50, 0x48, 0xC7, 0xC0, 0x02, 0x00, 0x00, 0x00, 0xC3]
    );
}

#[test]
fn a_short_operand_list_still_reports_the_first_operand() {
    // add whose operand list holds only its first operand, an unbound variable: the first
    // operand is laid out first, and its refusal is what comes back.
    let prog = parse(r#"["⟨P⟩", 1, ["⟨P⟩", ["⟨P⟩", 3, 99]]]"#);
    let mut c = Comp::new();
    assert!(c.emit_val(&prog) == Err(CompileError::Unbound(99)));
    let mut w = WComp::new();
    assert!(w.emit_val(&prog) == Err(GenError::Unbound(99)));
}
