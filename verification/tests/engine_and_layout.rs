use symbolon::arena::{to_val, val_to_v, Arena};
use symbolon::engine::{engine_comp, engine_outer, engine_step, get_member};
use symbolon::floor_b::{build, N};
use symbolon::json::Json;
use symbolon::names::Names;
use symbolon::parser::P;
use symbolon::stage_e::Op;
use symbolon::stage_f::{emit_one, Tos};
use symbolon::stage_g::{WComp, Where};
use symbolon::value::{deep_eq, V};
use symbolon::wasm::{no_ifop, wasm_engine_module, wasm_module_d, IfopFinding};

fn parse(s: &str) -> Json {
    P::new(s).val()
}

fn chars(s: &str) -> Vec<char> {
    s.chars().collect()
}

#[test]
fn build_lays_children_out_before_their_parent() {
    let j = parse(r#"["add", ["lit", 2], ["var", "x"]]"#);
    let mut ns: Vec<N> = Vec::new();
    let mut nm = Names::new();
    let r = build(&j, &mut ns, &mut nm);
    assert_eq!(r, 2);
    assert_eq!(ns.len(), 3);
    assert!(matches!(ns[0], N::Lit(2)));
    assert!(matches!(ns[1], N::Var(0)));
    assert!(matches!(ns[2], N::Add(0, 1)));
    assert_eq!(nm.len(), 1);
    assert_eq!(nm.intern(&chars("x")), 0);
}

#[test]
fn to_val_makes_one_cell_per_pair() {
    let j = parse(r#"["⟨P⟩", 1, ["⟨P⟩", 2, ["⟨N⟩"]]]"#);
    let mut ar: Arena = Vec::new();
    let v = to_val(&j, &mut ar);
    assert_eq!(ar.len(), 2);
    let want = V::P(Box::new(V::I(1)), Box::new(V::P(Box::new(V::I(2)), Box::new(V::Nil))));
    assert!(deep_eq(&val_to_v(&ar, v), &want));
}

#[test]
fn stage_f_refusal_writes_nothing() {
    let mut b = vec![1u8, 2];
    let r = emit_one(&mut b, &[Op::NilV], 0, Tos(true), &[], &[0], &[0, 0], 0);
    assert_eq!(r, Err("段F は整数中核のみ(pair が要る)".to_string()));
    assert_eq!(b, vec![1, 2]);
}

#[test]
fn engine_outer_binds_state_to_memory_and_input_to_the_parameter() {
    let ids = parse(r#"{"total": 3, "wraps": 4, "ev": 5, "total": 9}"#);
    let state = vec![chars("total"), chars("wraps")];
    let outer = engine_outer(&ids, &state, &chars("ev")).unwrap();
    assert_eq!(outer, vec![(3, Where::Mem(0)), (4, Where::Mem(1)), (5, Where::Param(0))]);
    assert!(engine_outer(&ids, &state, &chars("missing")).is_none());
    assert!(get_member(&ids, &chars("total")) .map(|v| matches!(v, Json::Num(3))).unwrap());
}

#[test]
fn engine_step_lays_out_both_values_then_writes_back() {
    // next total = ev (a parameter), next wraps = total (memory slot 0, still the old state).
    let ids = parse(r#"{"total": 3, "wraps": 4, "ev": 5}"#);
    let state = vec![chars("total"), chars("wraps")];
    let outer = engine_outer(&ids, &state, &chars("ev")).unwrap();
    let next_total = parse(r#"["⟨P⟩", 3, 5]"#);
    let next_wraps = parse(r#"["⟨P⟩", 3, 3]"#);
    let mut wc: WComp = engine_comp(outer);
    assert_eq!(wc.nslots, 3);
    assert!(engine_step(&mut wc, &next_total, &next_wraps).is_ok());
    assert_eq!(
        wc.b,
        vec![
            0x20, 0x00, 0x21, 0x01, // ev, to local 1
            0x41, 0x00, 0x29, 0x03, 0x00, 0x21, 0x02, // old total from memory, to local 2
            0x41, 0x00, 0x20, 0x01, 0x37, 0x03, 0x00, // store local 1 at 0
            0x41, 0x08, 0x20, 0x02, 0x37, 0x03, 0x00, // store local 2 at 8
            0x20, 0x01, // the new total
        ]
    );
    let m = wasm_engine_module(&wc.b, wc.nslots - 1);
    assert!(matches!(no_ifop(&m), Ok(_)));
}

#[test]
fn no_ifop_reports_an_if() {
    let with_if = wasm_module_d(&[0x42, 0x01, 0xA7, 0x04, 0x40, 0x0B, 0x42, 0x00], 0, None, &[]);
    assert_eq!(no_ifop(&with_if), Err(IfopFinding::HasIf(1)));
}

#[test]
fn pages_follow_memory_use_and_the_pool() {
    let mut w = WComp::new();
    assert_eq!(w.pages(), None);
    w.pool.push(104);
    assert_eq!(w.pages(), Some(16));
}
