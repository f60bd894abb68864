use symbolon::arena::{val_to_v, Arena};
use symbolon::floor_a::{host_a, run_a};
use symbolon::floor_b::{build, host_b, run_b, N};
use symbolon::floor_c::{host_cd, run_c};
use symbolon::floor_d::{count_d, emit_stmt, exec_d, fold_runs, run_d, Ins};
use symbolon::json::Json;
use symbolon::names::Names;
use symbolon::parser::P;
use symbolon::value::{deep_eq, V};

const MACHINE: &str = r#"["seq", [["set", "vs", ["add", ["var", "vs"], ["var", "i"]]],
                                   ["set", "i", ["sub", ["var", "i"], ["lit", 1]]],
                                   ["respawn", "i"]]]"#;
const HOST: &str = r#"{"vs": 0, "i": 5}"#;

fn parse(s: &str) -> Json {
    P::new(s).val()
}

fn chars(s: &str) -> Vec<char> {
    s.chars().collect()
}

#[test]
fn floor_a_sums_the_countdown() {
    let m = parse(MACHINE);
    let h = parse(HOST);
    let r = run_a(&m, host_a(&h), 100);
    assert!(deep_eq(&r, &V::I(15)));
}

#[test]
fn floor_b_agrees_with_floor_a() {
    let m = parse(MACHINE);
    let h = parse(HOST);
    let mut ns: Vec<N> = Vec::new();
    let mut nm = Names::new();
    let root = build(&m, &mut ns, &mut nm);
    let vs = nm.intern(&chars("vs"));
    let regs = host_b(&h, &mut nm);
    let r = run_b(&ns, root, regs, 100, vs);
    assert!(deep_eq(&r, &V::I(15)));
    assert!(deep_eq(&r, &run_a(&m, host_a(&h), 100)));
}

#[test]
fn floor_c_agrees_with_floor_b() {
    let m = parse(MACHINE);
    let h = parse(HOST);
    let mut ns: Vec<N> = Vec::new();
    let mut nm = Names::new();
    let root = build(&m, &mut ns, &mut nm);
    let vs = nm.intern(&chars("vs"));
    let mut ar: Arena = Vec::new();
    let regs = host_cd(&h, &mut nm, &mut ar);
    let v = run_c(&ns, root, regs, &mut ar, 100, vs);
    assert!(deep_eq(&val_to_v(&ar, v), &V::I(15)));
}

#[test]
fn floor_d_agrees_and_counts() {
    let m = parse(MACHINE);
    let h = parse(HOST);
    let mut ns: Vec<N> = Vec::new();
    let mut nm = Names::new();
    let root = build(&m, &mut ns, &mut nm);
    let vs = nm.intern(&chars("vs"));
    let mut code: Vec<Ins> = Vec::new();
    emit_stmt(&ns, root, &mut code);
    assert_eq!(code.len(), 9);
    let mut ar: Arena = Vec::new();
    let regs = host_cd(&h, &mut nm, &mut ar);
    let v = run_d(&code, regs, &mut ar, 100, vs);
    assert!(deep_eq(&val_to_v(&ar, v), &V::I(15)));
    let mut ar2: Arena = Vec::new();
    let regs2 = host_cd(&h, &mut nm, &mut ar2);
    assert_eq!(count_d(&code, regs2, &mut ar2, 100), (45, 5));
}

#[test]
fn fuel_caps_the_rounds() {
    let m = parse(MACHINE);
    let h = parse(HOST);
    let mut ns: Vec<N> = Vec::new();
    let mut nm = Names::new();
    let root = build(&m, &mut ns, &mut nm);
    let vs = nm.intern(&chars("vs"));
    let mut code: Vec<Ins> = Vec::new();
    emit_stmt(&ns, root, &mut code);
    // With two units of fuel only three rounds run: 5 + 4 + 3.
    assert!(deep_eq(&run_a(&m, host_a(&h), 2), &V::I(12)));
    let mut ar: Arena = Vec::new();
    let regs = host_cd(&h, &mut nm, &mut ar);
    let (v, ins, rounds) = exec_d::<true>(&code, regs, &mut ar, 2, vs);
    assert!(deep_eq(&val_to_v(&ar, v.unwrap()), &V::I(12)));
    assert_eq!((ins, rounds), (27, 3));
}

#[test]
fn folding_keeps_every_index() {
    let mut code = vec![Ins::Load(0), Ins::Lit(3), Ins::Eq, Ins::JmpF(5), Ins::Lit(1), Ins::Store(1)];
    let n = fold_runs(&mut code);
    assert_eq!(n, 1);
    assert_eq!(code.len(), 6);
    assert!(code[0] == Ins::EqKJmpF(0, 3, 5));
    assert!(code[1] == Ins::Nop && code[2] == Ins::Nop && code[3] == Ins::Nop);
    assert!(code[4] == Ins::Lit(1) && code[5] == Ins::Store(1));
}

#[test]
fn folding_skips_runs_entered_by_a_jump() {
    // The jump lands on the `Lit`, inside the run: nothing folds.
    let mut code = vec![Ins::Jmp(2), Ins::Load(0), Ins::Lit(3), Ins::Eq, Ins::Drop];
    let n = fold_runs(&mut code);
    assert_eq!(n, 0);
    assert!(code[1] == Ins::Load(0) && code[2] == Ins::Lit(3) && code[3] == Ins::Eq);
}

#[test]
fn folding_without_a_branch_gives_eqk() {
    let mut code = vec![Ins::Load(2), Ins::Lit(7), Ins::Eq, Ins::Drop];
    assert_eq!(fold_runs(&mut code), 1);
    assert!(code[0] == Ins::EqK(2, 7) && code[1] == Ins::Nop && code[2] == Ins::Nop && code[3] == Ins::Drop);
}

#[test]
fn folded_code_gives_the_same_answer() {
    // if (i == 0) vs = 1 else vs = 2, with i = 0 and then i = 3.
    let machine = r#"["if", ["eq", ["var", "i"], ["lit", 0]], ["set", "vs", ["lit", 1]], ["set", "vs", ["lit", 2]]]"#;
    for (host, want) in [(r#"{"vs": 0, "i": 0}"#, 1), (r#"{"vs": 0, "i": 3}"#, 2)] {
        let m = parse(machine);
        let h = parse(host);
        let mut ns: Vec<N> = Vec::new();
        let mut nm = Names::new();
        let root = build(&m, &mut ns, &mut nm);
        let vs = nm.intern(&chars("vs"));
        let mut code: Vec<Ins> = Vec::new();
        emit_stmt(&ns, root, &mut code);
        let mut folded = code.clone();
        assert_eq!(fold_runs(&mut folded), 1);
        assert_eq!(folded.len(), code.len());
        for c in [&code, &folded] {
            let mut ar: Arena = Vec::new();
            let regs = host_cd(&h, &mut nm, &mut ar);
            let v = run_d(c, regs, &mut ar, 10, vs);
            assert!(deep_eq(&val_to_v(&ar, v), &V::I(want)));
        }
    }
}

#[test]
fn pairs_flow_through_the_floors() {
    let machine = r#"["seq", [["set", "p", ["cons", ["lit", 4], ["nil"]]],
                              ["set", "vs", ["add", ["car", ["var", "p"]], ["pair", ["cdr", ["var", "p"]]]]]]]"#;
    let m = parse(machine);
    let h = parse(r#"{"vs": 0}"#);
    assert!(deep_eq(&run_a(&m, host_a(&h), 0), &V::I(4)));
    let mut ns: Vec<N> = Vec::new();
    let mut nm = Names::new();
    let root = build(&m, &mut ns, &mut nm);
    let vs = nm.intern(&chars("vs"));
    let mut code: Vec<Ins> = Vec::new();
    emit_stmt(&ns, root, &mut code);
    let mut ar: Arena = Vec::new();
    let regs = host_cd(&h, &mut nm, &mut ar);
    let v = run_d(&code, regs, &mut ar, 0, vs);
    assert!(deep_eq(&val_to_v(&ar, v), &V::I(4)));
    assert_eq!(ar.len(), 1);
}
