use evml::assemble::{assemble, check_assemblable};
use evml::isa::Instr;
use evml::lower::lower_cost;
use evml::resolve::resolve_cost;
use evml::{parse, resolve, Id, IdGen, U256};

#[test]
fn assemble_resolves_labels_to_offsets() {
    let code = vec![
        Instr::PushLabel(Id(7)),
        Instr::Jump,
        Instr::Push(U256::from_u64(0x1234)),
        Instr::JumpDest(Id(7)),
        Instr::Stop,
    ];
    assert!(check_assemblable(&code));
    // PUSH2 0x0007, JUMP, PUSH2 0x1234, JUMPDEST, STOP
    assert_eq!(assemble(&code), vec![0x61, 0x00, 0x07, 0x56, 0x61, 0x12, 0x34, 0x5b, 0x00]);
}

#[test]
fn assemble_pushes_zero_with_push0() {
    let code = vec![Instr::Push(U256::from_u64(0)), Instr::Dup(0), Instr::Swap(1), Instr::Pop];
    assert!(check_assemblable(&code));
    assert_eq!(assemble(&code), vec![0x5f, 0x80, 0x90, 0x50]);
}

#[test]
fn check_assemblable_refuses_bad_code() {
    assert!(!check_assemblable(&[Instr::JumpDest(Id(1)), Instr::JumpDest(Id(1))]));
    assert!(!check_assemblable(&[Instr::PushLabel(Id(2)), Instr::Jump]));
    assert!(!check_assemblable(&[Instr::Swap(0)]));
    assert!(!check_assemblable(&[Instr::Swap(17)]));
    assert!(!check_assemblable(&[Instr::Dup(16)]));
    assert!(check_assemblable(&[Instr::Swap(16), Instr::Dup(15)]));
    let too_big = vec![Instr::Pop; 24577];
    assert!(!check_assemblable(&too_big));
    let just_fits = vec![Instr::Pop; 24576];
    assert!(check_assemblable(&just_fits));
}

#[test]
fn identifier_counts_bound_what_resolving_and_lowering_hand_out() {
    let p = parse("fn main() -> u256 { let x = @add(1, 2); if x { x } else { 0 } }").unwrap();
    let cost = resolve_cost(&p).unwrap();
    let mut ids = IdGen::new();
    let start = ids.0;
    let q = resolve(&p, &mut ids).unwrap();
    assert!(ids.0 - start <= cost);
    let lcost = lower_cost(&q).unwrap();
    let before = ids.0;
    let _ = evml::lower(q, &mut ids);
    assert!(ids.0 - before <= lcost);
    assert!(lcost > 0);
}
