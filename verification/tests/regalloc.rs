use toycc::error::CompileError;
use toycc::gen_ir::{Ir, Op};
use toycc::regalloc::RegAlloc;

fn ir(op: Op, lhs: isize, rhs: isize) -> Ir {
    Ir::new(op, lhs, rhs)
}

fn def(name: &str) -> Ir {
    Ir::new(Op::DefFun(name.to_string()), -1, -1)
}

#[test]
fn main_returning_42_keeps_the_first_slot() {
    let code = vec![vec![
        def("main"),
        ir(Op::Imm, 0, 42),
        ir(Op::Return, 0, 0),
        ir(Op::Kill, 0, -1),
    ]];
    assert_eq!(
        RegAlloc::new().run(code).unwrap(),
        vec![vec![
            def("main"),
            ir(Op::Imm, 0, 42),
            ir(Op::Return, 0, 0),
            ir(Op::Nop, 0, -1),
        ]]
    );
}

#[test]
fn first_fit_takes_the_lowest_free_slot() {
    let mut ra = RegAlloc::new();
    assert_eq!(ra.allocate(10), Ok(0));
    assert_eq!(ra.allocate(20), Ok(1));
    assert_eq!(ra.allocate(30), Ok(2));
    assert_eq!(ra.allocate(20), Ok(1));
    ra.kill(10);
    assert_eq!(ra.allocate(40), Ok(0));
    assert_eq!(ra.allocate(10), Ok(3));
    ra.kill(20);
    ra.kill(30);
    assert_eq!(ra.allocate(50), Ok(1));
    assert_eq!(ra.allocate(60), Ok(2));
    assert_eq!(ra.allocate(70), Ok(4));
}

#[test]
fn kill_frees_the_slot_of_the_register_not_the_slot_of_its_number() {
    let mut ra = RegAlloc::new();
    assert_eq!(ra.allocate(1), Ok(0));
    assert_eq!(ra.allocate(0), Ok(1));
    ra.kill(1);
    assert_eq!(ra.allocate(0), Ok(1));
    assert_eq!(ra.allocate(2), Ok(0));
}

#[test]
fn kill_of_a_register_without_a_slot_changes_nothing() {
    let mut ra = RegAlloc::new();
    assert_eq!(ra.allocate(0), Ok(0));
    ra.kill(5);
    ra.kill(-1);
    assert_eq!(ra.allocate(1), Ok(1));
    assert_eq!(ra.allocate(0), Ok(0));
}

#[test]
fn the_eighth_live_register_exhausts_the_pool() {
    let mut ra = RegAlloc::new();
    for v in 0..7 {
        assert_eq!(ra.allocate(v), Ok(v));
    }
    assert_eq!(
        ra.allocate(7),
        Err(CompileError::PhysicalRegistersExhausted)
    );
    for v in 0..7 {
        assert_eq!(ra.allocate(v), Ok(v));
    }
    ra.kill(3);
    assert_eq!(ra.allocate(7), Ok(3));
    assert_eq!(
        ra.allocate(3),
        Err(CompileError::PhysicalRegistersExhausted)
    );
}

#[test]
fn eight_live_values_fail_the_function() {
    let mut code = vec![def("main")];
    for v in 0..8 {
        code.push(ir(Op::Imm, v, 1));
    }
    assert_eq!(
        RegAlloc::new().run(vec![code]),
        Err(CompileError::PhysicalRegistersExhausted)
    );
}

#[test]
fn a_register_index_out_of_range_exhausts_the_register_space() {
    let mut ra = RegAlloc::new();
    assert_eq!(ra.allocate(-1), Err(CompileError::RegisterSpaceExhausted));
    assert_eq!(ra.allocate(8192), Err(CompileError::RegisterSpaceExhausted));
    assert_eq!(
        ra.allocate(isize::MAX),
        Err(CompileError::RegisterSpaceExhausted)
    );
    assert_eq!(ra.allocate(8191), Ok(0));
    assert_eq!(
        RegAlloc::new().run(vec![vec![ir(Op::Imm, 8192, 0)]]),
        Err(CompileError::RegisterSpaceExhausted)
    );
    assert_eq!(
        RegAlloc::new().run(vec![vec![ir(Op::Add, 0, -1)]]),
        Err(CompileError::RegisterSpaceExhausted)
    );
}

#[test]
fn every_register_field_is_rewritten() {
    let mut ra = RegAlloc::new();
    assert_eq!(ra.reg_alloc(ir(Op::Imm, 5, 99)), Ok(ir(Op::Imm, 0, 99)));
    assert_eq!(ra.reg_alloc(ir(Op::Load, 6, -1)), Ok(ir(Op::Load, 1, -1)));
    assert_eq!(ra.reg_alloc(ir(Op::Mov, 7, 5)), Ok(ir(Op::Mov, 2, 0)));
    assert_eq!(ra.reg_alloc(ir(Op::Add, 5, 6)), Ok(ir(Op::Add, 0, 1)));
    assert_eq!(ra.reg_alloc(ir(Op::Sub, 6, 8)), Ok(ir(Op::Sub, 1, 3)));
    assert_eq!(ra.reg_alloc(ir(Op::Mul, 8, 7)), Ok(ir(Op::Mul, 3, 2)));
    assert_eq!(ra.reg_alloc(ir(Op::Div, 9, 9)), Ok(ir(Op::Div, 4, 4)));
    assert_eq!(ra.reg_alloc(ir(Op::Return, 9, 0)), Ok(ir(Op::Return, 4, 0)));
    assert_eq!(ra.reg_alloc(ir(Op::StoreArg, 6, -1)), Ok(ir(Op::StoreArg, 1, -1)));
    assert_eq!(ra.reg_alloc(ir(Op::Kill, 6, -1)), Ok(ir(Op::Nop, 6, -1)));
    assert_eq!(ra.reg_alloc(ir(Op::Nop, 77, 78)), Ok(ir(Op::Nop, 77, 78)));
    assert_eq!(ra.reg_alloc(def("f")), Ok(def("f")));
    assert_eq!(ra.reg_alloc(ir(Op::Imm, 10, 0)), Ok(ir(Op::Imm, 1, 0)));
}

#[test]
fn a_call_allocates_its_arguments_before_its_result() {
    let mut ra = RegAlloc::new();
    assert_eq!(
        ra.reg_alloc(ir(Op::Call("f".to_string(), vec![1, 2, 1]), 0, -1)),
        Ok(ir(Op::Call("f".to_string(), vec![0, 1, 0]), 2, -1))
    );
    assert_eq!(
        ra.reg_alloc(ir(Op::Call("g".to_string(), vec![]), 2, -1)),
        Ok(ir(Op::Call("g".to_string(), vec![]), 1, -1))
    );
}

#[test]
fn a_call_with_seven_arguments_has_no_slot_for_its_result() {
    let code = vec![vec![ir(
        Op::Call("f".to_string(), vec![1, 2, 3, 4, 5, 6, 7]),
        0,
        -1,
    )]];
    assert_eq!(
        RegAlloc::new().run(code),
        Err(CompileError::PhysicalRegistersExhausted)
    );
}

#[test]
fn kills_become_nops_in_place() {
    let code = vec![
        def("main"),
        ir(Op::Imm, 0, 2),
        ir(Op::Imm, 1, 3),
        ir(Op::Mul, 0, 1),
        ir(Op::Kill, 1, -1),
        ir(Op::Imm, 2, 4),
        ir(Op::Add, 0, 2),
        ir(Op::Kill, 2, -1),
        ir(Op::Return, 0, 0),
        ir(Op::Kill, 0, -1),
    ];
    let n = code.len();
    let out = RegAlloc::new().run_function(code).unwrap();
    assert_eq!(out.len(), n);
    assert_eq!(
        out,
        vec![
            def("main"),
            ir(Op::Imm, 0, 2),
            ir(Op::Imm, 1, 3),
            ir(Op::Mul, 0, 1),
            ir(Op::Nop, 1, -1),
            ir(Op::Imm, 1, 4),
            ir(Op::Add, 0, 1),
            ir(Op::Nop, 2, -1),
            ir(Op::Return, 0, 0),
            ir(Op::Nop, 0, -1),
        ]
    );
}

#[test]
fn two_parameters_get_two_slots() {
    let code = vec![vec![
        def("f"),
        ir(Op::StoreArg, 0, -1),
        ir(Op::StoreArg, 1, -1),
        ir(Op::Load, 0, -1),
        ir(Op::Return, 0, 0),
        ir(Op::Kill, 0, -1),
    ]];
    assert_eq!(
        RegAlloc::new().run(code).unwrap(),
        vec![vec![
            def("f"),
            ir(Op::StoreArg, 0, -1),
            ir(Op::StoreArg, 1, -1),
            ir(Op::Load, 0, -1),
            ir(Op::Return, 0, 0),
            ir(Op::Nop, 0, -1),
        ]]
    );
}

#[test]
fn each_function_starts_with_every_slot_free() {
    let function = || {
        vec![
            ir(Op::Imm, 0, 1),
            ir(Op::Imm, 1, 1),
            ir(Op::Imm, 2, 1),
            ir(Op::Imm, 3, 1),
        ]
    };
    let out = RegAlloc::new().run(vec![function(), function()]).unwrap();
    assert_eq!(out, vec![function(), function()]);
}

#[test]
fn running_again_gives_the_same_allocation() {
    let code = || {
        vec![vec![
            ir(Op::Imm, 4, 1),
            ir(Op::Imm, 2, 1),
            ir(Op::Kill, 4, -1),
            ir(Op::Imm, 9, 1),
            ir(Op::Call("f".to_string(), vec![9, 2]), 3, -1),
        ]]
    };
    let mut ra = RegAlloc::new();
    let first = ra.run(code()).unwrap();
    let second = ra.run(code()).unwrap();
    let third = RegAlloc::new().run(code()).unwrap();
    assert_eq!(first, second);
    assert_eq!(first, third);
    assert_eq!(
        first,
        vec![vec![
            ir(Op::Imm, 0, 1),
            ir(Op::Imm, 1, 1),
            ir(Op::Nop, 4, -1),
            ir(Op::Imm, 0, 1),
            ir(Op::Call("f".to_string(), vec![0, 1]), 2, -1),
        ]]
    );
}

#[test]
fn run_leaves_the_allocator_fresh() {
    let mut ra = RegAlloc::new();
    ra.run(vec![vec![ir(Op::Imm, 0, 1), ir(Op::Imm, 1, 1)]]).unwrap();
    assert_eq!(ra.allocate(5), Ok(0));
    let mut ra = RegAlloc::new();
    assert_eq!(
        ra.run(vec![vec![ir(Op::Imm, 0, 1), ir(Op::Imm, -1, 1)]]),
        Err(CompileError::RegisterSpaceExhausted)
    );
    assert_eq!(ra.allocate(5), Ok(0));
}

#[test]
fn an_empty_program_allocates_to_itself() {
    assert_eq!(RegAlloc::new().run(vec![]).unwrap(), Vec::<Vec<Ir>>::new());
    assert_eq!(
        RegAlloc::new().run(vec![vec![]]).unwrap(),
        vec![Vec::<Ir>::new()]
    );
}
