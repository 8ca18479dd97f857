use dataflow::il::{Block, Edge, Function, GraphError, Instruction, ProgramLocation, Variable};
use dataflow::reaching_definitions::reaching_definitions;

type Table = Vec<(ProgramLocation, Vec<ProgramLocation>)>;

fn scalar(name: &str, bits: u64) -> Variable {
    Variable::new(name.to_string(), bits)
}

fn block(instructions: Vec<Instruction>) -> Block {
    Block { instructions }
}

fn edge(head: usize, tail: usize) -> Edge {
    Edge { head, tail }
}

fn ins(block: usize, index: usize) -> ProgramLocation {
    ProgramLocation::Instruction { block, index }
}

fn state<'a>(table: &'a Table, at: ProgramLocation) -> &'a Vec<ProgramLocation> {
    let found: Vec<&(ProgramLocation, Vec<ProgramLocation>)> = table.iter().filter(|e| e.0 == at).collect();
    assert_eq!(found.len(), 1);
    &found[0].1
}

fn sorted(mut v: Vec<ProgramLocation>) -> Vec<ProgramLocation> {
    v.sort_by_key(|l| format!("{:?}", l));
    v
}

/*
a = in
b = 4
if a < 10 {
    c = a
    [0xdeadbeef] = c
}
else {
    c = b
}
b = c
c = [0xdeadbeef]
*/
fn worked_example() -> Function {
    let head = block(vec![
        Instruction::writing(scalar("a", 32)),
        Instruction::writing(scalar("b", 32)),
    ]);
    let gt = block(vec![Instruction::writing(scalar("c", 32))]);
    let lt = block(vec![
        Instruction::writing(scalar("c", 32)),
        Instruction::writing(scalar("mem", 1 << 32)),
    ]);
    let tail = block(vec![
        Instruction::writing(scalar("b", 32)),
        Instruction::writing(scalar("c", 32)),
    ]);
    Function {
        index: 0,
        blocks: vec![head, gt, lt, tail],
        edges: vec![edge(0, 2), edge(0, 1), edge(2, 3), edge(1, 3)],
    }
}

#[test]
fn reaching_definitions_test() {
    let function = worked_example();
    let rd = reaching_definitions(&function).unwrap();
    let r = state(&rd, ins(3, 0));
    assert!(r.contains(&ins(0, 0)));
    assert!(r.contains(&ins(1, 0)));
    assert!(r.contains(&ins(2, 0)));
    assert!(r.contains(&ins(2, 1)));
    assert!(r.contains(&ins(3, 0)));
    assert!(!r.contains(&ins(0, 1)));
}

#[test]
fn worked_example_full_state_after_first_join() {
    let function = worked_example();
    let rd = reaching_definitions(&function).unwrap();
    let r = sorted(state(&rd, ins(3, 0)).clone());
    assert_eq!(r, sorted(vec![ins(0, 0), ins(1, 0), ins(2, 0), ins(2, 1), ins(3, 0)]));
}

#[test]
fn worked_example_incoming_edges_still_hold_b_equals_four() {
    let function = worked_example();
    let rd = reaching_definitions(&function).unwrap();
    for e in [2usize, 3] {
        let r = state(&rd, ProgramLocation::Edge { edge: e });
        assert!(r.contains(&ins(0, 1)));
        assert!(r.contains(&ins(0, 0)));
    }
    let from_lt = sorted(state(&rd, ProgramLocation::Edge { edge: 2 }).clone());
    assert_eq!(from_lt, sorted(vec![ins(0, 0), ins(0, 1), ins(2, 0), ins(2, 1)]));
    let from_gt = sorted(state(&rd, ProgramLocation::Edge { edge: 3 }).clone());
    assert_eq!(from_gt, sorted(vec![ins(0, 0), ins(0, 1), ins(1, 0)]));
}

#[test]
fn worked_example_entry_does_not_reach_itself_from_before() {
    let function = worked_example();
    let rd = reaching_definitions(&function).unwrap();
    assert_eq!(state(&rd, ins(0, 0)), &vec![ins(0, 0)]);
    assert_eq!(sorted(state(&rd, ins(0, 1)).clone()), sorted(vec![ins(0, 0), ins(0, 1)]));
}

#[test]
fn worked_example_last_load_kills_both_writes_of_c() {
    let function = worked_example();
    let rd = reaching_definitions(&function).unwrap();
    let r = sorted(state(&rd, ins(3, 1)).clone());
    assert_eq!(r, sorted(vec![ins(0, 0), ins(2, 1), ins(3, 0), ins(3, 1)]));
}

#[test]
fn covers_every_location_once_in_canonical_order() {
    let function = worked_example();
    let rd = reaching_definitions(&function).unwrap();
    let locations: Vec<ProgramLocation> = rd.iter().map(|e| e.0).collect();
    assert_eq!(
        locations,
        vec![
            ins(0, 0),
            ins(0, 1),
            ins(1, 0),
            ins(2, 0),
            ins(2, 1),
            ins(3, 0),
            ins(3, 1),
            ProgramLocation::Edge { edge: 0 },
            ProgramLocation::Edge { edge: 1 },
            ProgramLocation::Edge { edge: 2 },
            ProgramLocation::Edge { edge: 3 },
        ]
    );
}

#[test]
fn running_twice_gives_the_same_table() {
    let function = worked_example();
    let first = reaching_definitions(&function).unwrap();
    let second = reaching_definitions(&function).unwrap();
    assert_eq!(first, second);
}

#[test]
fn loop_carries_definitions_around_the_back_edge() {
    // B0: i = 0; B1: i = i + 1 (loops to itself and exits to B2); B2: empty.
    let function = Function {
        index: 1,
        blocks: vec![
            block(vec![Instruction::writing(scalar("i", 64))]),
            block(vec![Instruction::silent(), Instruction::writing(scalar("i", 64))]),
            block(vec![]),
        ],
        edges: vec![edge(0, 1), edge(1, 1), edge(1, 2)],
    };
    let rd = reaching_definitions(&function).unwrap();
    assert_eq!(rd.len(), 7);
    assert_eq!(sorted(state(&rd, ins(1, 0)).clone()), sorted(vec![ins(0, 0), ins(1, 1)]));
    assert_eq!(state(&rd, ins(1, 1)), &vec![ins(1, 1)]);
    assert_eq!(state(&rd, ProgramLocation::EmptyBlock { block: 2 }), &vec![ins(1, 1)]);
    assert_eq!(state(&rd, ProgramLocation::Edge { edge: 1 }), &vec![ins(1, 1)]);
}

#[test]
fn empty_block_passes_state_through() {
    let function = Function {
        index: 2,
        blocks: vec![
            block(vec![Instruction::writing(scalar("x", 8))]),
            block(vec![]),
            block(vec![Instruction::silent()]),
        ],
        edges: vec![edge(0, 1), edge(1, 2)],
    };
    let rd = reaching_definitions(&function).unwrap();
    assert_eq!(state(&rd, ProgramLocation::EmptyBlock { block: 1 }), &vec![ins(0, 0)]);
    assert_eq!(state(&rd, ins(2, 0)), &vec![ins(0, 0)]);
}

#[test]
fn kill_ignores_the_subscript_but_not_the_width() {
    let mut renamed = scalar("v", 32);
    renamed.ssa = Some(7);
    let function = Function {
        index: 3,
        blocks: vec![block(vec![
            Instruction::writing(scalar("v", 32)),
            Instruction::writing(scalar("v", 64)),
            Instruction::writing(renamed),
        ])],
        edges: vec![],
    };
    let rd = reaching_definitions(&function).unwrap();
    assert_eq!(sorted(state(&rd, ins(0, 1)).clone()), sorted(vec![ins(0, 0), ins(0, 1)]));
    assert_eq!(sorted(state(&rd, ins(0, 2)).clone()), sorted(vec![ins(0, 1), ins(0, 2)]));
}

#[test]
fn join_is_the_union_of_both_branches() {
    let function = Function {
        index: 4,
        blocks: vec![
            block(vec![Instruction::silent()]),
            block(vec![Instruction::writing(scalar("p", 1))]),
            block(vec![Instruction::writing(scalar("q", 1))]),
            block(vec![Instruction::silent()]),
        ],
        edges: vec![edge(0, 1), edge(0, 2), edge(1, 3), edge(2, 3)],
    };
    let rd = reaching_definitions(&function).unwrap();
    assert_eq!(sorted(state(&rd, ins(3, 0)).clone()), sorted(vec![ins(1, 0), ins(2, 0)]));
    assert!(state(&rd, ins(0, 0)).is_empty());
}

#[test]
fn edge_to_a_missing_block_is_an_error() {
    let function = Function {
        index: 5,
        blocks: vec![block(vec![Instruction::silent()])],
        edges: vec![edge(0, 0), edge(0, 4)],
    };
    assert_eq!(reaching_definitions(&function), Err(GraphError::MissingBlock { edge: 1 }));
    let function = Function { index: 6, blocks: vec![], edges: vec![edge(2, 0)] };
    assert_eq!(reaching_definitions(&function), Err(GraphError::MissingBlock { edge: 0 }));
}

#[test]
fn empty_function_has_no_locations() {
    let function = Function { index: 7, blocks: vec![], edges: vec![] };
    assert_eq!(reaching_definitions(&function), Ok(vec![]));
}
