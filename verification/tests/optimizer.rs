use tapejit::optimize::peephole::Peephole;
use tapejit::optimize::{map_loops, optimize, OptimizationPass, OptimizeExt};
use tapejit::syntax::Instruction;
use tapejit::syntax::Instruction::{AddToCell, Loop, MovePointer, Read, SetCell, Write};

fn looped(body: Vec<Instruction>) -> Instruction {
    Loop { body }
}

fn count(nodes: &Vec<Instruction>) -> usize {
    let mut total = 0;
    for node in nodes {
        total += 1;
        if let Loop { body } = node {
            total += count(body);
        }
    }
    total
}

#[test]
fn combine_increments_sums_neighbours() {
    let nodes = vec![AddToCell(1), AddToCell(1), AddToCell(1), MovePointer(1), MovePointer(1)];
    assert_eq!(
        Peephole::CombineIncrements.optimize(nodes),
        vec![AddToCell(3), MovePointer(2)]
    );
}

#[test]
fn combine_increments_drops_a_zero_sum() {
    let nodes = vec![AddToCell(1), AddToCell(-1), MovePointer(-1), MovePointer(1)];
    assert_eq!(Peephole::CombineIncrements.optimize(nodes), vec![]);
}

#[test]
fn combine_increments_drops_a_zero_delta() {
    let nodes = vec![MovePointer(0), Write, AddToCell(0)];
    assert_eq!(Peephole::CombineIncrements.optimize(nodes), vec![Write]);
}

#[test]
fn combine_increments_merges_what_a_dropped_sum_brings_together() {
    let nodes = vec![AddToCell(1), MovePointer(1), MovePointer(-1), AddToCell(1)];
    assert_eq!(Peephole::CombineIncrements.optimize(nodes), vec![AddToCell(2)]);
}

#[test]
fn combine_increments_stops_at_a_boundary() {
    let nodes = vec![
        AddToCell(1),
        Write,
        AddToCell(1),
        Read,
        AddToCell(1),
        looped(vec![]),
        AddToCell(1),
        MovePointer(1),
        AddToCell(1),
    ];
    assert_eq!(Peephole::CombineIncrements.optimize(nodes.clone()), nodes);
}

#[test]
fn combine_increments_keeps_kinds_apart() {
    let nodes = vec![AddToCell(2), MovePointer(2), AddToCell(-2), MovePointer(-2)];
    assert_eq!(Peephole::CombineIncrements.optimize(nodes.clone()), nodes);
}

#[test]
fn combine_increments_wraps_cell_deltas() {
    let nodes = vec![AddToCell(127), AddToCell(1)];
    assert_eq!(Peephole::CombineIncrements.optimize(nodes), vec![AddToCell(-128)]);
    let nodes = vec![AddToCell(-128), AddToCell(-128)];
    assert_eq!(Peephole::CombineIncrements.optimize(nodes), vec![]);
}

#[test]
fn combine_increments_carries_a_move_that_does_not_fit() {
    let nodes = vec![MovePointer(i32::MAX - 1), MovePointer(5)];
    assert_eq!(
        Peephole::CombineIncrements.optimize(nodes),
        vec![MovePointer(i32::MAX), MovePointer(4)]
    );
    let nodes = vec![MovePointer(i32::MIN + 1), MovePointer(-5)];
    assert_eq!(
        Peephole::CombineIncrements.optimize(nodes),
        vec![MovePointer(i32::MIN), MovePointer(-4)]
    );
}

#[test]
fn combine_increments_borrows_from_a_full_move() {
    let nodes = vec![MovePointer(i32::MAX), MovePointer(1), MovePointer(-2)];
    assert_eq!(
        Peephole::CombineIncrements.optimize(nodes),
        vec![MovePointer(i32::MAX - 1)]
    );
}

#[test]
fn combine_increments_recurses_into_loops() {
    let nodes = vec![looped(vec![
        AddToCell(1),
        AddToCell(1),
        looped(vec![MovePointer(1), MovePointer(1), MovePointer(1)]),
    ])];
    assert_eq!(
        Peephole::CombineIncrements.optimize(nodes),
        vec![looped(vec![AddToCell(2), looped(vec![MovePointer(3)])])]
    );
}

#[test]
fn combine_increments_twice_is_once() {
    let samples = vec![
        vec![AddToCell(1), MovePointer(1), MovePointer(-1), AddToCell(1)],
        vec![MovePointer(i32::MAX), MovePointer(1), MovePointer(-2)],
        vec![MovePointer(i32::MAX), MovePointer(i32::MAX), MovePointer(-5)],
        vec![
            looped(vec![AddToCell(-1), AddToCell(-1), MovePointer(2), MovePointer(-2)]),
            AddToCell(5),
            AddToCell(-5),
        ],
    ];
    for nodes in samples {
        let once = Peephole::CombineIncrements.optimize(nodes);
        let twice = Peephole::CombineIncrements.optimize(once.clone());
        assert_eq!(twice, once);
    }
}

#[test]
fn replace_set_rewrites_a_countdown() {
    let nodes = vec![looped(vec![AddToCell(-1)])];
    assert_eq!(Peephole::ReplaceSet.optimize(nodes), vec![SetCell(0)]);
}

#[test]
fn replace_set_rewrites_every_odd_delta() {
    let mut delta: i8 = i8::MIN;
    loop {
        let nodes = vec![looped(vec![AddToCell(delta)])];
        let rewritten = Peephole::ReplaceSet.optimize(nodes.clone());
        if delta % 2 != 0 {
            assert_eq!(rewritten, vec![SetCell(0)]);
        } else {
            assert_eq!(rewritten, nodes);
        }
        if delta == i8::MAX {
            break;
        }
        delta += 1;
    }
}

#[test]
fn replace_set_leaves_an_even_delta() {
    let nodes = vec![looped(vec![AddToCell(2)])];
    assert_eq!(Peephole::ReplaceSet.optimize(nodes.clone()), nodes);
}

#[test]
fn replace_set_leaves_other_bodies() {
    let samples = vec![
        vec![looped(vec![])],
        vec![looped(vec![AddToCell(-1), AddToCell(-1), AddToCell(-1)])],
        vec![looped(vec![MovePointer(1)])],
        vec![looped(vec![AddToCell(-1), Write])],
        vec![looped(vec![Read])],
        vec![looped(vec![SetCell(0)])],
    ];
    for nodes in samples {
        assert_eq!(Peephole::ReplaceSet.optimize(nodes.clone()), nodes);
    }
}

#[test]
fn replace_set_works_inside_out() {
    let nodes = vec![looped(vec![looped(vec![AddToCell(1)]), MovePointer(1)])];
    assert_eq!(
        Peephole::ReplaceSet.optimize(nodes),
        vec![looped(vec![SetCell(0), MovePointer(1)])]
    );
    let nodes = vec![looped(vec![looped(vec![AddToCell(1)])])];
    assert_eq!(
        Peephole::ReplaceSet.optimize(nodes),
        vec![looped(vec![SetCell(0)])]
    );
}

#[test]
fn combine_sets_folds_an_increment() {
    let nodes = vec![SetCell(5), AddToCell(3)];
    assert_eq!(Peephole::CombineSets.optimize(nodes), vec![SetCell(8)]);
    let nodes = vec![SetCell(0), AddToCell(-1)];
    assert_eq!(Peephole::CombineSets.optimize(nodes), vec![SetCell(255)]);
    let nodes = vec![SetCell(250), AddToCell(10), AddToCell(10)];
    assert_eq!(Peephole::CombineSets.optimize(nodes), vec![SetCell(14)]);
}

#[test]
fn combine_sets_keeps_the_later_set() {
    let nodes = vec![SetCell(5), SetCell(9)];
    assert_eq!(Peephole::CombineSets.optimize(nodes), vec![SetCell(9)]);
}

#[test]
fn combine_sets_stops_at_a_move() {
    let nodes = vec![SetCell(5), MovePointer(1), AddToCell(3)];
    assert_eq!(Peephole::CombineSets.optimize(nodes.clone()), nodes);
    let nodes = vec![AddToCell(3), SetCell(5)];
    assert_eq!(Peephole::CombineSets.optimize(nodes.clone()), nodes);
}

#[test]
fn combine_sets_recurses_into_loops() {
    let nodes = vec![looped(vec![SetCell(1), AddToCell(1)])];
    assert_eq!(
        Peephole::CombineSets.optimize(nodes),
        vec![looped(vec![SetCell(2)])]
    );
}

#[test]
fn passes_chain() {
    let nodes = vec![
        looped(vec![AddToCell(-1), AddToCell(1), AddToCell(-1)]),
        AddToCell(1),
        AddToCell(1),
    ];
    let result = nodes
        .optimize(&Peephole::CombineIncrements)
        .optimize(&Peephole::ReplaceSet)
        .optimize(&Peephole::CombineSets);
    assert_eq!(result, vec![SetCell(2)]);
}

#[test]
fn optimize_runs_the_three_passes() {
    let nodes = vec![
        looped(vec![AddToCell(-1), AddToCell(1), AddToCell(-1)]),
        AddToCell(1),
        AddToCell(1),
    ];
    assert_eq!(optimize(nodes), vec![SetCell(2)]);
}

#[test]
fn optimize_leaves_nothing_to_combine_alone() {
    let nodes = vec![AddToCell(3), Write];
    assert_eq!(optimize(nodes.clone()), nodes);
}

#[test]
fn optimize_shrinks_nested_loops() {
    let nodes = vec![
        AddToCell(1),
        AddToCell(1),
        looped(vec![
            MovePointer(1),
            MovePointer(1),
            looped(vec![AddToCell(-1)]),
            AddToCell(1),
            AddToCell(1),
            MovePointer(-1),
            MovePointer(-1),
            AddToCell(-1),
        ]),
    ];
    let optimized = optimize(nodes.clone());
    assert!(count(&optimized) < count(&nodes));
    assert_eq!(
        optimized,
        vec![
            AddToCell(2),
            looped(vec![MovePointer(2), SetCell(2), MovePointer(-2), AddToCell(-1)]),
        ]
    );
}

#[test]
fn map_loops_rewrites_bodies_only() {
    let nodes = vec![
        AddToCell(1),
        AddToCell(1),
        looped(vec![AddToCell(1), AddToCell(1)]),
        Write,
        looped(vec![looped(vec![MovePointer(1), MovePointer(1)])]),
    ];
    assert_eq!(
        map_loops(nodes, &Peephole::CombineIncrements),
        vec![
            AddToCell(1),
            AddToCell(1),
            looped(vec![AddToCell(2)]),
            Write,
            looped(vec![looped(vec![MovePointer(2)])]),
        ]
    );
}

#[test]
fn map_loops_of_nothing() {
    assert_eq!(map_loops(vec![], &Peephole::ReplaceSet), vec![]);
}
