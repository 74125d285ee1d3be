//! Tests of the snapshot, the plan builder, and the plan executor.

use burne::errors::RenameError;
use burne::escape::{Escape, LineSeparator};
use burne::plan::{Loc, RenameOp, RenamePlan, Renamer};
use burne::setup::{split_lines, RenameSetup};

fn b(s: &str) -> Vec<u8> {
    s.as_bytes().to_vec()
}

fn names(list: &[&str]) -> Vec<Vec<u8>> {
    list.iter().map(|s| b(s)).collect()
}

fn setup(entries: &[&str]) -> RenameSetup {
    RenameSetup::new(b("."), names(entries))
}

fn in_dir(s: &str) -> Loc {
    Loc::InDir(b(s))
}

fn in_temp(s: &str) -> Loc {
    Loc::InTemp(b(s))
}

fn op(src: Loc, dest: Loc) -> RenameOp {
    RenameOp { src, dest }
}

/// The set of (source, destination) edges of a cyclic chain, including the
/// closing edge.
fn cycle_edges(chain: &[Vec<u8>]) -> Vec<(Vec<u8>, Vec<u8>)> {
    let mut edges = Vec::new();
    for w in chain.windows(2) {
        edges.push((w[0].clone(), w[1].clone()));
    }
    edges.push((chain[chain.len() - 1].clone(), chain[0].clone()));
    edges.sort();
    edges
}

#[test]
fn setup_sorts_and_dedups() {
    let s = setup(&["b", "a", "c", "a"]);
    assert_eq!(s.entries, names(&["a", "b", "c"]));
    assert_eq!(s.source_dir, b("."));
}

#[test]
fn split_lines_behavior() {
    assert_eq!(split_lines(&b(""), b'\n'), Vec::<Vec<u8>>::new());
    assert_eq!(split_lines(&b("a\nb\n"), b'\n'), names(&["a", "b"]));
    assert_eq!(split_lines(&b("a\nb"), b'\n'), names(&["a", "b"]));
    assert_eq!(split_lines(&b("a\n\n"), b'\n'), names(&["a", ""]));
    assert_eq!(split_lines(&b("\n"), b'\n'), names(&[""]));
    assert_eq!(split_lines(&b("a\0b\0"), 0), names(&["a", "b"]));
}

#[test]
fn write_renders_entries() {
    let s = setup(&["b", "a"]);
    let text = s.write(Escape::NoEscape, LineSeparator::LineFeed).unwrap();
    assert_eq!(text, b("a\nb\n"));
    let s2 = setup(&["a b"]);
    let text2 = s2.write(Escape::PercentEncoding, LineSeparator::LineFeed).unwrap();
    assert_eq!(text2, b("a%20b\n"));
}

#[test]
fn write_fails_on_unrepresentable_name() {
    let s = RenameSetup::new(b("."), vec![b("bad\nname")]);
    match s.write(Escape::NoEscape, LineSeparator::LineFeed) {
        Err(RenameError::SeparatorInName { name }) => assert_eq!(name, b("bad\nname")),
        other => panic!("expected a separator error, got {:?}", other),
    }
}

#[test]
fn plan_identity_entries_are_dropped() {
    let s = setup(&["a", "b"]);
    let plan = s
        .plan(&b("a\nc\n"), Escape::NoEscape, LineSeparator::LineFeed)
        .unwrap();
    // `a` keeps its name, so only `b -> c` is planned.
    assert_eq!(plan.seq_rename_chains, vec![names(&["b", "c"])]);
    assert!(plan.cyclic_rename_chains.is_empty());
    assert!(!plan.has_cycles());
}

#[test]
fn plan_all_identity_is_empty() {
    let s = setup(&["a", "b"]);
    let plan = s
        .plan(&b("a\nb\n"), Escape::NoEscape, LineSeparator::LineFeed)
        .unwrap();
    assert!(plan.seq_rename_chains.is_empty());
    assert!(plan.cyclic_rename_chains.is_empty());
    assert!(plan.rename_ops().is_empty());
}

#[test]
fn plan_duplicate_destination_fails() {
    let s = setup(&["a", "b"]);
    match s.plan(&b("c\nc\n"), Escape::NoEscape, LineSeparator::LineFeed) {
        Err(RenameError::DuplicateDestination { first_source, second_source, dest }) => {
            assert_eq!(first_source, b("a"));
            assert_eq!(second_source, b("b"));
            assert_eq!(dest, b("c"));
        },
        other => panic!("expected a duplicate-destination error, got {:?}", other),
    }
}

#[test]
fn plan_too_few_lines_fails() {
    let s = setup(&["a", "b"]);
    match s.plan(&b("x\n"), Escape::NoEscape, LineSeparator::LineFeed) {
        Err(RenameError::TooFewEntries) => {},
        other => panic!("expected a too-few-entries error, got {:?}", other),
    }
}

#[test]
fn plan_extra_lines_are_ignored() {
    let s = setup(&["a"]);
    let plan = s
        .plan(&b("b\nc\nd\n"), Escape::NoEscape, LineSeparator::LineFeed)
        .unwrap();
    assert_eq!(plan.seq_rename_chains, vec![names(&["a", "b"])]);
}

#[test]
fn plan_chain_through_two_steps() {
    // Scenario: directory has `x, y`; edited destinations are `y, z`.
    let s = setup(&["x", "y"]);
    let plan = s
        .plan(&b("y\nz\n"), Escape::NoEscape, LineSeparator::LineFeed)
        .unwrap();
    assert_eq!(plan.seq_rename_chains, vec![names(&["x", "y", "z"])]);
    assert!(plan.cyclic_rename_chains.is_empty());
    // Expected rename order: `y -> z` first, then `x -> y`.
    assert_eq!(
        plan.rename_ops(),
        vec![op(in_dir("y"), in_dir("z")), op(in_dir("x"), in_dir("y"))]
    );
}

#[test]
fn plan_cycle_of_three() {
    // Scenario: directory has `a, b, c`; edited destinations are `b, c, a`.
    let s = setup(&["a", "b", "c"]);
    let plan = s
        .plan(&b("b\nc\na\n"), Escape::NoEscape, LineSeparator::LineFeed)
        .unwrap();
    assert!(plan.seq_rename_chains.is_empty());
    assert_eq!(plan.cyclic_rename_chains.len(), 1);
    assert!(plan.has_cycles());
    let cyc = &plan.cyclic_rename_chains[0];
    assert_eq!(cyc.len(), 3);
    // The cycle is a -> b -> c -> a, up to rotation of the member list.
    let mut expected = vec![
        (b("a"), b("b")),
        (b("b"), b("c")),
        (b("c"), b("a")),
    ];
    expected.sort();
    assert_eq!(cycle_edges(cyc), expected);
    // The executed steps follow the park / chain / unpark pattern on the
    // cycle that was produced.
    let last = cyc[cyc.len() - 1].clone();
    let first = cyc[0].clone();
    let mut expected_ops = vec![op(Loc::InDir(last.clone()), Loc::InTemp(last.clone()))];
    for w in cyc.windows(2).rev() {
        expected_ops.push(op(Loc::InDir(w[0].clone()), Loc::InDir(w[1].clone())));
    }
    expected_ops.push(op(Loc::InTemp(last), Loc::InDir(first)));
    assert_eq!(plan.rename_ops(), expected_ops);
}

#[test]
fn plan_swap_is_a_cycle_of_two() {
    let s = setup(&["a", "b"]);
    let plan = s
        .plan(&b("b\na\n"), Escape::NoEscape, LineSeparator::LineFeed)
        .unwrap();
    assert!(plan.seq_rename_chains.is_empty());
    assert_eq!(plan.cyclic_rename_chains.len(), 1);
    let cyc = &plan.cyclic_rename_chains[0];
    let mut expected = vec![(b("a"), b("b")), (b("b"), b("a"))];
    expected.sort();
    assert_eq!(cycle_edges(cyc), expected);
}

#[test]
fn executing_an_acyclic_chain_is_destination_first() {
    // Executing the chain [a, b, c] issues `b -> c`, then `a -> b`.
    let plan = RenamePlan {
        source_dir: b("."),
        seq_rename_chains: vec![names(&["a", "b", "c"])],
        cyclic_rename_chains: vec![],
    };
    assert_eq!(
        plan.rename_ops(),
        vec![op(in_dir("b"), in_dir("c")), op(in_dir("a"), in_dir("b"))]
    );
}

#[test]
fn executing_a_cyclic_chain_routes_through_the_temp_dir() {
    // Executing the cycle [a, b, c] issues `c -> <temp>/c`, `b -> c`,
    // `a -> b`, `<temp>/c -> a`, in that order.
    let plan = RenamePlan {
        source_dir: b("."),
        seq_rename_chains: vec![],
        cyclic_rename_chains: vec![names(&["a", "b", "c"])],
    };
    assert_eq!(
        plan.rename_ops(),
        vec![
            op(in_dir("c"), in_temp("c")),
            op(in_dir("b"), in_dir("c")),
            op(in_dir("a"), in_dir("b")),
            op(in_temp("c"), in_dir("a")),
        ]
    );
}

#[test]
fn chains_run_before_cycles() {
    let plan = RenamePlan {
        source_dir: b("."),
        seq_rename_chains: vec![names(&["x", "y"])],
        cyclic_rename_chains: vec![names(&["a", "b"])],
    };
    assert_eq!(
        plan.rename_ops(),
        vec![
            op(in_dir("x"), in_dir("y")),
            op(in_dir("b"), in_temp("b")),
            op(in_dir("a"), in_dir("b")),
            op(in_temp("b"), in_dir("a")),
        ]
    );
}

#[test]
fn dry_run_selection_changes_no_operation() {
    assert!(Renamer::DryRun.is_dry_run());
    assert!(!Renamer::StdFs.is_dry_run());
    // The operation list is a function of the plan alone: both backends see
    // the very same steps.
    let s = setup(&["a", "b", "c"]);
    let plan = s
        .plan(&b("b\nc\na\n"), Escape::NoEscape, LineSeparator::LineFeed)
        .unwrap();
    let for_real_run = plan.rename_ops();
    let for_dry_run = plan.rename_ops();
    assert_eq!(for_real_run, for_dry_run);
}

#[test]
fn plan_with_percent_encoded_destinations() {
    let s = setup(&["a b"]);
    let text = s.write(Escape::PercentEncoding, LineSeparator::LineFeed).unwrap();
    assert_eq!(text, b("a%20b\n"));
    // The user replaces the destination with another escaped name.
    let plan = s
        .plan(&b("c%20d\n"), Escape::PercentEncoding, LineSeparator::LineFeed)
        .unwrap();
    assert_eq!(plan.seq_rename_chains, vec![vec![b("a b"), b("c d")]]);
}

#[test]
fn plan_with_null_separator() {
    let s = setup(&["a"]);
    let plan = s.plan(&b("b\0"), Escape::NoEscape, LineSeparator::Null).unwrap();
    assert_eq!(plan.seq_rename_chains, vec![names(&["a", "b"])]);
}

#[test]
fn cycle_of_three_executes_as_expected_order() {
    // The park / chain / unpark pattern on the exact cycle [a, b, c], spelled
    // out against the chain that the planner produced for the scenario.
    let chain = names(&["b", "c", "a"]);
    let plan = RenamePlan {
        source_dir: b("."),
        seq_rename_chains: vec![],
        cyclic_rename_chains: vec![chain],
    };
    assert_eq!(
        plan.rename_ops(),
        vec![
            op(in_dir("a"), in_temp("a")),
            op(in_dir("c"), in_dir("a")),
            op(in_dir("b"), in_dir("c")),
            op(in_temp("a"), in_dir("b")),
        ]
    );
}
