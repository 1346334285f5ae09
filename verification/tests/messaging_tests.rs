//! Behaviour of snapshot normalization: deduplicated sorted cell lists,
//! frontier filtering, snapshot construction and delivery.

use rustfinder::messaging::{
    build_step, collect_open_nodes, contains_cell, emit_step, normalize_cells,
    normalize_signed_cells,
};
use rustfinder::{MovementMode, SearchStep, StepObserver};

struct Bucket {
    received: Vec<SearchStep>,
    listening: bool,
}

impl StepObserver for Bucket {
    fn active(&self) -> bool {
        self.listening
    }

    fn on_step(&mut self, step: SearchStep) {
        self.received.push(step);
    }
}

#[test]
fn normalize_cells_sorts_and_deduplicates() {
    let cells = vec![(3usize, 1usize), (0, 2), (3, 1), (0, 0), (2, 5), (0, 2)];
    let out = normalize_cells(&cells);
    assert_eq!(out, vec![(0, 0), (0, 2), (2, 5), (3, 1)]);
    assert!(normalize_cells(&Vec::new()).is_empty());
}

#[test]
fn normalize_signed_cells_sorts_and_deduplicates() {
    let cells = vec![(2isize, -1isize), (-1, 4), (2, -1), (0, 0), (-1, -7)];
    let out = normalize_signed_cells(&cells);
    assert_eq!(out, vec![(-1, -7), (-1, 4), (0, 0), (2, -1)]);
}

#[test]
fn collect_open_nodes_filters_finalized_cells() {
    let open = vec![(1usize, 1usize), (0, 3), (2, 2), (1, 1), (4, 4)];
    let visited = vec![(1usize, 1usize), (4, 4)];
    let out = collect_open_nodes(&open, &visited);
    assert_eq!(out, vec![(0, 3), (2, 2)]);
}

#[test]
fn contains_cell_reports_membership() {
    let v = vec![(1usize, 2usize), (3, 4)];
    assert!(contains_cell(&v, (3, 4)));
    assert!(!contains_cell(&v, (4, 3)));
}

#[test]
fn build_step_normalizes_every_field() {
    let visited = vec![(2usize, 2usize), (0, 1), (2, 2)];
    let open = vec![(5usize, 5usize), (0, 1), (3, 3)];
    let blocked = vec![(4isize, -1isize), (-1, 0), (4, -1)];
    let step = build_step(7, (2, 2), &visited, &open, &blocked, true);
    assert_eq!(step.step_index, 7);
    assert_eq!(step.current, (2, 2));
    assert!(step.is_goal);
    assert_eq!(step.visited, vec![(0, 1), (2, 2)]);
    assert_eq!(step.open_nodes, vec![(5, 5), (3, 3)]);
    assert_eq!(step.blocked, vec![(-1, 0), (4, -1)]);
}

#[test]
fn emit_step_respects_the_active_flag() {
    let visited = vec![(0usize, 0usize)];
    let open = vec![(1usize, 0usize)];
    let blocked: Vec<(isize, isize)> = Vec::new();

    let mut silent = Bucket { received: Vec::new(), listening: false };
    emit_step(&mut silent, 0, (0, 0), &visited, &open, &blocked, false);
    assert!(silent.received.is_empty());

    let mut listening = Bucket { received: Vec::new(), listening: true };
    emit_step(&mut listening, 3, (0, 0), &visited, &open, &blocked, false);
    assert_eq!(listening.received.len(), 1);
    assert_eq!(listening.received[0].step_index, 3);
    assert_eq!(listening.received[0].open_nodes, vec![(1, 0)]);
    assert!(!listening.received[0].is_goal);
}

#[test]
fn direction_lists_are_in_fixed_order() {
    assert_eq!(
        MovementMode::FourDirections.directions(),
        vec![(1isize, 0isize), (0, 1), (-1, 0), (0, -1)],
    );
    assert_eq!(
        MovementMode::EightDirections.directions(),
        vec![
            (1isize, 0isize),
            (0, 1),
            (-1, 0),
            (0, -1),
            (1, 1),
            (1, -1),
            (-1, 1),
            (-1, -1),
        ],
    );
}
