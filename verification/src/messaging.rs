//! Search observability: per-iteration snapshots of the search state,
//! normalized (deduplicated and deterministically ordered) before they are
//! handed to an observer. The observer is a synchronous sink: the search
//! blocks until the callback returns, and nothing the observer does can
//! reach back into the search state.

use vstd::prelude::*;

verus! {

/// Strict lexicographic order on unsigned cell coordinates.
pub open spec fn cell_lt(a: (usize, usize), b: (usize, usize)) -> bool {
    a.0 < b.0 || (a.0 == b.0 && a.1 < b.1)
}

/// Strict lexicographic order on signed cell coordinates.
pub open spec fn signed_cell_lt(a: (isize, isize), b: (isize, isize)) -> bool {
    a.0 < b.0 || (a.0 == b.0 && a.1 < b.1)
}

/// The sequence is strictly increasing, hence also duplicate-free.
pub open spec fn sorted_cells(s: Seq<(usize, usize)>) -> bool {
    forall|i: int, j: int| 0 <= i < j < s.len() ==> cell_lt(#[trigger] s[i], #[trigger] s[j])
}

/// The sequence is strictly increasing, hence also duplicate-free.
pub open spec fn sorted_signed_cells(s: Seq<(isize, isize)>) -> bool {
    forall|i: int, j: int| 0 <= i < j < s.len() ==> signed_cell_lt(#[trigger] s[i], #[trigger] s[j])
}

/// One observed snapshot of the search: the iteration index, the cell just
/// finalized, the sorted set of finalized cells so far, the current
/// frontier, the sorted blocked set so far, and whether this snapshot is a
/// goal or termination event.
pub struct SearchStep {
    pub step_index: usize,
    pub current: (usize, usize),
    pub visited: Vec<(usize, usize)>,
    pub open_nodes: Vec<(usize, usize)>,
    pub blocked: Vec<(isize, isize)>,
    pub is_goal: bool,
}

/// A synchronous consumer of search snapshots. When `active` is false the
/// search skips snapshot construction entirely.
pub trait StepObserver {
    /// Whether snapshots should be built and delivered at all.
    fn active(&self) -> bool;

    /// Receives one snapshot; called inline on the search's own stack.
    fn on_step(&mut self, step: SearchStep);
}

/// An observer that ignores everything: search without tracing.
pub struct NullObserver;

impl StepObserver for NullObserver {
    fn active(&self) -> bool {
        false
    }

    fn on_step(&mut self, _step: SearchStep) {
    }
}

/// Inserts `x` into a strictly sorted vector, keeping it strictly sorted;
/// a cell already present is left alone.
fn insert_sorted(v: &mut Vec<(usize, usize)>, x: (usize, usize))
    requires
        sorted_cells(old(v)@),
    ensures
        sorted_cells(final(v)@),
        forall|y: (usize, usize)|
            #[trigger] final(v)@.contains(y) <==> (old(v)@.contains(y) || y == x),
        final(v)@.len() <= old(v)@.len() + 1,
{
    let mut j: usize = 0;
    while j < v.len()
        invariant
            sorted_cells(v@),
            j <= v@.len(),
            forall|k: int| 0 <= k < j ==> cell_lt(#[trigger] v@[k], x),
        ensures
            j <= v@.len(),
            forall|k: int| 0 <= k < j ==> cell_lt(#[trigger] v@[k], x),
            j == v@.len() || cell_lt(x, v@[j as int]),
        decreases v@.len() - j,
    {
        let c = v[j];
        if c.0 > x.0 || (c.0 == x.0 && c.1 > x.1) {
            break;
        }
        if c.0 == x.0 && c.1 == x.1 {
            proof {
                assert(v@.contains(x));
            }
            return;
        }
        j = j + 1;
    }
    let ghost oldv = v@;
    v.insert(j, x);
    proof {
        oldv.insert_ensures(j as int, x);
        assert forall|y: (usize, usize)|
            #[trigger] v@.contains(y) implies (oldv.contains(y) || y == x) by {
            let i = choose|i: int| 0 <= i < v@.len() && v@[i] == y;
            if i < j {
                assert(oldv[i] == y);
            } else if i > j {
                assert(oldv[i - 1] == y);
            }
        }
        assert forall|y: (usize, usize)|
            (oldv.contains(y) || y == x) implies #[trigger] v@.contains(y) by {
            if y == x {
                assert(v@[j as int] == y);
            } else {
                let i = choose|i: int| 0 <= i < oldv.len() && oldv[i] == y;
                if i < j {
                    assert(v@[i] == y);
                } else {
                    assert(v@[i + 1] == y);
                }
            }
        }
        assert forall|i: int, k: int| 0 <= i < k < v@.len()
            implies cell_lt(#[trigger] v@[i], #[trigger] v@[k]) by {
            if i < j && k == j {
                assert(v@[i] == oldv[i]);
            } else if i == j && k > j {
                assert(v@[k] == oldv[k - 1]);
            } else if i < j && k > j {
                assert(v@[i] == oldv[i] && v@[k] == oldv[k - 1]);
            } else if i > j && k > j {
                assert(v@[i] == oldv[i - 1] && v@[k] == oldv[k - 1]);
            }
        }
    }
}

/// Inserts `x` into a strictly sorted vector of signed cells, keeping it
/// strictly sorted; a cell already present is left alone.
fn insert_sorted_signed(v: &mut Vec<(isize, isize)>, x: (isize, isize))
    requires
        sorted_signed_cells(old(v)@),
    ensures
        sorted_signed_cells(final(v)@),
        forall|y: (isize, isize)|
            #[trigger] final(v)@.contains(y) <==> (old(v)@.contains(y) || y == x),
        final(v)@.len() <= old(v)@.len() + 1,
{
    let mut j: usize = 0;
    while j < v.len()
        invariant
            sorted_signed_cells(v@),
            j <= v@.len(),
            forall|k: int| 0 <= k < j ==> signed_cell_lt(#[trigger] v@[k], x),
        ensures
            j <= v@.len(),
            forall|k: int| 0 <= k < j ==> signed_cell_lt(#[trigger] v@[k], x),
            j == v@.len() || signed_cell_lt(x, v@[j as int]),
        decreases v@.len() - j,
    {
        let c = v[j];
        if c.0 > x.0 || (c.0 == x.0 && c.1 > x.1) {
            break;
        }
        if c.0 == x.0 && c.1 == x.1 {
            proof {
                assert(v@.contains(x));
            }
            return;
        }
        j = j + 1;
    }
    let ghost oldv = v@;
    v.insert(j, x);
    proof {
        oldv.insert_ensures(j as int, x);
        assert forall|y: (isize, isize)|
            #[trigger] v@.contains(y) implies (oldv.contains(y) || y == x) by {
            let i = choose|i: int| 0 <= i < v@.len() && v@[i] == y;
            if i < j {
                assert(oldv[i] == y);
            } else if i > j {
                assert(oldv[i - 1] == y);
            }
        }
        assert forall|y: (isize, isize)|
            (oldv.contains(y) || y == x) implies #[trigger] v@.contains(y) by {
            if y == x {
                assert(v@[j as int] == y);
            } else {
                let i = choose|i: int| 0 <= i < oldv.len() && oldv[i] == y;
                if i < j {
                    assert(v@[i] == y);
                } else {
                    assert(v@[i + 1] == y);
                }
            }
        }
        assert forall|i: int, k: int| 0 <= i < k < v@.len()
            implies signed_cell_lt(#[trigger] v@[i], #[trigger] v@[k]) by {
            if i < j && k == j {
                assert(v@[i] == oldv[i]);
            } else if i == j && k > j {
                assert(v@[k] == oldv[k - 1]);
            } else if i < j && k > j {
                assert(v@[i] == oldv[i] && v@[k] == oldv[k - 1]);
            } else if i > j && k > j {
                assert(v@[i] == oldv[i - 1] && v@[k] == oldv[k - 1]);
            }
        }
    }
}

/// Deduplicates and sorts a collection of cells into a canonical,
/// strictly increasing order.
pub fn normalize_cells(cells: &Vec<(usize, usize)>) -> (out: Vec<(usize, usize)>)
    ensures
        sorted_cells(out@),
        forall|y: (usize, usize)| #[trigger] out@.contains(y) <==> cells@.contains(y),
{
    let mut out: Vec<(usize, usize)> = Vec::new();
    let mut i: usize = 0;
    while i < cells.len()
        invariant
            i <= cells@.len(),
            sorted_cells(out@),
            forall|y: (usize, usize)|
                #[trigger] out@.contains(y) <==> cells@.subrange(0, i as int).contains(y),
        decreases cells@.len() - i,
    {
        let ghost prefix = cells@.subrange(0, i as int);
        insert_sorted(&mut out, cells[i]);
        proof {
            let next = cells@.subrange(0, i + 1 as int);
            assert(next.drop_last() =~= prefix);
            assert forall|y: (usize, usize)|
                #[trigger] out@.contains(y) implies next.contains(y) by {
                if y == cells@[i as int] {
                    assert(next[i as int] == y);
                } else {
                    let k = choose|k: int| 0 <= k < prefix.len() && prefix[k] == y;
                    assert(next[k] == y);
                }
            }
            assert forall|y: (usize, usize)|
                next.contains(y) implies #[trigger] out@.contains(y) by {
                let k = choose|k: int| 0 <= k < next.len() && next[k] == y;
                if k < i {
                    assert(prefix[k] == y);
                } else {
                    assert(y == cells@[i as int]);
                }
            }
        }
        i = i + 1;
    }
    proof {
        assert(cells@.subrange(0, cells@.len() as int) =~= cells@);
    }
    out
}

/// Deduplicates and sorts a collection of signed cells into a canonical,
/// strictly increasing order.
pub fn normalize_signed_cells(cells: &Vec<(isize, isize)>) -> (out: Vec<(isize, isize)>)
    ensures
        sorted_signed_cells(out@),
        forall|y: (isize, isize)| #[trigger] out@.contains(y) <==> cells@.contains(y),
{
    let mut out: Vec<(isize, isize)> = Vec::new();
    let mut i: usize = 0;
    while i < cells.len()
        invariant
            i <= cells@.len(),
            sorted_signed_cells(out@),
            forall|y: (isize, isize)|
                #[trigger] out@.contains(y) <==> cells@.subrange(0, i as int).contains(y),
        decreases cells@.len() - i,
    {
        let ghost prefix = cells@.subrange(0, i as int);
        insert_sorted_signed(&mut out, cells[i]);
        proof {
            let next = cells@.subrange(0, i + 1 as int);
            assert(next.drop_last() =~= prefix);
            assert forall|y: (isize, isize)|
                #[trigger] out@.contains(y) implies next.contains(y) by {
                if y == cells@[i as int] {
                    assert(next[i as int] == y);
                } else {
                    let k = choose|k: int| 0 <= k < prefix.len() && prefix[k] == y;
                    assert(next[k] == y);
                }
            }
            assert forall|y: (isize, isize)|
                next.contains(y) implies #[trigger] out@.contains(y) by {
                let k = choose|k: int| 0 <= k < next.len() && next[k] == y;
                if k < i {
                    assert(prefix[k] == y);
                } else {
                    assert(y == cells@[i as int]);
                }
            }
        }
        i = i + 1;
    }
    proof {
        assert(cells@.subrange(0, cells@.len() as int) =~= cells@);
    }
    out
}

/// Whether a cell occurs in a vector of cells.
pub fn contains_cell(v: &Vec<(usize, usize)>, x: (usize, usize)) -> (r: bool)
    ensures
        r == v@.contains(x),
{
    let mut i: usize = 0;
    while i < v.len()
        invariant
            i <= v@.len(),
            forall|k: int| 0 <= k < i ==> #[trigger] v@[k] != x,
        decreases v@.len() - i,
    {
        let c = v[i];
        if c.0 == x.0 && c.1 == x.1 {
            return true;
        }
        i = i + 1;
    }
    false
}

/// Keeps, in their incoming order, the open cells that are not yet
/// finalized: an open entry for a finalized cell is a transient queue
/// artifact, not true frontier state.
pub fn collect_open_nodes(
    open_nodes: &Vec<(usize, usize)>,
    visited: &Vec<(usize, usize)>,
) -> (out: Vec<(usize, usize)>)
    ensures
        out@ == open_nodes@.filter(|x: (usize, usize)| !visited@.contains(x)),
{
    let mut out: Vec<(usize, usize)> = Vec::new();
    let mut i: usize = 0;
    proof {
        reveal(Seq::filter);
        assert(open_nodes@.subrange(0, 0) =~= Seq::<(usize, usize)>::empty());
    }
    while i < open_nodes.len()
        invariant
            i <= open_nodes@.len(),
            out@ == open_nodes@.subrange(0, i as int).filter(
                |x: (usize, usize)| !visited@.contains(x),
            ),
        decreases open_nodes@.len() - i,
    {
        let c = open_nodes[i];
        let skip = contains_cell(visited, c);
        if !skip {
            out.push(c);
        }
        proof {
            reveal(Seq::filter);
            let pred = |x: (usize, usize)| !visited@.contains(x);
            let next = open_nodes@.subrange(0, i + 1 as int);
            assert(next.drop_last() =~= open_nodes@.subrange(0, i as int));
            assert(next.last() == c);
        }
        i = i + 1;
    }
    proof {
        assert(open_nodes@.subrange(0, open_nodes@.len() as int) =~= open_nodes@);
    }
    out
}

/// Builds one normalized snapshot: visited and blocked are deduplicated
/// and sorted, the open set is filtered down to true frontier cells, and
/// the remaining fields are carried through unchanged.
pub fn build_step(
    step_index: usize,
    current: (usize, usize),
    visited: &Vec<(usize, usize)>,
    open_nodes: &Vec<(usize, usize)>,
    blocked: &Vec<(isize, isize)>,
    is_goal: bool,
) -> (s: SearchStep)
    ensures
        s.step_index == step_index,
        s.current == current,
        s.is_goal == is_goal,
        sorted_cells(s.visited@),
        forall|y: (usize, usize)| #[trigger] s.visited@.contains(y) <==> visited@.contains(y),
        s.open_nodes@ == open_nodes@.filter(|x: (usize, usize)| !visited@.contains(x)),
        sorted_signed_cells(s.blocked@),
        forall|y: (isize, isize)| #[trigger] s.blocked@.contains(y) <==> blocked@.contains(y),
{
    let visited_vec = normalize_cells(visited);
    let open_filtered = collect_open_nodes(open_nodes, visited);
    let blocked_vec = normalize_signed_cells(blocked);
    SearchStep {
        step_index,
        current,
        visited: visited_vec,
        open_nodes: open_filtered,
        blocked: blocked_vec,
        is_goal,
    }
}

/// Normalizes the raw working sets into one snapshot and hands it to the
/// observer, when one is listening; does nothing otherwise.
pub fn emit_step<O: StepObserver>(
    observer: &mut O,
    step_index: usize,
    current: (usize, usize),
    visited: &Vec<(usize, usize)>,
    open_nodes: &Vec<(usize, usize)>,
    blocked: &Vec<(isize, isize)>,
    is_goal: bool,
) {
    if observer.active() {
        let step = build_step(step_index, current, visited, open_nodes, blocked, is_goal);
        observer.on_step(step);
    }
}

} // verus!
