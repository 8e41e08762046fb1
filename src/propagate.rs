//! The propagation loop: filter and reflect every clue, pass after pass,
//! until the board is complete or a pass deduces nothing.

use vstd::prelude::*;
use crate::board::{
    Board, Celltype, SolveError, col_of, complete, consistent, deduce, draws, extends,
    lemma_step_keeps_solution, line_of, reflected, reflection_writes, row_of, square, surviving,
    valid_index,
};
use crate::hint::{Hint, all_placements};

verus! {

/// How a run of propagation ended.
#[derive(PartialEq, Eq, Structural, Clone, Copy, Debug)]
pub enum SolveState {
    /// Every cell is known.
    Solved,
    /// A full pass deduced nothing and some cell is still unknown.
    Stuck,
}

/// Number of unknown cells in a row.
pub open spec fn row_unknowns(row: Seq<Celltype>) -> nat
    decreases row.len(),
{
    if row.len() == 0 {
        0
    } else {
        row_unknowns(row.drop_last()) + if row.last() == Celltype::NoInfo {
            1nat
        } else {
            0nat
        }
    }
}

/// Number of unknown cells in a grid.
pub open spec fn unknowns(g: Seq<Seq<Celltype>>) -> nat
    decreases g.len(),
{
    if g.len() == 0 {
        0
    } else {
        unknowns(g.drop_last()) + row_unknowns(g.last())
    }
}

/// `h` has the shape of `g` and keeps every cell that `g` knows.
pub open spec fn refines(g: Seq<Seq<Celltype>>, h: Seq<Seq<Celltype>>) -> bool {
    &&& h.len() == g.len()
    &&& forall|r: int| 0 <= r < g.len() ==> #[trigger] h[r].len() == g[r].len()
    &&& forall|r: int, c: int|
        0 <= r < g.len() && 0 <= c < g[r].len() && g[r][c] != Celltype::NoInfo ==> h[r][c]
            == g[r][c]
}

proof fn lemma_row_unknowns(a: Seq<Celltype>, b: Seq<Celltype>)
    requires
        a.len() == b.len(),
        forall|c: int| 0 <= c < a.len() && a[c] != Celltype::NoInfo ==> b[c] == a[c],
    ensures
        row_unknowns(b) <= row_unknowns(a),
        (exists|c: int|
            0 <= c < a.len() && a[c] == Celltype::NoInfo && b[c] != Celltype::NoInfo)
            ==> row_unknowns(b) < row_unknowns(a),
    decreases a.len(),
{
    if a.len() > 0 {
        let n = a.len() - 1;
        lemma_row_unknowns(a.drop_last(), b.drop_last());
        if exists|c: int| 0 <= c < a.len() && a[c] == Celltype::NoInfo && b[c] != Celltype::NoInfo {
            let c = choose|c: int|
                0 <= c < a.len() && a[c] == Celltype::NoInfo && b[c] != Celltype::NoInfo;
            if c < n {
                assert(a.drop_last()[c] == a[c] && b.drop_last()[c] == b[c]);
            }
        }
    }
}

/// A grid that refines another has no more unknown cells, and strictly fewer
/// where some unknown cell became known.
pub proof fn lemma_unknowns_shrink(g: Seq<Seq<Celltype>>, h: Seq<Seq<Celltype>>)
    requires
        refines(g, h),
    ensures
        unknowns(h) <= unknowns(g),
        (exists|r: int, c: int|
            0 <= r < g.len() && 0 <= c < g[r].len() && g[r][c] == Celltype::NoInfo && h[r][c]
                != Celltype::NoInfo) ==> unknowns(h) < unknowns(g),
    decreases g.len(),
{
    if g.len() > 0 {
        let n = g.len() - 1;
        let g1 = g.drop_last();
        let h1 = h.drop_last();
        assert forall|r: int| 0 <= r < g1.len() implies #[trigger] h1[r].len() == g1[r].len() by {
            assert(h[r].len() == g[r].len());
        }
        lemma_unknowns_shrink(g1, h1);
        assert(h[n].len() == g[n].len());
        lemma_row_unknowns(g[n], h[n]);
        if exists|r: int, c: int|
            0 <= r < g.len() && 0 <= c < g[r].len() && g[r][c] == Celltype::NoInfo && h[r][c]
                != Celltype::NoInfo {
            let (r, c) = choose|r: int, c: int|
                0 <= r < g.len() && 0 <= c < g[r].len() && g[r][c] == Celltype::NoInfo && h[r][c]
                    != Celltype::NoInfo;
            if r < n {
                assert(g1[r] == g[r] && h1[r] == h[r]);
            }
        }
    }
}

/// Reflection keeps every known cell, and where it writes, it lowers the
/// number of unknown cells.
pub proof fn lemma_reflection_progress(g: Seq<Seq<Celltype>>, idx: int, cands: Seq<u32>)
    requires
        square(g),
        valid_index(g.len() as int, idx),
    ensures
        refines(g, reflected(g, idx, cands)),
        reflection_writes(line_of(g, idx), cands) ==> unknowns(reflected(g, idx, cands))
            < unknowns(g),
{
    let h = reflected(g, idx, cands);
    assert forall|r: int| 0 <= r < g.len() implies #[trigger] h[r].len() == g[r].len() by {}
    lemma_unknowns_shrink(g, h);
    if reflection_writes(line_of(g, idx), cands) {
        let p = choose|p: int|
            0 <= p < line_of(g, idx).len() && line_of(g, idx)[p] == Celltype::NoInfo
                && #[trigger] crate::board::deduce(line_of(g, idx)[p], cands, p)
                != Celltype::NoInfo;
        let r = row_of(idx, p);
        let c = col_of(idx, p);
        assert(g[r].len() == g.len());
        assert(g[r][c] == Celltype::NoInfo && h[r][c] != Celltype::NoInfo);
    }
}

/// Hint `new` keeps the identity of `old`, and a subset of its candidates.
pub open spec fn hint_narrowed(old: Hint, new: Hint) -> bool {
    &&& new.index == old.index
    &&& new.numbers == old.numbers
    &&& new.remaining_sum == old.remaining_sum
    &&& new.candidates@.len() <= old.candidates@.len()
    &&& forall|m: u32| new.candidates@.contains(m) ==> old.candidates@.contains(m)
}

/// Each hint of `new` narrows the one of `old` at its place.
pub open spec fn hints_narrowed(old: Seq<Hint>, new: Seq<Hint>) -> bool {
    &&& new.len() == old.len()
    &&& forall|i: int| 0 <= i < old.len() ==> hint_narrowed(old[i], #[trigger] new[i])
}

/// Some candidate of `h` draws the line of `sol` that `h` is the clue of.
pub open spec fn hint_admits(sol: Seq<Seq<Celltype>>, h: Hint) -> bool {
    exists|m: u32| h.candidates@.contains(m) && #[trigger] draws(m, line_of(sol, h.index as int))
}

/// Every clue of `hints` has a candidate that draws its line of `sol`.
pub open spec fn admits(sol: Seq<Seq<Celltype>>, hints: Seq<Hint>) -> bool {
    forall|i: int| 0 <= i < hints.len() ==> hint_admits(sol, #[trigger] hints[i])
}

/// Every hint names a line of an `n`-sized board.
pub open spec fn indices_valid(hints: Seq<Hint>, n: int) -> bool {
    forall|i: int| 0 <= i < hints.len() ==> valid_index(n, #[trigger] hints[i].index as int)
}

/// Clue `h` can deduce nothing more on `g`: each of its candidates agrees with
/// the line, and reflecting them writes no cell.
pub open spec fn settled(g: Seq<Seq<Celltype>>, h: Hint) -> bool {
    &&& forall|j: int|
        0 <= j < h.candidates@.len() ==> consistent(
            #[trigger] h.candidates@[j],
            line_of(g, h.index as int),
        )
    &&& !reflection_writes(line_of(g, h.index as int), h.candidates@)
}

/// One filter-and-reflect step of every clue of `hints`, in order. Returns
/// whether a cell was written, or the first contradiction met.
pub fn sweep(board: &mut Board, hints: &mut Vec<Hint>) -> (r: Result<bool, SolveError>)
    requires
        old(board).wf(),
        old(board)@.len() <= 32,
        indices_valid(old(hints)@, old(board)@.len() as int),
    ensures
        final(board).wf(),
        refines(old(board)@, final(board)@),
        hints_narrowed(old(hints)@, final(hints)@),
        r matches Ok(changed) ==> (if changed {
            unknowns(final(board)@) < unknowns(old(board)@)
        } else {
            final(board)@ == old(board)@ && forall|j: int|
                0 <= j < final(hints)@.len() ==> settled(final(board)@, #[trigger] final(hints)@[j])
        }),
        r matches Err(e) ==> (e matches SolveError::Contradiction { index, line } && exists|i: int|
            0 <= i < final(hints)@.len() && final(hints)@[i].index == index
                && final(hints)@[i].candidates@.len() == 0),
        forall|sol: Seq<Seq<Celltype>>|
            #[trigger] extends(old(board)@, sol) && admits(sol, old(hints)@) ==> r.is_ok()
                && extends(final(board)@, sol) && admits(sol, final(hints)@),
{
    let ghost g0 = board@;
    let ghost h0 = hints@;
    let mut changed = false;
    let mut i: usize = 0;
    while i < hints.len()
        invariant
            g0 == old(board)@,
            h0 == old(hints)@,
            board.wf(),
            board@.len() == g0.len(),
            g0.len() <= 32,
            indices_valid(h0, g0.len() as int),
            i <= hints@.len(),
            refines(g0, board@),
            hints_narrowed(h0, hints@),
            if changed {
                unknowns(board@) < unknowns(g0)
            } else {
                board@ == g0 && forall|j: int|
                    0 <= j < i ==> settled(board@, #[trigger] hints@[j])
            },
            forall|sol: Seq<Seq<Celltype>>|
                #[trigger] extends(g0, sol) && admits(sol, h0) ==> extends(board@, sol) && admits(
                    sol,
                    hints@,
                ),
        decreases hints@.len() - i,
    {
        let ghost gb = board@;
        let ghost hb = hints@;
        assert(valid_index(g0.len() as int, h0[i as int].index as int));
        board.filtering_candidate(&mut hints[i]);
        proof {
            crate::board::lemma_filter_shrinks(hb[i as int].candidates@, line_of(gb, hb[i as int].index as int));
            assert forall|j: int| 0 <= j < h0.len() implies hint_narrowed(h0[j], #[trigger] hints@[j]) by {
                if j != i {
                    assert(hints@[j] == hb[j]);
                } else {
                    assert(hint_narrowed(h0[j], hb[j]));
                    assert forall|m: u32|
                        hints@[j].candidates@.contains(m) implies h0[j].candidates@.contains(m) by {
                        assert(hb[j].candidates@.contains(m));
                    }
                }
            }
        }
        assert(hints_narrowed(h0, hints@));
        let ghost hf = hints@;
        let res = board.reflection_candidate_info(&hints[i]);
        assert(hints@ == hf);
        let ghost idx = hb[i as int].index as int;
        assert forall|sol: Seq<Seq<Celltype>>| #[trigger]
            extends(g0, sol) && admits(sol, h0) implies hints@[i as int].candidates@.len() > 0
            && extends(reflected(gb, idx, hints@[i as int].candidates@), sol) && admits(sol, hints@) by {
            assert(hint_admits(sol, hb[i as int]));
            let m = choose|m: u32|
                hb[i as int].candidates@.contains(m) && #[trigger] draws(m, line_of(sol, idx));
            lemma_step_keeps_solution(gb, idx, hb[i as int].candidates@, sol, m);
            assert forall|j: int| 0 <= j < hints@.len() implies hint_admits(sol, #[trigger] hints@[j]) by {
                if j != i {
                    assert(hints@[j] == hb[j]);
                } else {
                    assert(hints@[j].candidates@.contains(m) && draws(m, line_of(sol, idx)));
                }
            }
        }
        match res {
            Err(e) => {
                assert(board@ =~~= gb);
                return Err(e);
            },
            Ok(c) => {
                proof {
                    lemma_reflection_progress(gb, hints@[i as int].index as int, hints@[i as int].candidates@);
                    lemma_refines_trans(g0, gb, board@);
                    if c {
                        lemma_unknowns_shrink(g0, gb);
                    } else {
                        assert(board@ =~~= gb) by {
                            lemma_no_write_no_change(gb, hints@[i as int].index as int, hints@[i as int].candidates@);
                        }
                    }
                }
                proof {
                    if !changed && !c {
                        let line = line_of(gb, hints@[i as int].index as int);
                        assert forall|j: int| 0 <= j < hints@[i as int].candidates@.len() implies consistent(
                            #[trigger] hints@[i as int].candidates@[j],
                            line,
                        ) by {
                            assert(hints@[i as int].candidates@.contains(hints@[i as int].candidates@[j]));
                        }
                        assert(settled(board@, hints@[i as int]));
                        assert forall|j: int| 0 <= j < i + 1 implies settled(board@, #[trigger] hints@[j]) by {
                            if j < i {
                                assert(hints@[j] == hb[j]);
                            }
                        }
                    }
                }
                if c {
                    changed = true;
                }
            },
        }
        i = i + 1;
    }
    Ok(changed)
}

/// Filtering and reflecting a clue twice in a row: the second time keeps
/// every candidate and writes no cell.
pub proof fn lemma_step_idempotent(g: Seq<Seq<Celltype>>, idx: int, cands: Seq<u32>)
    requires
        square(g),
        g.len() <= 32,
        valid_index(g.len() as int, idx),
    ensures
        ({
            let c1 = surviving(cands, line_of(g, idx));
            let g1 = reflected(g, idx, c1);
            &&& surviving(c1, line_of(g1, idx)) == c1
            &&& !reflection_writes(line_of(g1, idx), c1)
        }),
{
    let line0 = line_of(g, idx);
    let c1 = surviving(cands, line0);
    let g1 = reflected(g, idx, c1);
    let line1 = line_of(g1, idx);
    crate::board::lemma_filter_shrinks(cands, line0);
    assert forall|p: int| 0 <= p < line1.len() implies #[trigger] line1[p] == deduce(line0[p], c1, p) by {
        assert(g[row_of(idx, p)].len() == g.len());
    }
    assert forall|j: int| 0 <= j < c1.len() implies consistent(#[trigger] c1[j], line1) by {
        assert(c1.contains(c1[j]));
        assert(consistent(c1[j], line0));
    }
    crate::board::lemma_surviving_all(c1, line1);
    if reflection_writes(line1, c1) {
        let p = choose|p: int|
            0 <= p < line1.len() && line1[p] == Celltype::NoInfo && #[trigger] deduce(line1[p], c1, p)
                != Celltype::NoInfo;
        assert(line1[p] == deduce(line0[p], c1, p));
    }
}

/// Narrowing hints twice is narrowing them once.
proof fn lemma_narrowed_trans(a: Seq<Hint>, b: Seq<Hint>, c: Seq<Hint>)
    requires
        hints_narrowed(a, b),
        hints_narrowed(b, c),
    ensures
        hints_narrowed(a, c),
{
    assert forall|i: int| 0 <= i < a.len() implies hint_narrowed(a[i], #[trigger] c[i]) by {
        assert(hint_narrowed(a[i], b[i]));
        assert(hint_narrowed(b[i], c[i]));
        assert forall|m: u32| c[i].candidates@.contains(m) implies a[i].candidates@.contains(m) by {
            assert(b[i].candidates@.contains(m));
        }
    }
}

/// Runs passes of `sweep` over the row clues and then the column clues until
/// the board is complete (`Solved`) or a pass writes nothing (`Stuck`). Stops
/// at the first contradiction.
pub fn propagate_logic(board: &mut Board, row_hints: &mut Vec<Hint>, col_hints: &mut Vec<Hint>) -> (r:
    Result<SolveState, SolveError>)
    requires
        old(board).wf(),
        old(board)@.len() <= 32,
        indices_valid(old(row_hints)@, old(board)@.len() as int),
        indices_valid(old(col_hints)@, old(board)@.len() as int),
    ensures
        final(board).wf(),
        refines(old(board)@, final(board)@),
        hints_narrowed(old(row_hints)@, final(row_hints)@),
        hints_narrowed(old(col_hints)@, final(col_hints)@),
        r == Ok::<SolveState, SolveError>(SolveState::Solved) ==> complete(final(board)@),
        r == Ok::<SolveState, SolveError>(SolveState::Stuck) ==> !complete(final(board)@)
            && (forall|j: int|
            0 <= j < final(row_hints)@.len() ==> settled(final(board)@, #[trigger] final(row_hints)@[j]))
            && (forall|j: int|
            0 <= j < final(col_hints)@.len() ==> settled(final(board)@, #[trigger] final(col_hints)@[j])),
        r matches Err(e) ==> (e matches SolveError::Contradiction { index, line } && ((exists|i: int|
            0 <= i < final(row_hints)@.len() && final(row_hints)@[i].index == index
                && final(row_hints)@[i].candidates@.len() == 0) || (exists|i: int|
            0 <= i < final(col_hints)@.len() && final(col_hints)@[i].index == index
                && final(col_hints)@[i].candidates@.len() == 0))),
        forall|sol: Seq<Seq<Celltype>>|
            #[trigger] extends(old(board)@, sol) && admits(sol, old(row_hints)@) && admits(
                sol,
                old(col_hints)@,
            ) ==> r.is_ok() && extends(final(board)@, sol) && (r == Ok::<SolveState, SolveError>(
                SolveState::Solved,
            ) ==> final(board)@ == sol),
{
    let ghost g0 = board@;
    let ghost r0 = row_hints@;
    let ghost c0 = col_hints@;
    loop
        invariant
            g0 == old(board)@,
            r0 == old(row_hints)@,
            c0 == old(col_hints)@,
            board.wf(),
            board@.len() == g0.len(),
            g0.len() <= 32,
            indices_valid(r0, g0.len() as int),
            indices_valid(c0, g0.len() as int),
            refines(g0, board@),
            hints_narrowed(r0, row_hints@),
            hints_narrowed(c0, col_hints@),
            forall|sol: Seq<Seq<Celltype>>|
                #[trigger] extends(g0, sol) && admits(sol, r0) && admits(sol, c0) ==> extends(
                    board@,
                    sol,
                ) && admits(sol, row_hints@) && admits(sol, col_hints@),
        decreases unknowns(board@),
    {
        let ghost before = board@;
        let ghost rb = row_hints@;
        let ghost cb = col_hints@;
        assert(indices_valid(rb, g0.len() as int)) by {
            assert forall|i: int| 0 <= i < rb.len() implies valid_index(g0.len() as int, #[trigger] rb[i].index as int) by {
                assert(hint_narrowed(r0[i], rb[i]));
            }
        }
        let rows_changed = match sweep(board, row_hints) {
            Ok(c) => c,
            Err(e) => {
                proof {
                    lemma_refines_trans(g0, before, board@);
                    lemma_narrowed_trans(r0, rb, row_hints@);
                    assert forall|sol: Seq<Seq<Celltype>>| #[trigger]
                        extends(g0, sol) && admits(sol, r0) && admits(sol, c0) implies false by {
                        assert(extends(before, sol));
                    }
                }
                return Err(e);
            },
        };
        let ghost mid = board@;
        let ghost rm = row_hints@;
        proof {
            lemma_refines_trans(g0, before, mid);
            lemma_narrowed_trans(r0, rb, rm);
        }
        assert(indices_valid(cb, g0.len() as int)) by {
            assert forall|i: int| 0 <= i < cb.len() implies valid_index(g0.len() as int, #[trigger] cb[i].index as int) by {
                assert(hint_narrowed(c0[i], cb[i]));
            }
        }
        let cols_changed = match sweep(board, col_hints) {
            Ok(c) => c,
            Err(e) => {
                proof {
                    lemma_refines_trans(g0, mid, board@);
                    lemma_narrowed_trans(c0, cb, col_hints@);
                    assert forall|sol: Seq<Seq<Celltype>>| #[trigger]
                        extends(g0, sol) && admits(sol, r0) && admits(sol, c0) implies false by {
                        assert(extends(before, sol));
                        assert(extends(mid, sol));
                    }
                }
                return Err(e);
            },
        };
        proof {
            lemma_refines_trans(g0, mid, board@);
            lemma_narrowed_trans(c0, cb, col_hints@);
            lemma_unknowns_shrink(before, mid);
            lemma_unknowns_shrink(mid, board@);
            assert forall|sol: Seq<Seq<Celltype>>| #[trigger]
                extends(g0, sol) && admits(sol, r0) && admits(sol, c0) implies extends(board@, sol)
                && admits(sol, row_hints@) && admits(sol, col_hints@) by {
                assert(extends(before, sol));
                assert(extends(mid, sol));
            }
        }
        if board.is_complete() {
            proof {
                assert forall|sol: Seq<Seq<Celltype>>| #[trigger]
                    extends(g0, sol) && admits(sol, r0) && admits(sol, c0) implies board@ == sol by {
                    lemma_complete_extends(board@, sol);
                }
            }
            return Ok(SolveState::Solved);
        }
        if !rows_changed && !cols_changed {
            return Ok(SolveState::Stuck);
        }
    }
}

/// Every hint is well formed.
pub open spec fn hints_ready(hints: Seq<Hint>) -> bool {
    forall|i: int| 0 <= i < hints.len() ==> (#[trigger] hints[i]).wf()
}

/// Replaces the candidates of every clue by all placements of its blocks on
/// a line of `size` cells.
pub fn generate_all(hints: &mut Vec<Hint>, size: usize)
    requires
        size <= 32,
        hints_ready(old(hints)@),
    ensures
        final(hints)@.len() == old(hints)@.len(),
        forall|i: int|
            0 <= i < old(hints)@.len() ==> {
                &&& (#[trigger] final(hints)@[i]).wf()
                &&& final(hints)@[i].index == old(hints)@[i].index
                &&& final(hints)@[i].numbers == old(hints)@[i].numbers
                &&& final(hints)@[i].candidates@ == all_placements(
                    old(hints)@[i].numbers@,
                    size as int,
                )
            },
{
    let ghost h0 = hints@;
    let mut i: usize = 0;
    while i < hints.len()
        invariant
            size <= 32,
            h0 == old(hints)@,
            hints@.len() == h0.len(),
            i <= h0.len(),
            hints_ready(hints@),
            forall|j: int| i <= j < h0.len() ==> #[trigger] hints@[j] == h0[j],
            forall|j: int|
                0 <= j < i ==> {
                    &&& (#[trigger] hints@[j]).wf()
                    &&& hints@[j].index == h0[j].index
                    &&& hints@[j].numbers == h0[j].numbers
                    &&& hints@[j].candidates@ == all_placements(h0[j].numbers@, size as int)
                },
        decreases h0.len() - i,
    {
        let ghost hb = hints@;
        assert(hb[i as int].wf());
        let hint = &mut hints[i];
        hint.candidates = Vec::new();
        hint.generate_patterns(0, 0, size, 0);
        assert(hints@[i as int].candidates@ =~= all_placements(h0[i as int].numbers@, size as int));
        assert forall|j: int| 0 <= j < hints@.len() implies (#[trigger] hints@[j]).wf() by {
            if j != i {
                assert(hints@[j] == hb[j]);
            }
        }
        assert forall|j: int| 0 <= j < i + 1 implies {
            &&& (#[trigger] hints@[j]).wf()
            &&& hints@[j].index == h0[j].index
            &&& hints@[j].numbers == h0[j].numbers
            &&& hints@[j].candidates@ == all_placements(h0[j].numbers@, size as int)
        } by {
            if j != i {
                assert(hints@[j] == hb[j]);
            }
        }
        i = i + 1;
    }
}

/// `sol` is a complete `n` by `n` grid whose every row and column is drawn
/// by some placement of its clue.
pub open spec fn solution_of(sol: Seq<Seq<Celltype>>, rows: Seq<Hint>, cols: Seq<Hint>, n: int) -> bool {
    &&& sol.len() == n
    &&& square(sol)
    &&& complete(sol)
    &&& forall|i: int| 0 <= i < rows.len() ==> placeable(sol, #[trigger] rows[i], n)
    &&& forall|i: int| 0 <= i < cols.len() ==> placeable(sol, #[trigger] cols[i], n)
}

/// Some placement of the blocks of `h` on a line of `n` cells draws the line of
/// `sol` that `h` is the clue of.
pub open spec fn placeable(sol: Seq<Seq<Celltype>>, h: Hint, n: int) -> bool {
    exists|m: u32|
        all_placements(h.numbers@, n).contains(m) && #[trigger] draws(m, line_of(sol, h.index as int))
}

/// Whether each hint of `hints` has an index in `lo..=hi`.
fn indices_in(hints: &Vec<Hint>, lo: isize, hi: isize) -> (r: bool)
    ensures
        r == forall|i: int| 0 <= i < hints@.len() ==> lo <= #[trigger] hints@[i].index <= hi,
{
    let mut i: usize = 0;
    while i < hints.len()
        invariant
            i <= hints@.len(),
            forall|j: int| 0 <= j < i ==> lo <= #[trigger] hints@[j].index <= hi,
        decreases hints@.len() - i,
    {
        if hints[i].index < lo || hints[i].index > hi {
            return false;
        }
        i = i + 1;
    }
    true
}

/// A full run on a `size` by `size` board: checks the clues against the size,
/// enumerates every clue's placements, then propagates. The clues are left
/// with their surviving candidates.
pub fn solve(size: usize, row_hints: &mut Vec<Hint>, col_hints: &mut Vec<Hint>) -> (r: Result<
    (SolveState, Board),
    SolveError,
>)
    requires
        size <= 32,
        hints_ready(old(row_hints)@),
        hints_ready(old(col_hints)@),
    ensures
        r matches Err(SolveError::HintCountMismatch) <==> (old(row_hints)@.len() != size
            || old(col_hints)@.len() != size),
        r matches Err(SolveError::HintIndexOutOfRange) <==> (old(row_hints)@.len() == size
            && old(col_hints)@.len() == size && !((forall|i: int|
            0 <= i < old(row_hints)@.len() ==> 1 <= #[trigger] old(row_hints)@[i].index <= size)
            && (forall|i: int|
            0 <= i < old(col_hints)@.len() ==> -(size as int) <= #[trigger] old(
                col_hints,
            )@[i].index <= -1))),
        r matches Ok((st, b)) ==> b.wf() && b@.len() == size && (st == SolveState::Solved
            ==> complete(b@)) && (st == SolveState::Stuck ==> !complete(b@)),
        r matches Ok((st, b)) ==> (forall|i: int|
            0 <= i < final(row_hints)@.len() ==> settled(b@, #[trigger] final(row_hints)@[i])
                || st == SolveState::Solved),
        r matches Ok((st, b)) ==> (forall|i: int|
            0 <= i < final(col_hints)@.len() ==> settled(b@, #[trigger] final(col_hints)@[i])
                || st == SolveState::Solved),
        r matches Err(SolveError::Contradiction { index, line }) ==> ((exists|i: int|
            0 <= i < final(row_hints)@.len() && final(row_hints)@[i].index == index
                && final(row_hints)@[i].candidates@.len() == 0) || (exists|i: int|
            0 <= i < final(col_hints)@.len() && final(col_hints)@[i].index == index
                && final(col_hints)@[i].candidates@.len() == 0)),
        r.is_ok() ==> forall|i: int, m: u32|
            0 <= i < final(row_hints)@.len() && #[trigger] final(row_hints)@[i].candidates@.contains(m)
                ==> all_placements(old(row_hints)@[i].numbers@, size as int).contains(m),
        forall|sol: Seq<Seq<Celltype>>|
            #[trigger] solution_of(sol, old(row_hints)@, old(col_hints)@, size as int) ==> !(r matches Err(
                SolveError::Contradiction { .. },
            )) && (r matches Ok((st, b)) ==> extends(b@, sol) && (st == SolveState::Solved ==> b@
                == sol)),
        r.is_ok() ==> forall|i: int, m: u32|
            0 <= i < final(col_hints)@.len() && #[trigger] final(col_hints)@[i].candidates@.contains(m)
                ==> all_placements(old(col_hints)@[i].numbers@, size as int).contains(m),
{
    if row_hints.len() != size || col_hints.len() != size {
        return Err(SolveError::HintCountMismatch);
    }
    let n = size as isize;
    if !indices_in(row_hints, 1, n) || !indices_in(col_hints, -n, -1) {
        return Err(SolveError::HintIndexOutOfRange);
    }
    let ghost r_in = row_hints@;
    let ghost c_in = col_hints@;
    generate_all(row_hints, size);
    generate_all(col_hints, size);
    let ghost rg = row_hints@;
    let ghost cg = col_hints@;
    let mut board = Board::new(size);
    assert forall|i: int| 0 <= i < rg.len() implies valid_index(size as int, #[trigger] rg[i].index as int) by {
        assert(r_in[i].index == rg[i].index);
    }
    assert forall|i: int| 0 <= i < cg.len() implies valid_index(size as int, #[trigger] cg[i].index as int) by {
        assert(c_in[i].index == cg[i].index);
    }
    let ghost g0 = board@;
    proof {
        assert forall|sol: Seq<Seq<Celltype>>| #[trigger]
            solution_of(sol, r_in, c_in, size as int) implies extends(g0, sol) && admits(sol, rg)
            && admits(sol, cg) by {
            assert forall|i: int| 0 <= i < rg.len() implies hint_admits(sol, #[trigger] rg[i]) by {
                assert(placeable(sol, r_in[i], size as int));
                assert(rg[i].wf());
                let m = choose|m: u32|
                    all_placements(r_in[i].numbers@, size as int).contains(m) && #[trigger] draws(
                        m,
                        line_of(sol, r_in[i].index as int),
                    );
                assert(rg[i].candidates@.contains(m));
            }
            assert forall|i: int| 0 <= i < cg.len() implies hint_admits(sol, #[trigger] cg[i]) by {
                assert(placeable(sol, c_in[i], size as int));
                assert(cg[i].wf());
                let m = choose|m: u32|
                    all_placements(c_in[i].numbers@, size as int).contains(m) && #[trigger] draws(
                        m,
                        line_of(sol, c_in[i].index as int),
                    );
                assert(cg[i].candidates@.contains(m));
            }
        }
    }
    match propagate_logic(&mut board, row_hints, col_hints) {
        Ok(st) => {
            proof {
                assert forall|i: int, m: u32|
                    0 <= i < row_hints@.len() && #[trigger] row_hints@[i].candidates@.contains(m)
                    implies all_placements(r_in[i].numbers@, size as int).contains(m) by {
                    assert(hint_narrowed(rg[i], row_hints@[i]));
                    assert(rg[i].candidates@.contains(m));
                }
                assert forall|i: int, m: u32|
                    0 <= i < col_hints@.len() && #[trigger] col_hints@[i].candidates@.contains(m)
                    implies all_placements(c_in[i].numbers@, size as int).contains(m) by {
                    assert(hint_narrowed(cg[i], col_hints@[i]));
                    assert(cg[i].candidates@.contains(m));
                }
            }
            Ok((st, board))
        },
        Err(e) => Err(e),
    }
}

/// A complete grid that a solution extends is that solution.
proof fn lemma_complete_extends(g: Seq<Seq<Celltype>>, sol: Seq<Seq<Celltype>>)
    requires
        square(g),
        complete(g),
        extends(g, sol),
    ensures
        g == sol,
{
    assert forall|r: int| 0 <= r < g.len() implies #[trigger] g[r] == sol[r] by {
        assert forall|c: int| 0 <= c < g.len() implies g[r][c] == sol[r][c] by {
            assert(sol[r][c] != Celltype::NoInfo);
        }
        assert(g[r].len() == g.len() && sol[r].len() == g.len());
        assert(g[r] =~= sol[r]);
    }
    assert(g =~= sol);
}

proof fn lemma_refines_trans(a: Seq<Seq<Celltype>>, b: Seq<Seq<Celltype>>, c: Seq<Seq<Celltype>>)
    requires
        refines(a, b),
        refines(b, c),
    ensures
        refines(a, c),
{
    assert forall|r: int| 0 <= r < a.len() implies #[trigger] c[r].len() == a[r].len() by {
        assert(b[r].len() == a[r].len());
    }
    assert forall|r: int, col: int|
        0 <= r < a.len() && 0 <= col < a[r].len() && a[r][col] != Celltype::NoInfo implies c[r][col]
        == a[r][col] by {
        assert(b[r].len() == a[r].len());
    }
}

/// Where reflection writes nothing, it leaves the grid as it was.
pub proof fn lemma_no_write_no_change(g: Seq<Seq<Celltype>>, idx: int, cands: Seq<u32>)
    requires
        square(g),
        valid_index(g.len() as int, idx),
        !reflection_writes(line_of(g, idx), cands),
    ensures
        reflected(g, idx, cands) == g,
{
    let h = reflected(g, idx, cands);
    assert forall|r: int| 0 <= r < g.len() implies #[trigger] h[r] == g[r] by {
        assert forall|c: int| 0 <= c < g[r].len() implies h[r][c] == g[r][c] by {
            if crate::board::on_line(idx, r, c) {
                let p = crate::board::line_pos(idx, r, c);
                assert(line_of(g, idx)[p] == g[r][c]);
                assert(!(line_of(g, idx)[p] == Celltype::NoInfo
                    && crate::board::deduce(line_of(g, idx)[p], cands, p) != Celltype::NoInfo));
            }
        }
        assert(h[r] =~= g[r]);
    }
    assert(h =~= g);
}

} // verus!
