//! The grid of tri-state cells, and the two steps that tie a clue to it:
//! filtering its candidates by the known cells, and writing back what all
//! surviving candidates agree on.

use vstd::prelude::*;
use crate::bits::{
    bit_at, check_bit, cursor_at, lemma_bit_and, lemma_bit_full_empty, lemma_bit_not, lemma_bit_or,
};
use crate::hint::Hint;

verus! {

/// The state of one cell.
#[derive(PartialEq, Eq, Structural, Clone, Copy, Debug)]
pub enum Celltype {
    /// Not deduced yet.
    NoInfo,
    /// Known to be empty.
    X,
    /// Known to be filled.
    O,
}

/// A square grid of cells, stored row by row.
pub struct Board {
    pub cells: Vec<Vec<Celltype>>,
}

/// Why a run stopped without an outcome.
#[derive(PartialEq, Eq, Clone, Debug)]
pub enum SolveError {
    /// The numbers of row and column clues differ from the board's size.
    HintCountMismatch,
    /// A row clue's index is not in `1..=n`, or a column clue's not in `-n..=-1`.
    HintIndexOutOfRange,
    /// Every candidate of the clue `index` was ruled out; `line` is the line it saw.
    Contradiction { index: isize, line: Vec<Celltype> },
}

impl View for Board {
    type V = Seq<Seq<Celltype>>;

    open spec fn view(&self) -> Seq<Seq<Celltype>> {
        Seq::new(self.cells@.len(), |r: int| self.cells@[r]@)
    }
}

/// Every row of `g` is as long as `g` has rows.
pub open spec fn square(g: Seq<Seq<Celltype>>) -> bool {
    forall|r: int| 0 <= r < g.len() ==> #[trigger] g[r].len() == g.len()
}

/// `idx` names a row (`1..=n`) or a column (`-n..=-1`) of an `n`-sized board.
pub open spec fn valid_index(n: int, idx: int) -> bool {
    idx != 0 && -n <= idx <= n
}

/// Row of position `p` on the line `idx`.
pub open spec fn row_of(idx: int, p: int) -> int {
    if idx > 0 {
        idx - 1
    } else {
        p
    }
}

/// Column of position `p` on the line `idx`.
pub open spec fn col_of(idx: int, p: int) -> int {
    if idx > 0 {
        p
    } else {
        -idx - 1
    }
}

/// Whether cell `(r, c)` lies on the line `idx`.
pub open spec fn on_line(idx: int, r: int, c: int) -> bool {
    if idx > 0 {
        r == idx - 1
    } else {
        c == -idx - 1
    }
}

/// Position of cell `(r, c)` along the line `idx`.
pub open spec fn line_pos(idx: int, r: int, c: int) -> int {
    if idx > 0 {
        c
    } else {
        r
    }
}

/// The cells of line `idx`, in order.
pub open spec fn line_of(g: Seq<Seq<Celltype>>, idx: int) -> Seq<Celltype> {
    Seq::new(g.len(), |p: int| g[row_of(idx, p)][col_of(idx, p)])
}

/// Whether mask `m` agrees with every known cell of `line`.
pub open spec fn consistent(m: u32, line: Seq<Celltype>) -> bool {
    forall|i: int|
        0 <= i < line.len() ==> (line[i] == Celltype::O ==> bit_at(m, i)) && (line[i]
            == Celltype::X ==> !bit_at(m, i))
}

/// The candidates that agree with `line`, in their order.
pub open spec fn surviving(cands: Seq<u32>, line: Seq<Celltype>) -> Seq<u32>
    decreases cands.len(),
{
    if cands.len() == 0 {
        seq![]
    } else {
        let rest = surviving(cands.drop_last(), line);
        if consistent(cands.last(), line) {
            rest.push(cands.last())
        } else {
            rest
        }
    }
}

/// Every candidate has position `p` filled.
pub open spec fn all_have(cands: Seq<u32>, p: int) -> bool {
    forall|j: int| 0 <= j < cands.len() ==> bit_at(#[trigger] cands[j], p)
}

/// No candidate has position `p` filled.
pub open spec fn none_have(cands: Seq<u32>, p: int) -> bool {
    forall|j: int| 0 <= j < cands.len() ==> !bit_at(#[trigger] cands[j], p)
}

/// What a cell at position `p` becomes once the candidates are reflected on it:
/// a known cell stays, an unknown one takes the value that all candidates share.
pub open spec fn deduce(cell: Celltype, cands: Seq<u32>, p: int) -> Celltype {
    if cell != Celltype::NoInfo {
        cell
    } else if all_have(cands, p) {
        Celltype::O
    } else if none_have(cands, p) {
        Celltype::X
    } else {
        Celltype::NoInfo
    }
}

/// The grid after reflecting `cands` onto line `idx`.
pub open spec fn reflected(g: Seq<Seq<Celltype>>, idx: int, cands: Seq<u32>) -> Seq<Seq<Celltype>> {
    Seq::new(
        g.len(),
        |r: int|
            Seq::new(
                g[r].len(),
                |c: int|
                    if on_line(idx, r, c) {
                        deduce(g[r][c], cands, line_pos(idx, r, c))
                    } else {
                        g[r][c]
                    },
            ),
    )
}

/// Whether reflecting `cands` onto `line` turns some unknown cell into a known one.
pub open spec fn reflection_writes(line: Seq<Celltype>, cands: Seq<u32>) -> bool {
    exists|p: int|
        0 <= p < line.len() && line[p] == Celltype::NoInfo && #[trigger] deduce(line[p], cands, p)
            != Celltype::NoInfo
}

/// No cell of `g` is unknown.
pub open spec fn complete(g: Seq<Seq<Celltype>>) -> bool {
    forall|r: int, c: int| 0 <= r < g.len() && 0 <= c < g[r].len() ==> g[r][c] != Celltype::NoInfo
}

/// Whether mask `m` agrees with every known cell of `line`.
pub fn fits_line(m: u32, line: &Vec<Celltype>) -> (r: bool)
    requires
        line@.len() <= 32,
    ensures
        r == consistent(m, line@),
{
    let mut p: usize = 0;
    while p < line.len()
        invariant
            p <= line@.len(),
            line@.len() <= 32,
            forall|i: int|
                0 <= i < p ==> (line@[i] == Celltype::O ==> bit_at(m, i)) && (line@[i]
                    == Celltype::X ==> !bit_at(m, i)),
        decreases line@.len() - p,
    {
        let cursor = cursor_at(p);
        let set = check_bit(m, cursor);
        match line[p] {
            Celltype::O => {
                if !set {
                    return false;
                }
            },
            Celltype::X => {
                if set {
                    return false;
                }
            },
            Celltype::NoInfo => {},
        }
        p = p + 1;
    }
    true
}

/// Where every candidate agrees with the line, filtering keeps them all.
pub proof fn lemma_surviving_all(cands: Seq<u32>, line: Seq<Celltype>)
    requires
        forall|j: int| 0 <= j < cands.len() ==> consistent(#[trigger] cands[j], line),
    ensures
        surviving(cands, line) == cands,
    decreases cands.len(),
{
    if cands.len() > 0 {
        lemma_surviving_all(cands.drop_last(), line);
        assert(cands.drop_last().push(cands.last()) =~= cands);
    }
}

/// Filtering keeps a subsequence: it never grows, and whatever it keeps was
/// there before, and agrees with the line.
pub proof fn lemma_filter_shrinks(cands: Seq<u32>, line: Seq<Celltype>)
    ensures
        surviving(cands, line).len() <= cands.len(),
        forall|m: u32| #[trigger]
            surviving(cands, line).contains(m) ==> cands.contains(m) && consistent(m, line),
    decreases cands.len(),
{
    if cands.len() > 0 {
        let rest = cands.drop_last();
        lemma_filter_shrinks(rest, line);
        assert forall|m: u32| #[trigger]
            surviving(cands, line).contains(m) implies cands.contains(m) && consistent(
            m,
            line,
        ) by {
            if surviving(rest, line).contains(m) {
                let j = choose|j: int| 0 <= j < rest.len() && rest[j] == m;
                assert(cands[j] == m);
            } else {
                assert(m == cands.last());
                assert(cands[cands.len() - 1] == m);
            }
        }
    }
}

/// Filtered against a line with no unknown cell, every surviving candidate
/// is that line, bit for bit.
pub proof fn lemma_filter_sound(cands: Seq<u32>, line: Seq<Celltype>)
    requires
        forall|i: int| 0 <= i < line.len() ==> line[i] != Celltype::NoInfo,
    ensures
        forall|m: u32, i: int|
            surviving(cands, line).contains(m) && 0 <= i < line.len() ==> (#[trigger] bit_at(
                m,
                i,
            ) <==> line[i] == Celltype::O),
{
    lemma_filter_shrinks(cands, line);
    assert forall|m: u32, i: int|
        surviving(cands, line).contains(m) && 0 <= i < line.len() implies (#[trigger] bit_at(
        m,
        i,
    ) <==> line[i] == Celltype::O) by {
        assert(consistent(m, line));
    }
}

/// Mask `m` draws `line` exactly: its bits are the filled cells.
pub open spec fn draws(m: u32, line: Seq<Celltype>) -> bool {
    forall|i: int| 0 <= i < line.len() ==> (bit_at(m, i) <==> line[i] == Celltype::O)
}

/// `sol` is a complete grid of the shape of `g` that keeps every known cell of `g`.
pub open spec fn extends(g: Seq<Seq<Celltype>>, sol: Seq<Seq<Celltype>>) -> bool {
    &&& sol.len() == g.len()
    &&& square(sol)
    &&& forall|r: int, c: int|
        0 <= r < sol.len() && 0 <= c < sol.len() ==> #[trigger] sol[r][c] != Celltype::NoInfo
            && (g[r][c] != Celltype::NoInfo ==> sol[r][c] == g[r][c])
}

/// A candidate that agrees with the line survives filtering.
pub proof fn lemma_surviving_keeps(cands: Seq<u32>, line: Seq<Celltype>, m: u32)
    requires
        cands.contains(m),
        consistent(m, line),
    ensures
        surviving(cands, line).contains(m),
    decreases cands.len(),
{
    let rest = cands.drop_last();
    if cands.last() == m {
        assert(surviving(cands, line).last() == m);
    } else {
        let j = choose|j: int| 0 <= j < cands.len() && cands[j] == m;
        assert(rest[j] == m);
        lemma_surviving_keeps(rest, line, m);
        let k = choose|k: int|
            0 <= k < surviving(rest, line).len() && surviving(rest, line)[k] == m;
        if consistent(cands.last(), line) {
            assert(surviving(cands, line)[k] == m);
        }
    }
}

/// One filter-and-reflect step on a grid that a solution extends, with a
/// candidate that draws the solution's line: that candidate survives, and the
/// solution still extends the grid after reflection.
pub proof fn lemma_step_keeps_solution(
    g: Seq<Seq<Celltype>>,
    idx: int,
    cands: Seq<u32>,
    sol: Seq<Seq<Celltype>>,
    m: u32,
)
    requires
        square(g),
        g.len() <= 32,
        valid_index(g.len() as int, idx),
        extends(g, sol),
        cands.contains(m),
        draws(m, line_of(sol, idx)),
    ensures
        surviving(cands, line_of(g, idx)).contains(m),
        extends(reflected(g, idx, surviving(cands, line_of(g, idx))), sol),
{
    let line = line_of(g, idx);
    let sline = line_of(sol, idx);
    assert forall|i: int| 0 <= i < line.len() implies (line[i] == Celltype::O ==> bit_at(m, i)) && (
    line[i] == Celltype::X ==> !bit_at(m, i)) by {
        assert(sol[row_of(idx, i)][col_of(idx, i)] != Celltype::NoInfo);
    }
    lemma_surviving_keeps(cands, line, m);
    let c1 = surviving(cands, line);
    let h = reflected(g, idx, c1);
    let k = choose|k: int| 0 <= k < c1.len() && c1[k] == m;
    assert forall|r: int, c: int| 0 <= r < sol.len() && 0 <= c < sol.len() implies #[trigger] sol[r][c]
        != Celltype::NoInfo && (h[r][c] != Celltype::NoInfo ==> sol[r][c] == h[r][c]) by {
        assert(g[r].len() == g.len());
        if on_line(idx, r, c) {
            let p = line_pos(idx, r, c);
            assert(sline[p] == sol[r][c]);
            if g[r][c] == Celltype::NoInfo {
                if all_have(c1, p) {
                    assert(bit_at(c1[k], p));
                } else if none_have(c1, p) {
                    assert(!bit_at(c1[k], p));
                }
            }
        }
    }
}

impl Board {
    /// The cell vectors form a square grid.
    pub open spec fn wf(&self) -> bool {
        square(self@)
    }

    /// A board of `size` by `size` unknown cells.
    pub fn new(size: usize) -> (r: Self)
        ensures
            r.wf(),
            r@.len() == size,
            forall|i: int, j: int|
                0 <= i < size && 0 <= j < size ==> r@[i][j] == Celltype::NoInfo,
    {
        let mut cells: Vec<Vec<Celltype>> = Vec::new();
        let mut i: usize = 0;
        while i < size
            invariant
                i <= size,
                cells@.len() == i,
                forall|a: int|
                    0 <= a < i ==> #[trigger] cells@[a]@ == Seq::new(
                        size as nat,
                        |c: int| Celltype::NoInfo,
                    ),
            decreases size - i,
        {
            let mut row: Vec<Celltype> = Vec::new();
            let mut j: usize = 0;
            while j < size
                invariant
                    j <= size,
                    row@ == Seq::new(j as nat, |c: int| Celltype::NoInfo),
                decreases size - j,
            {
                row.push(Celltype::NoInfo);
                j = j + 1;
                assert(row@ =~= Seq::new(j as nat, |c: int| Celltype::NoInfo));
            }
            cells.push(row);
            i = i + 1;
        }
        Board { cells }
    }

    /// Whether no cell is unknown.
    pub fn is_complete(&self) -> (r: bool)
        ensures
            r == complete(self@),
    {
        let mut i: usize = 0;
        while i < self.cells.len()
            invariant
                i <= self.cells@.len(),
                forall|a: int, c: int|
                    0 <= a < i && 0 <= c < self@[a].len() ==> self@[a][c] != Celltype::NoInfo,
            decreases self.cells@.len() - i,
        {
            let line = &self.cells[i];
            let mut j: usize = 0;
            while j < line.len()
                invariant
                    i < self.cells@.len(),
                    line@ == self@[i as int],
                    j <= line@.len(),
                    forall|c: int| 0 <= c < j ==> line@[c] != Celltype::NoInfo,
                decreases line@.len() - j,
            {
                if line[j] == Celltype::NoInfo {
                    return false;
                }
                j = j + 1;
            }
            i = i + 1;
        }
        true
    }

    /// Keeps only the candidates of `hint` that agree with the known cells of
    /// its line. A line with no known cell keeps every candidate.
    pub fn filtering_candidate(&self, hint: &mut Hint)
        requires
            self.wf(),
            self@.len() <= 32,
            valid_index(self@.len() as int, old(hint).index as int),
        ensures
            final(hint).index == old(hint).index,
            final(hint).numbers == old(hint).numbers,
            final(hint).remaining_sum == old(hint).remaining_sum,
            final(hint).candidates@ == surviving(
                old(hint).candidates@,
                line_of(self@, old(hint).index as int),
            ),
    {
        let line = self.copy_by_index(hint.index);
        let ghost cands = hint.candidates@;
        let mut any_known = false;
        let mut p: usize = 0;
        while p < line.len()
            invariant
                p <= line@.len(),
                any_known || forall|q: int| 0 <= q < p ==> line@[q] == Celltype::NoInfo,
            decreases line@.len() - p,
        {
            if line[p] != Celltype::NoInfo {
                any_known = true;
            }
            p = p + 1;
        }
        if !any_known {
            proof {
                lemma_surviving_all(cands, line@);
            }
            return ;
        }
        let mut kept: Vec<u32> = Vec::new();
        let mut i: usize = 0;
        while i < hint.candidates.len()
            invariant
                hint.candidates@ == cands,
                i <= cands.len(),
                line@.len() <= 32,
                kept@ == surviving(cands.take(i as int), line@),
            decreases cands.len() - i,
        {
            let m = hint.candidates[i];
            let ok = fits_line(m, &line);
            proof {
                assert(cands.take(i as int + 1).drop_last() =~= cands.take(i as int));
            }
            if ok {
                kept.push(m);
            }
            i = i + 1;
        }
        assert(cands.take(cands.len() as int) =~= cands);
        hint.candidates = kept;
    }

    /// Writes `state` into position `p` of line `idx` if that cell is unknown;
    /// returns whether it was. A known cell is left as it is.
    pub fn write_deduced_cell(&mut self, idx: isize, p: usize, state: Celltype) -> (r: bool)
        requires
            old(self).wf(),
            valid_index(old(self)@.len() as int, idx as int),
            p < old(self)@.len(),
            state != Celltype::NoInfo,
        ensures
            final(self).wf(),
            r == (line_of(old(self)@, idx as int)[p as int] == Celltype::NoInfo),
            final(self)@ == if r {
                old(self)@.update(
                    row_of(idx as int, p as int),
                    old(self)@[row_of(idx as int, p as int)].update(col_of(idx as int, p as int), state),
                )
            } else {
                old(self)@
            },
    {
        let r = if idx > 0 {
            (idx - 1) as usize
        } else {
            p
        };
        let c = if idx > 0 {
            p
        } else {
            (-(idx + 1)) as usize
        };
        if self.cells[r][c] != Celltype::NoInfo {
            return false;
        }
        let ghost g = self@;
        self.cells[r][c] = state;
        assert(self@ =~~= g.update(r as int, g[r as int].update(c as int, state)));
        true
    }

    /// Writes onto line `hint.index` every unknown cell on which all surviving
    /// candidates agree: filled where all have the bit, empty where none has it.
    /// Returns whether a cell was written, or a contradiction when no candidate
    /// is left.
    pub fn reflection_candidate_info(&mut self, hint: &Hint) -> (r: Result<bool, SolveError>)
        requires
            old(self).wf(),
            old(self)@.len() <= 32,
            valid_index(old(self)@.len() as int, hint.index as int),
        ensures
            final(self).wf(),
            r.is_err() <==> hint.candidates@.len() == 0,
            r.is_err() ==> final(self)@ == old(self)@,
            r matches Err(e) ==> (e matches SolveError::Contradiction { index, line } && index
                == hint.index && line@ == line_of(old(self)@, hint.index as int)),
            r matches Ok(changed) ==> final(self)@ == reflected(
                old(self)@,
                hint.index as int,
                hint.candidates@,
            ) && changed == reflection_writes(
                line_of(old(self)@, hint.index as int),
                hint.candidates@,
            ),
    {
        let idx = hint.index;
        if hint.candidates.len() == 0 {
            let line = self.copy_by_index(idx);
            return Err(SolveError::Contradiction { index: idx, line });
        }
        let ghost cands = hint.candidates@;
        let ghost g0 = self@;
        let ghost line0 = line_of(g0, idx as int);
        let size = self.cells.len();
        let mut all_o: u32 = 0xffff_ffff;
        let mut any: u32 = 0;
        let mut i: usize = 0;
        proof {
            assert forall|q: int| 0 <= q < 32 implies bit_at(all_o, q) && !bit_at(any, q) by {
                lemma_bit_full_empty(q);
            }
        }
        while i < hint.candidates.len()
            invariant
                cands == hint.candidates@,
                i <= cands.len(),
                forall|q: int|
                    0 <= q < 32 ==> (#[trigger] bit_at(all_o, q) <==> forall|j: int|
                        0 <= j < i ==> bit_at(#[trigger] cands[j], q)),
                forall|q: int|
                    0 <= q < 32 ==> (#[trigger] bit_at(any, q) <==> exists|j: int|
                        0 <= j < i && bit_at(#[trigger] cands[j], q)),
            decreases cands.len() - i,
        {
            let m = hint.candidates[i];
            proof {
                assert forall|q: int| 0 <= q < 32 implies (#[trigger] bit_at(all_o & m, q)
                    <==> forall|j: int| 0 <= j < i + 1 ==> bit_at(#[trigger] cands[j], q)) by {
                    lemma_bit_and(all_o, m, q);
                }
                assert forall|q: int| 0 <= q < 32 implies (#[trigger] bit_at(any | m, q)
                    <==> exists|j: int| 0 <= j < i + 1 && bit_at(#[trigger] cands[j], q)) by {
                    lemma_bit_or(any, m, q);
                    if bit_at(m, q) {
                        assert(cands[i as int] == m);
                    }
                }
            }
            all_o = all_o & m;
            any = any | m;
            i = i + 1;
        }
        let all_x = !any;
        proof {
            assert forall|q: int| 0 <= q < 32 implies (bit_at(all_x, q) <==> none_have(cands, q)) by {
                lemma_bit_not(any, q);
                if bit_at(any, q) {
                    let j = choose|j: int| 0 <= j < cands.len() && bit_at(#[trigger] cands[j], q);
                }
            }
        }
        let mut changed = false;
        let mut p: usize = 0;
        while p < size
            invariant
                self.wf(),
                size == self@.len(),
                size <= 32,
                g0.len() == size,
                square(g0),
                valid_index(size as int, idx as int),
                line0 == line_of(g0, idx as int),
                p <= size,
                forall|q: int| 0 <= q < 32 ==> (bit_at(all_o, q) <==> all_have(cands, q)),
                forall|q: int| 0 <= q < 32 ==> (bit_at(all_x, q) <==> none_have(cands, q)),
                forall|r: int|
                    0 <= r < size ==> #[trigger] self@[r] =~= Seq::new(
                        size as nat,
                        |c: int|
                            if on_line(idx as int, r, c) && line_pos(idx as int, r, c) < p {
                                deduce(g0[r][c], cands, line_pos(idx as int, r, c))
                            } else {
                                g0[r][c]
                            },
                    ),
                changed == exists|q: int|
                    0 <= q < p && line0[q] == Celltype::NoInfo && #[trigger] deduce(
                        line0[q],
                        cands,
                        q,
                    ) != Celltype::NoInfo,
            decreases size - p,
        {
            let cell = self.cell_on(idx, p);
            assert(cell == line0[p as int]);
            if cell == Celltype::NoInfo {
                let cursor = cursor_at(p);
                if check_bit(all_o, cursor) {
                    self.write_deduced_cell(idx, p, Celltype::O);
                    changed = true;
                } else if check_bit(all_x, cursor) {
                    self.write_deduced_cell(idx, p, Celltype::X);
                    changed = true;
                }
            }
            p = p + 1;
        }
        assert(self@ =~~= reflected(g0, idx as int, cands));
        Ok(changed)
    }

    /// The cell at row `r`, column `c`.
    pub fn cell(&self, r: usize, c: usize) -> (v: Celltype)
        requires
            self.wf(),
            r < self@.len(),
            c < self@.len(),
        ensures
            v == self@[r as int][c as int],
    {
        self.cells[r][c]
    }

    /// Side length of the board.
    pub fn size(&self) -> (n: usize)
        ensures
            n == self@.len(),
    {
        self.cells.len()
    }

    /// The cell at position `p` of line `idx`.
    pub fn cell_on(&self, idx: isize, p: usize) -> (r: Celltype)
        requires
            self.wf(),
            valid_index(self@.len() as int, idx as int),
            p < self@.len(),
        ensures
            r == line_of(self@, idx as int)[p as int],
    {
        if idx > 0 {
            self.cells[(idx - 1) as usize][p]
        } else {
            self.cells[p][(-(idx + 1)) as usize]
        }
    }

    /// A copy of line `idx`: row `idx - 1` if positive, else column `-idx - 1`.
    pub fn copy_by_index(&self, idx: isize) -> (r: Vec<Celltype>)
        requires
            self.wf(),
            valid_index(self@.len() as int, idx as int),
        ensures
            r@ == line_of(self@, idx as int),
    {
        let n = self.cells.len();
        let mut result: Vec<Celltype> = Vec::new();
        let mut p: usize = 0;
        while p < n
            invariant
                self.wf(),
                n == self@.len(),
                valid_index(n as int, idx as int),
                p <= n,
                result@ == line_of(self@, idx as int).take(p as int),
            decreases n - p,
        {
            let v = self.cell_on(idx, p);
            result.push(v);
            p = p + 1;
            assert(result@ =~= line_of(self@, idx as int).take(p as int));
        }
        assert(result@ =~= line_of(self@, idx as int));
        result
    }
}

} // verus!
