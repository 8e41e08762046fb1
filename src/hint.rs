//! A clue of one line, and the enumeration of every placement of its blocks.

use vstd::prelude::*;
use crate::bits::{block_mask, paint_block};

verus! {

/// Sum of the block lengths from index `k` to the end.
pub open spec fn suffix_sum(nums: Seq<usize>, k: int) -> int
    decreases nums.len() - k,
{
    if k < 0 || k >= nums.len() {
        0
    } else {
        nums[k] + suffix_sum(nums, k + 1)
    }
}

/// A suffix sum is no smaller than any later one, and never negative.
pub proof fn lemma_suffix_sum_mono(nums: Seq<usize>, j: int, k: int)
    requires
        0 <= j <= k,
    ensures
        0 <= suffix_sum(nums, k) <= suffix_sum(nums, j),
    decreases k - j,
{
    if j < k {
        lemma_suffix_sum_mono(nums, j + 1, k);
    } else {
        lemma_suffix_sum_nonneg(nums, k);
    }
}

/// A suffix sum is never negative.
pub proof fn lemma_suffix_sum_nonneg(nums: Seq<usize>, k: int)
    ensures
        suffix_sum(nums, k) >= 0,
    decreases nums.len() - k,
{
    if 0 <= k < nums.len() {
        lemma_suffix_sum_nonneg(nums, k + 1);
    }
}

/// Room that the blocks after block `b` need: their lengths and one gap before each.
pub open spec fn room_after(nums: Seq<usize>, b: int) -> int {
    if b + 1 < nums.len() {
        suffix_sum(nums, b + 1) + (nums.len() - b - 1)
    } else {
        0
    }
}

/// The latest position at which block `b` may start so that the later blocks still fit.
pub open spec fn last_start(nums: Seq<usize>, b: int, line_len: int) -> int {
    line_len - nums[b] - room_after(nums, b)
}

/// Every mask, in enumeration order, that places blocks `b..` at or after position `p`
/// of a line of `line_len` cells, on top of the mask `acc`.
pub open spec fn placements(nums: Seq<usize>, b: int, p: int, line_len: int, acc: u32) -> Seq<u32>
    decreases nums.len() - b, line_len + 2 - p,
{
    if b < 0 || b >= nums.len() {
        seq![acc]
    } else if p < 0 || p > line_len + 1 {
        seq![]
    } else {
        placements_from(nums, b, p, line_len, acc)
    }
}

/// The masks of `placements` that start block `b` at position `s` or later.
pub open spec fn placements_from(nums: Seq<usize>, b: int, s: int, line_len: int, acc: u32) -> Seq<
    u32,
>
    decreases nums.len() - b, line_len + 1 - s,
{
    if 0 <= b < nums.len() && 0 <= s <= line_len && s <= last_start(nums, b, line_len) {
        placements(
            nums,
            b + 1,
            s + nums[b] + 1,
            line_len,
            acc | block_mask(s as usize, nums[b]),
        ) + placements_from(nums, b, s + 1, line_len, acc)
    } else {
        seq![]
    }
}

/// All placements of the whole clue on a line of `line_len` cells.
pub open spec fn all_placements(nums: Seq<usize>, line_len: int) -> Seq<u32> {
    placements(nums, 0, 0, line_len, 0)
}

/// The binomial coefficient `n` choose `k`, zero where `n < k`.
pub open spec fn binom(n: int, k: nat) -> nat
    decreases k, n,
{
    if k == 0 {
        1
    } else if n <= 0 {
        0
    } else {
        binom(n - 1, (k - 1) as nat) + binom(n - 1, k)
    }
}

/// Fewer items than picks leave no way to choose.
pub proof fn lemma_binom_zero(n: int, k: nat)
    requires
        0 < k,
        n < k,
    ensures
        binom(n, k) == 0,
    decreases k, n,
{
    if n > 0 {
        lemma_binom_zero(n - 1, (k - 1) as nat);
        lemma_binom_zero(n - 1, k);
    }
}

/// The number of placements of blocks `b..` from position `p` on.
proof fn lemma_placements_len(nums: Seq<usize>, b: int, p: int, line_len: int, acc: u32)
    requires
        0 <= b <= nums.len(),
        0 <= p <= line_len + 1,
    ensures
        placements(nums, b, p, line_len, acc).len() == binom(
            line_len - p - suffix_sum(nums, b) + 1,
            (nums.len() - b) as nat,
        ),
    decreases nums.len() - b, line_len + 2 - p,
{
    if b < nums.len() {
        lemma_from_len(nums, b, p, line_len, acc);
    }
}

/// The number of placements of blocks `b..` with block `b` at `s` or later.
proof fn lemma_from_len(nums: Seq<usize>, b: int, s: int, line_len: int, acc: u32)
    requires
        0 <= b < nums.len(),
        0 <= s <= line_len + 1,
    ensures
        placements_from(nums, b, s, line_len, acc).len() == binom(
            line_len - s - suffix_sum(nums, b) + 1,
            (nums.len() - b) as nat,
        ),
    decreases nums.len() - b, line_len + 1 - s,
{
    let m = (nums.len() - b) as nat;
    let n = line_len - s - suffix_sum(nums, b) + 1;
    lemma_suffix_sum_nonneg(nums, b + 1);
    assert(suffix_sum(nums, b) == nums[b] + suffix_sum(nums, b + 1));
    if b + 1 == nums.len() {
        assert(suffix_sum(nums, b + 1) == 0);
    }
    if 0 <= s <= line_len && s <= last_start(nums, b, line_len) {
        let next = acc | block_mask(s as usize, nums[b]);
        lemma_placements_len(nums, b + 1, s + nums[b] + 1, line_len, next);
        lemma_from_len(nums, b, s + 1, line_len, acc);
        assert(n >= 1);
        assert(binom(n, m) == binom(n - 1, (m - 1) as nat) + binom(n - 1, m));
    } else {
        lemma_binom_zero(n, m);
    }
}

/// A clue of `k` blocks whose lengths sum to `S` has `C(L - S + 1, k)`
/// placements on a line of `L` cells; with no block, exactly one.
pub proof fn lemma_candidate_count(nums: Seq<usize>, line_len: int)
    requires
        0 <= line_len,
    ensures
        all_placements(nums, line_len).len() == binom(
            line_len - suffix_sum(nums, 0) + 1,
            nums.len(),
        ),
        nums.len() == 0 ==> all_placements(nums, line_len) == seq![0u32],
{
    lemma_placements_len(nums, 0, 0, line_len, 0);
}

/// `starts[b..]` place blocks `b..` in order on a line of `line_len` cells:
/// the first at or after `p`, each inside the line, with at least one empty
/// cell between two blocks.
pub open spec fn valid_from(nums: Seq<usize>, starts: Seq<int>, b: int, p: int, line_len: int) -> bool {
    &&& starts.len() == nums.len()
    &&& 0 <= b <= nums.len()
    &&& b < nums.len() ==> p <= starts[b]
    &&& forall|j: int|
        b <= j < nums.len() ==> 0 <= #[trigger] starts[j] && starts[j] + nums[j] <= line_len
    &&& forall|j: int| b <= j && j + 1 < nums.len() ==> #[trigger] starts[j] + nums[j] + 1 <= starts[j + 1]
}

/// The mask `acc` with blocks `b..` drawn at their starts.
pub open spec fn mask_from(nums: Seq<usize>, starts: Seq<int>, b: int, acc: u32) -> u32
    decreases nums.len() - b,
{
    if b < 0 || b >= nums.len() {
        acc
    } else {
        mask_from(nums, starts, b + 1, acc | block_mask(starts[b] as usize, nums[b]))
    }
}

proof fn lemma_mask_from_agree(nums: Seq<usize>, s1: Seq<int>, s2: Seq<int>, b: int, acc: u32)
    requires
        0 <= b,
        forall|j: int| b <= j < nums.len() ==> s1[j] == s2[j],
    ensures
        mask_from(nums, s1, b, acc) == mask_from(nums, s2, b, acc),
    decreases nums.len() - b,
{
    if b < nums.len() {
        lemma_mask_from_agree(nums, s1, s2, b + 1, acc | block_mask(s1[b] as usize, nums[b]));
    }
}

/// A block of a valid placement starts no later than `last_start`.
proof fn lemma_start_fits(nums: Seq<usize>, starts: Seq<int>, b: int, p: int, line_len: int)
    requires
        valid_from(nums, starts, b, p, line_len),
        b < nums.len(),
    ensures
        starts[b] <= last_start(nums, b, line_len),
    decreases nums.len() - b,
{
    assert(starts[b] + nums[b] <= line_len);
    if b + 1 < nums.len() {
        assert(starts[b] + nums[b] + 1 <= starts[b + 1]);
        lemma_start_fits(nums, starts, b + 1, starts[b] + nums[b] + 1, line_len);
        assert(suffix_sum(nums, b + 1) == nums[b + 1] + suffix_sum(nums, b + 2));
        if b + 2 == nums.len() {
            assert(suffix_sum(nums, b + 2) == 0);
        }
    }
}

proof fn lemma_placements_sound(nums: Seq<usize>, b: int, p: int, line_len: int, acc: u32, m: u32)
    requires
        0 <= b <= nums.len(),
        placements(nums, b, p, line_len, acc).contains(m),
    ensures
        exists|starts: Seq<int>|
            #[trigger] valid_from(nums, starts, b, p, line_len) && mask_from(nums, starts, b, acc) == m,
    decreases nums.len() - b, line_len + 2 - p,
{
    if b == nums.len() {
        let starts = Seq::new(nums.len(), |j: int| 0int);
        assert(valid_from(nums, starts, b, p, line_len) && mask_from(nums, starts, b, acc) == m);
    } else {
        lemma_from_sound(nums, b, p, line_len, acc, m);
    }
}

proof fn lemma_from_sound(nums: Seq<usize>, b: int, s: int, line_len: int, acc: u32, m: u32)
    requires
        0 <= b < nums.len(),
        placements_from(nums, b, s, line_len, acc).contains(m),
    ensures
        exists|starts: Seq<int>|
            #[trigger] valid_from(nums, starts, b, s, line_len) && mask_from(nums, starts, b, acc) == m,
    decreases nums.len() - b, line_len + 1 - s,
{
    lemma_suffix_sum_nonneg(nums, b + 1);
    let next = acc | block_mask(s as usize, nums[b]);
    let child = placements(nums, b + 1, s + nums[b] + 1, line_len, next);
    let rest = placements_from(nums, b, s + 1, line_len, acc);
    assert(placements_from(nums, b, s, line_len, acc) == child + rest);
    let i = choose|i: int| 0 <= i < (child + rest).len() && (child + rest)[i] == m;
    if i < child.len() {
        assert(child[i] == m);
        lemma_placements_sound(nums, b + 1, s + nums[b] + 1, line_len, next, m);
        let st = choose|st: Seq<int>|
            #[trigger] valid_from(nums, st, b + 1, s + nums[b] + 1, line_len) && mask_from(
                nums,
                st,
                b + 1,
                next,
            ) == m;
        let starts = st.update(b, s);
        assert forall|j: int| b <= j && j + 1 < nums.len() implies #[trigger] starts[j] + nums[j] + 1
            <= starts[j + 1] by {
            if j > b {
                assert(st[j] + nums[j] + 1 <= st[j + 1]);
            }
        }
        assert forall|j: int| b <= j < nums.len() implies 0 <= #[trigger] starts[j] && starts[j]
            + nums[j] <= line_len by {
            if j > b {
                assert(0 <= st[j] && st[j] + nums[j] <= line_len);
            }
        }
        lemma_mask_from_agree(nums, starts, st, b + 1, next);
        assert(valid_from(nums, starts, b, s, line_len));
        assert(mask_from(nums, starts, b, acc) == m);
    } else {
        assert(rest[i - child.len()] == m);
        lemma_from_sound(nums, b, s + 1, line_len, acc, m);
        let st = choose|st: Seq<int>|
            #[trigger] valid_from(nums, st, b, s + 1, line_len) && mask_from(nums, st, b, acc) == m;
        assert(valid_from(nums, st, b, s, line_len));
    }
}

proof fn lemma_placements_complete(nums: Seq<usize>, starts: Seq<int>, b: int, p: int, line_len: int, acc: u32)
    requires
        valid_from(nums, starts, b, p, line_len),
        0 <= p,
    ensures
        placements(nums, b, p, line_len, acc).contains(mask_from(nums, starts, b, acc)),
    decreases nums.len() - b, line_len + 2 - p,
{
    if b == nums.len() {
        assert(placements(nums, b, p, line_len, acc)[0] == acc);
    } else {
        lemma_from_complete(nums, starts, b, p, line_len, acc);
    }
}

proof fn lemma_from_complete(nums: Seq<usize>, starts: Seq<int>, b: int, s: int, line_len: int, acc: u32)
    requires
        valid_from(nums, starts, b, s, line_len),
        0 <= s,
        b < nums.len(),
    ensures
        placements_from(nums, b, s, line_len, acc).contains(mask_from(nums, starts, b, acc)),
    decreases nums.len() - b, line_len + 1 - s,
{
    let m = mask_from(nums, starts, b, acc);
    lemma_suffix_sum_nonneg(nums, b + 1);
    lemma_start_fits(nums, starts, b, s, line_len);
    assert(0 <= starts[b] && starts[b] + nums[b] <= line_len);
    let next = acc | block_mask(s as usize, nums[b]);
    let child = placements(nums, b + 1, s + nums[b] + 1, line_len, next);
    let rest = placements_from(nums, b, s + 1, line_len, acc);
    assert(placements_from(nums, b, s, line_len, acc) == child + rest);
    if starts[b] == s {
        if b + 1 < nums.len() {
            assert(starts[b] + nums[b] + 1 <= starts[b + 1]);
        }
        assert(valid_from(nums, starts, b + 1, s + nums[b] + 1, line_len));
        lemma_placements_complete(nums, starts, b + 1, s + nums[b] + 1, line_len, next);
        let i = choose|i: int| 0 <= i < child.len() && child[i] == m;
        assert((child + rest)[i] == m);
    } else {
        lemma_from_complete(nums, starts, b, s + 1, line_len, acc);
        let i = choose|i: int| 0 <= i < rest.len() && rest[i] == m;
        assert((child + rest)[child.len() + i] == m);
    }
}

/// The enumeration holds exactly the masks of the valid placements of the
/// clue: every mask it lists draws the blocks at starts that keep them in
/// order, inside the line and one gap apart, and every such choice of starts
/// gives a listed mask.
pub proof fn lemma_placements_exact(nums: Seq<usize>, line_len: int, m: u32)
    ensures
        all_placements(nums, line_len).contains(m) <==> exists|starts: Seq<int>|
            #[trigger] valid_from(nums, starts, 0, 0, line_len) && mask_from(nums, starts, 0, 0) == m,
{
    if all_placements(nums, line_len).contains(m) {
        lemma_placements_sound(nums, 0, 0, line_len, 0, m);
    }
    if exists|starts: Seq<int>|
        #[trigger] valid_from(nums, starts, 0, 0, line_len) && mask_from(nums, starts, 0, 0) == m {
        let starts = choose|starts: Seq<int>|
            #[trigger] valid_from(nums, starts, 0, 0, line_len) && mask_from(nums, starts, 0, 0) == m;
        lemma_placements_complete(nums, starts, 0, 0, line_len, 0);
    }
}

/// The clue of one line: its identifier (`i` for row `i`, `-i` for column `i`,
/// both counted from 1), its block lengths, their suffix sums, and the masks
/// that are still possible.
pub struct Hint {
    pub index: isize,
    pub numbers: Vec<usize>,
    pub remaining_sum: Vec<usize>,
    pub candidates: Vec<u32>,
}

/// The suffix sums of the block lengths, with a final zero.
pub fn calculate_remain_block_len(hint_num: &[usize]) -> (r: Vec<usize>)
    requires
        suffix_sum(hint_num@, 0) <= usize::MAX,
        hint_num@.len() < usize::MAX,
    ensures
        r@.len() == hint_num@.len() + 1,
        forall|k: int| 0 <= k <= hint_num@.len() ==> r@[k] == suffix_sum(hint_num@, k),
{
    let n = hint_num.len();
    let mut remain: Vec<usize> = vec![0; n + 1];
    let mut i: usize = n;
    while i > 0
        invariant
            i <= n,
            n == hint_num@.len(),
            remain@.len() == n + 1,
            suffix_sum(hint_num@, 0) <= usize::MAX,
            forall|k: int| i <= k <= n ==> remain@[k] == suffix_sum(hint_num@, k),
        decreases i,
    {
        i = i - 1;
        proof {
            lemma_suffix_sum_mono(hint_num@, 0, i as int);
        }
        let v = remain[i + 1] + hint_num[i];
        remain.set(i, v);
    }
    remain
}

impl Hint {
    /// The clue's data agree with each other and its sums fit in a `usize`.
    pub open spec fn wf(&self) -> bool {
        &&& self.remaining_sum@.len() == self.numbers@.len() + 1
        &&& forall|k: int|
            0 <= k <= self.numbers@.len() ==> self.remaining_sum@[k] == suffix_sum(
                self.numbers@,
                k,
            )
        &&& suffix_sum(self.numbers@, 0) + self.numbers@.len() < usize::MAX
    }

    /// A clue with no candidates yet.
    pub fn new(index: isize, numbers: Vec<usize>) -> (r: Self)
        requires
            suffix_sum(numbers@, 0) + numbers@.len() < usize::MAX,
        ensures
            r.wf(),
            r.index == index,
            r.numbers@ == numbers@,
            r.candidates@.len() == 0,
    {
        proof {
            lemma_suffix_sum_nonneg(numbers@, 0);
        }
        let remain = calculate_remain_block_len(numbers.as_slice());
        Hint { index, numbers, remaining_sum: remain, candidates: Vec::new() }
    }

    /// Appends, in enumeration order, every mask that places blocks
    /// `block_index..` at or after `next_free_cell` on top of `current_pattern`.
    pub fn generate_patterns(
        &mut self,
        block_index: usize,
        next_free_cell: usize,
        line_length: usize,
        current_pattern: u32,
    )
        requires
            old(self).wf(),
            block_index <= old(self).numbers@.len(),
            line_length <= 32,
        ensures
            final(self).wf(),
            final(self).index == old(self).index,
            final(self).numbers == old(self).numbers,
            final(self).remaining_sum == old(self).remaining_sum,
            final(self).candidates@ == old(self).candidates@ + placements(
                old(self).numbers@,
                block_index as int,
                next_free_cell as int,
                line_length as int,
                current_pattern,
            ),
        decreases old(self).numbers@.len() - block_index,
    {
        let ghost nums = self.numbers@;
        let ghost start_cands = self.candidates@;
        if block_index == self.numbers.len() {
            self.candidates.push(current_pattern);
            return ;
        }
        let current_block_len = self.numbers[block_index];
        let remaining_blocks = self.numbers.len() - block_index - 1;
        proof {
            lemma_suffix_sum_mono(nums, 0, block_index as int + 1);
        }
        let min_required_after = if remaining_blocks > 0 {
            self.remaining_sum[block_index + 1] + remaining_blocks
        } else {
            0
        };
        assert(min_required_after == room_after(nums, block_index as int));
        if current_block_len > line_length || min_required_after > line_length - current_block_len {
            return ;
        }
        let last_start_pos = line_length - current_block_len - min_required_after;
        if next_free_cell > last_start_pos {
            return ;
        }
        let mut start_pos = next_free_cell;
        while start_pos <= last_start_pos
            invariant
                self.wf(),
                self.index == old(self).index,
                self.numbers == old(self).numbers,
                self.remaining_sum == old(self).remaining_sum,
                nums == self.numbers@,
                block_index < nums.len(),
                current_block_len == nums[block_index as int],
                line_length <= 32,
                last_start_pos == last_start(nums, block_index as int, line_length as int),
                last_start_pos + current_block_len <= line_length,
                next_free_cell <= start_pos <= line_length + 1,
                self.candidates@ + placements_from(
                    nums,
                    block_index as int,
                    start_pos as int,
                    line_length as int,
                    current_pattern,
                ) == start_cands + placements(
                    nums,
                    block_index as int,
                    next_free_cell as int,
                    line_length as int,
                    current_pattern,
                ),
            decreases last_start_pos + 1 - start_pos,
        {
            let ghost before = self.candidates@;
            let block_bit = paint_block(start_pos, current_block_len);
            let new_pattern = current_pattern | block_bit;
            self.generate_patterns(
                block_index + 1,
                start_pos + current_block_len + 1,
                line_length,
                new_pattern,
            );
            let ghost child = placements(
                nums,
                block_index as int + 1,
                start_pos as int + current_block_len as int + 1,
                line_length as int,
                new_pattern,
            );
            let ghost rest = placements_from(
                nums,
                block_index as int,
                start_pos as int + 1,
                line_length as int,
                current_pattern,
            );
            assert(before + (child + rest) =~= (before + child) + rest);
            start_pos = start_pos + 1;
        }
    }
}

} // verus!
