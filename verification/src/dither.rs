//! Blue-noise dithering from the 10-bit pixel format down to the 8-bit
//! `0x00RRGGBB` words that a window surface takes.
//!
//! An 8x8 threshold tile ranks its 64 cells by a best-candidate sampling
//! that spreads consecutive ranks apart on the torus. A 10-bit channel that
//! lies exactly on an 8-bit level is passed through; otherwise it is rounded
//! to the lower or upper 8-bit neighbour depending on how far it lies between
//! the two, compared against the tile's threshold at that pixel.

use vstd::prelude::*;

use crate::color::{
    alpha_of, blue_of, green_of, is_transparent, pack_softbuffer_channels, red_of, softbuffer_word,
    u10_to_u8, u10_to_u8_channel, u8_to_u10, u8_to_u10_channel, unpack_rgb10,
};

verus! {

pub const TILE_WIDTH: usize = 8;
pub const TILE_HEIGHT: usize = 8;
pub const TILE_SIZE: usize = 64;
pub const BEST_CANDIDATE_SAMPLES: usize = 32;
/// The seed of the tile generator.
pub const TILE_SEED: u32 = 0x9E37_79B9;

// ---------------------------------------------------------------------------
// Pseudo-random numbers.
// ---------------------------------------------------------------------------

/// One xorshift32 step.
pub open spec fn xorshift(value: u32) -> u32 {
    let a = value ^ (value << 13u32);
    let b = a ^ (a >> 17u32);
    b ^ (b << 5u32)
}

/// Advances the generator state by one xorshift32 step and returns the new
/// state.
pub fn next_random(state: &mut u32) -> (r: u32)
    ensures
        r == xorshift(*old(state)),
        *final(state) == r,
{
    let mut value = *state;
    value = value ^ (value << 13u32);
    value = value ^ (value >> 17u32);
    value = value ^ (value << 5u32);
    *state = value;
    value
}

// ---------------------------------------------------------------------------
// Tile geometry.
// ---------------------------------------------------------------------------

/// `(column, row)` of a tile index.
pub open spec fn coords_of(index: usize) -> (i32, i32) {
    ((index % 8) as i32, (index / 8) as i32)
}

/// The column and row of a tile index.
pub fn index_to_coords(index: usize) -> (r: (i32, i32))
    ensures
        r == coords_of(index),
{
    ((index % TILE_WIDTH) as i32, (index / TILE_WIDTH) as i32)
}

pub open spec fn abs_int(v: int) -> int {
    if v < 0 { -v } else { v }
}

/// The distance between two coordinates on a ring of the given period.
pub open spec fn ring_delta(a: int, b: int, period: int) -> int {
    let delta = abs_int(a - b);
    if delta <= period - delta { delta } else { period - delta }
}

/// Distance along one axis of the torus: the shorter way round.
pub fn toroidal_delta(a: i32, b: i32, period: i32) -> (r: i32)
    requires
        i32::MIN < a - b <= i32::MAX,
        i32::MIN <= period - abs_int(a - b) <= i32::MAX,
    ensures
        r as int == ring_delta(a as int, b as int, period as int),
{
    let d = a - b;
    let delta = if d < 0 { -d } else { d };
    if delta <= period - delta { delta } else { period - delta }
}

/// Squared toroidal distance between two tile cells.
pub open spec fn cell_distance_sq(a: usize, b: usize) -> int {
    let (ax, ay) = coords_of(a);
    let (bx, by) = coords_of(b);
    let dx = ring_delta(ax as int, bx as int, 8);
    let dy = ring_delta(ay as int, by as int, 8);
    dx * dx + dy * dy
}

proof fn lemma_cell_coords(index: usize)
    requires
        index < 64,
    ensures
        0 <= coords_of(index).0 < 8,
        0 <= coords_of(index).1 < 8,
        coords_of(index).0 as int == index as int % 8,
        coords_of(index).1 as int == index as int / 8,
{
}

proof fn lemma_cell_distance_range(a: usize, b: usize)
    requires
        a < 64,
        b < 64,
    ensures
        0 <= cell_distance_sq(a, b) <= 32,
{
    lemma_cell_coords(a);
    lemma_cell_coords(b);
    let (ax, ay) = coords_of(a);
    let (bx, by) = coords_of(b);
    let dx = ring_delta(ax as int, bx as int, 8);
    let dy = ring_delta(ay as int, by as int, 8);
    assert(0 <= dx <= 4 && 0 <= dy <= 4);
    assert(dx * dx <= 16 && dy * dy <= 16) by (nonlinear_arith)
        requires
            0 <= dx <= 4,
            0 <= dy <= 4,
    ;
    assert(dx * dx >= 0 && dy * dy >= 0) by (nonlinear_arith);
}

/// Squared toroidal distance between two points of the 8x8 tile.
pub fn toroidal_distance_sq(ax: i32, ay: i32, bx: i32, by: i32) -> (r: u32)
    requires
        0 <= ax < 8,
        0 <= ay < 8,
        0 <= bx < 8,
        0 <= by < 8,
    ensures
        r as int == ring_delta(ax as int, bx as int, 8) * ring_delta(ax as int, bx as int, 8)
            + ring_delta(ay as int, by as int, 8) * ring_delta(ay as int, by as int, 8),
{
    let dx = toroidal_delta(ax, bx, TILE_WIDTH as i32);
    let dy = toroidal_delta(ay, by, TILE_HEIGHT as i32);
    assert(0 <= dx <= 4 && 0 <= dy <= 4);
    assert(0 <= dx * dx <= 16 && 0 <= dy * dy <= 16) by (nonlinear_arith)
        requires
            0 <= dx <= 4,
            0 <= dy <= 4,
    ;
    (dx * dx + dy * dy) as u32
}

/// The smallest squared distance from `candidate` to the cells of `selected`
/// (0 when there are none).
pub open spec fn nearest_distance(candidate: usize, selected: Seq<usize>) -> int
    decreases selected.len(),
{
    if selected.len() == 0 {
        0
    } else if selected.len() == 1 {
        cell_distance_sq(candidate, selected[0])
    } else {
        let rest = nearest_distance(candidate, selected.drop_last());
        let last = cell_distance_sq(candidate, selected.last());
        if last < rest { last } else { rest }
    }
}

proof fn lemma_nearest_distance_range(candidate: usize, selected: Seq<usize>)
    requires
        candidate < 64,
        forall|i: int| 0 <= i < selected.len() ==> selected[i] < 64,
    ensures
        0 <= nearest_distance(candidate, selected) <= 32,
    decreases selected.len(),
{
    if selected.len() == 1 {
        lemma_cell_distance_range(candidate, selected[0]);
    } else if selected.len() > 1 {
        lemma_nearest_distance_range(candidate, selected.drop_last());
        lemma_cell_distance_range(candidate, selected.last());
    }
}

/// The squared toroidal distance from `candidate` to the nearest cell already
/// in `selected`; 0 when `selected` is empty.
pub fn nearest_selected_distance_sq(candidate: usize, selected: &[usize]) -> (r: u32)
    requires
        candidate < TILE_SIZE,
        forall|i: int| 0 <= i < selected@.len() ==> selected@[i] < TILE_SIZE,
    ensures
        r as int == nearest_distance(candidate, selected@),
{
    if selected.len() == 0 {
        return 0;
    }
    let (candidate_x, candidate_y) = index_to_coords(candidate);
    proof {
        lemma_cell_coords(candidate);
    }
    let (x0, y0) = index_to_coords(selected[0]);
    proof {
        lemma_cell_coords(selected@[0]);
    }
    let mut best = toroidal_distance_sq(candidate_x, candidate_y, x0, y0);
    let mut i: usize = 1;
    while i < selected.len()
        invariant
            1 <= i <= selected@.len(),
            candidate < 64,
            forall|k: int| 0 <= k < selected@.len() ==> selected@[k] < 64,
            (candidate_x, candidate_y) == coords_of(candidate),
            best as int == nearest_distance(candidate, selected@.subrange(0, i as int)),
        decreases selected@.len() - i,
    {
        let (sx, sy) = index_to_coords(selected[i]);
        proof {
            lemma_cell_coords(selected@[i as int]);
            lemma_cell_coords(candidate);
        }
        let d = toroidal_distance_sq(candidate_x, candidate_y, sx, sy);
        proof {
            let next = selected@.subrange(0, i as int + 1);
            assert(next.drop_last() =~= selected@.subrange(0, i as int));
            assert(next.last() == selected@[i as int]);
        }
        if d < best {
            best = d;
        }
        i = i + 1;
    }
    proof {
        assert(selected@.subrange(0, selected@.len() as int) =~= selected@);
    }
    best
}

// ---------------------------------------------------------------------------
// Candidate sampling.
// ---------------------------------------------------------------------------

/// The first index at or after `from` whose cell is not yet used.
pub open spec fn first_unused_from(used: Seq<bool>, from: int) -> Option<usize>
    decreases 64 - from,
{
    if from >= 64 || from >= used.len() {
        None
    } else if !used[from] {
        Some(from as usize)
    } else {
        first_unused_from(used, from + 1)
    }
}

/// The first cell that is not yet used.
pub open spec fn first_unused(used: Seq<bool>) -> Option<usize> {
    first_unused_from(used, 0)
}

/// Up to `tries` random draws of a cell, stopping at the first unused one;
/// when every draw hits a used cell, the first unused cell. Gives the result
/// and the generator state after the draws.
pub open spec fn draw_unused(state: u32, used: Seq<bool>, tries: nat) -> (Option<usize>, u32)
    decreases tries,
{
    if tries == 0 {
        (first_unused(used), state)
    } else {
        let next = xorshift(state);
        let candidate = (next % 64) as usize;
        if !used[candidate as int] {
            (Some(candidate), next)
        } else {
            draw_unused(next, used, (tries - 1) as nat)
        }
    }
}

proof fn lemma_first_unused_from(used: Seq<bool>, from: int)
    requires
        used.len() == 64,
        0 <= from,
    ensures
        first_unused_from(used, from) matches Some(p) ==> from <= p < 64 && !used[p as int],
        first_unused_from(used, from) is None ==> forall|p: int| from <= p < 64 ==> used[p],
    decreases 64 - from,
{
    if from < 64 && used[from] {
        lemma_first_unused_from(used, from + 1);
    }
}

proof fn lemma_draw_unused(state: u32, used: Seq<bool>, tries: nat)
    requires
        used.len() == 64,
    ensures
        draw_unused(state, used, tries).0 matches Some(p) ==> p < 64 && !used[p as int],
        draw_unused(state, used, tries).0 is None ==> forall|p: int| 0 <= p < 64 ==> used[p],
    decreases tries,
{
    if tries == 0 {
        lemma_first_unused_from(used, 0);
    } else {
        let next = xorshift(state);
        if used[(next % 64) as int] {
            lemma_draw_unused(next, used, (tries - 1) as nat);
        }
    }
}

/// The first cell that is not yet used, by a scan from the start.
pub fn first_unused_position(used: &[bool]) -> (r: Option<usize>)
    requires
        used@.len() == TILE_SIZE,
    ensures
        r == first_unused(used@),
{
    let mut i: usize = 0;
    while i < TILE_SIZE
        invariant
            0 <= i <= 64,
            used@.len() == 64,
            first_unused(used@) == first_unused_from(used@, i as int),
        decreases 64 - i,
    {
        if !used[i] {
            return Some(i);
        }
        i = i + 1;
    }
    None
}

/// Draws random cells until one is unused, giving up after 64 draws and
/// falling back to the first unused cell.
pub fn random_unused_position(state: &mut u32, used: &[bool]) -> (r: Option<usize>)
    requires
        used@.len() == TILE_SIZE,
    ensures
        (r, *final(state)) == draw_unused(*old(state), used@, 64),
{
    let mut tries: usize = 0;
    while tries < TILE_SIZE
        invariant
            0 <= tries <= 64,
            used@.len() == 64,
            draw_unused(*old(state), used@, 64) == draw_unused(*state, used@, (64 - tries) as nat),
        decreases 64 - tries,
    {
        let candidate = (next_random(state) % 64) as usize;
        if !used[candidate] {
            return Some(candidate);
        }
        tries = tries + 1;
    }
    first_unused_position(used)
}

// ---------------------------------------------------------------------------
// Counting lemmas for the tile's permutation property.
// ---------------------------------------------------------------------------

/// All elements of `s` are distinct.
pub open spec fn distinct(s: Seq<usize>) -> bool {
    forall|i: int, j: int| 0 <= i < s.len() && 0 <= j < s.len() && i != j ==> s[i] != s[j]
}

/// A sequence that holds every value below `n` has at least `n` elements.
proof fn lemma_covering_length(s: Seq<usize>, n: nat)
    requires
        n <= 64,
        forall|p: usize| p < n ==> s.contains(p),
    ensures
        s.len() >= n,
    decreases n,
{
    if n > 0 {
        let top = (n - 1) as usize;
        assert(s.contains(top));
        let k = choose|k: int| 0 <= k < s.len() && s[k] == top;
        let rest = s.remove(k);
        assert forall|p: usize| p < (n - 1) as nat implies rest.contains(p) by {
            assert(s.contains(p));
            let j = choose|j: int| 0 <= j < s.len() && s[j] == p;
            assert(j != k);
            if j < k {
                assert(rest[j] == p);
            } else {
                assert(rest[j - 1] == p);
            }
        }
        lemma_covering_length(rest, (n - 1) as nat);
    }
}

/// A sequence of distinct values below `n` has at most `n` elements.
proof fn lemma_distinct_length(s: Seq<usize>, n: nat)
    requires
        n <= 64,
        distinct(s),
        forall|i: int| 0 <= i < s.len() ==> s[i] < n,
    ensures
        s.len() <= n,
    decreases n,
{
    if n == 0 {
        if s.len() > 0 {
            assert(s[0] < 0);
        }
    } else {
        let top = (n - 1) as usize;
        if s.contains(top) {
            let k = choose|k: int| 0 <= k < s.len() && s[k] == top;
            let rest = s.remove(k);
            assert forall|i: int| 0 <= i < rest.len() implies rest[i] < (n - 1) as nat by {
                if i < k {
                    assert(rest[i] == s[i] && i != k);
                } else {
                    assert(rest[i] == s[i + 1] && i + 1 != k);
                }
            }
            assert forall|i: int, j: int|
                0 <= i < rest.len() && 0 <= j < rest.len() && i != j implies rest[i] != rest[j] by {
                let si = if i < k { i } else { i + 1 };
                let sj = if j < k { j } else { j + 1 };
                assert(rest[i] == s[si] && rest[j] == s[sj] && si != sj);
            }
            lemma_distinct_length(rest, (n - 1) as nat);
        } else {
            assert forall|i: int| 0 <= i < s.len() implies s[i] < (n - 1) as nat by {
                assert(s[i] != top);
            }
            lemma_distinct_length(s, (n - 1) as nat);
        }
    }
}

/// `n` distinct values below `n` cover every value below `n`.
proof fn lemma_distinct_full_covers(s: Seq<usize>, n: nat, p: usize)
    requires
        1 <= n <= 64,
        distinct(s),
        s.len() == n,
        forall|i: int| 0 <= i < s.len() ==> s[i] < n,
        p < n,
    ensures
        s.contains(p),
{
    if !s.contains(p) {
        let squeezed = s.map_values(|v: usize| if v > p { (v - 1) as usize } else { v });
        assert forall|i: int| 0 <= i < squeezed.len() implies squeezed[i] < (n - 1) as nat by {
            assert(s[i] != p);
        }
        assert forall|i: int, j: int|
            0 <= i < squeezed.len() && 0 <= j < squeezed.len() && i != j implies squeezed[i]
            != squeezed[j] by {
            assert(s[i] != p && s[j] != p && s[i] != s[j]);
        }
        lemma_distinct_length(squeezed, (n - 1) as nat);
    }
}

// ---------------------------------------------------------------------------
// The threshold tile.
// ---------------------------------------------------------------------------

/// Some cell of the tile holds rank `v`.
pub open spec fn tile_has_rank(tile: Seq<u8>, v: u8) -> bool {
    exists|p: int| 0 <= p < 64 && tile[p] == v
}

/// The tile holds each rank 0..64 exactly once.
pub open spec fn is_tile_permutation(tile: Seq<u8>) -> bool {
    &&& tile.len() == 64
    &&& forall|i: int| 0 <= i < 64 ==> tile[i] < 64
    &&& forall|i: int, j: int| 0 <= i < 64 && 0 <= j < 64 && i != j ==> tile[i] != tile[j]
    &&& forall|v: u8| v < 64 ==> #[trigger] tile_has_rank(tile, v)
}

/// The cells that `order` has ranked so far, as a used flag per cell.
pub open spec fn used_of(order: Seq<usize>) -> Seq<bool> {
    Seq::new(64, |p: int| order.contains(p as usize))
}

/// The best-candidate step: `remaining` more draws of an unused cell from
/// generator state `state`, keeping the first candidate and then each one
/// strictly farther from the ranked cells `order` than the best so far.
/// Gives the best candidate and the generator state after the draws.
pub open spec fn pick_best(
    state: u32,
    order: Seq<usize>,
    remaining: nat,
    best: Option<usize>,
    best_distance: int,
) -> (Option<usize>, u32)
    decreases remaining,
{
    if remaining == 0 {
        (best, state)
    } else {
        let (drawn, next) = draw_unused(state, used_of(order), 64);
        match drawn {
            Some(c) => {
                let d = nearest_distance(c, order);
                if best is None || d > best_distance {
                    pick_best(next, order, (remaining - 1) as nat, Some(c), d)
                } else {
                    pick_best(next, order, (remaining - 1) as nat, best, best_distance)
                }
            },
            None => pick_best(next, order, (remaining - 1) as nat, best, best_distance),
        }
    }
}

/// The first `n` cells in rank order, and the generator state after them:
/// rank 0 goes to the cell of the first draw from `TILE_SEED`; each later
/// rank to the best of `BEST_CANDIDATE_SAMPLES` candidates.
pub open spec fn ranking(n: nat) -> (Seq<usize>, u32)
    decreases n,
{
    if n == 0 {
        (Seq::empty(), TILE_SEED)
    } else if n == 1 {
        let next = xorshift(TILE_SEED);
        (seq![(next % 64) as usize], next)
    } else {
        let (order, state) = ranking((n - 1) as nat);
        let (best, next) = pick_best(state, order, BEST_CANDIDATE_SAMPLES as nat, None, 0);
        let chosen = match best {
            Some(c) => c,
            None => 0usize,
        };
        (order.push(chosen), next)
    }
}

/// The rank of cell `p` in `order`.
pub open spec fn rank_of(order: Seq<usize>, p: usize) -> int {
    choose|k: int| 0 <= k < order.len() && order[k] == p
}

/// The blue-noise threshold tile: each cell holds its rank in the
/// best-candidate ranking of all 64 cells.
pub open spec fn blue_noise_ranking() -> Seq<u8> {
    let order = ranking(64).0;
    Seq::new(64, |p: int| rank_of(order, p as usize) as u8)
}

/// Ranks the 64 cells of the 8x8 threshold tile: each new rank goes to the
/// best of 32 random unused cells, the one farthest (on the torus) from every
/// cell already ranked. The tile maps each cell to its rank.
pub fn generate_blue_noise_tile() -> (tile: [u8; 64])
    ensures
        is_tile_permutation(tile@),
        tile@ == blue_noise_ranking(),
{
    let mut order: Vec<usize> = Vec::new();
    let mut used: Vec<bool> = vec![false; 64];
    let mut state: u32 = TILE_SEED;

    let first = (next_random(&mut state) % 64) as usize;
    order.push(first);
    used.set(first, true);
    proof {
        assert forall|p: usize| p < 64 implies (used@[p as int] == order@.contains(p)) by {
            if p == first {
                assert(order@[0] == first);
            } else {
                if order@.contains(p) {
                    let k = choose|k: int| 0 <= k < order@.len() && order@[k] == p;
                    assert(k == 0);
                }
            }
        }
        assert(order@ =~= seq![first]);
        assert((order@, state) == ranking(1));
    }

    let mut rank: usize = 1;
    while rank < TILE_SIZE
        invariant
            1 <= rank <= 64,
            order@.len() == rank,
            used@.len() == 64,
            forall|i: int| 0 <= i < order@.len() ==> order@[i] < 64,
            distinct(order@),
            forall|p: usize| p < 64 ==> (used@[p as int] == order@.contains(p)),
            (order@, state) == ranking(rank as nat),
        decreases 64 - rank,
    {
        // Fewer than 64 cells are ranked, so some cell is still unused.
        proof {
            if forall|p: int| 0 <= p < 64 ==> used@[p] {
                assert forall|p: usize| p < 64 implies order@.contains(p) by {
                    assert(used@[p as int]);
                }
                lemma_covering_length(order@, 64);
            }
        }
        let ghost some_unused = exists|p: int| 0 <= p < 64 && !used@[p];
        assert(some_unused);

        proof {
            assert(used@ =~= used_of(order@));
        }
        let ghost start = state;
        let mut best_candidate: Option<usize> = None;
        let mut best_distance: u32 = 0;
        let mut sample: usize = 0;
        while sample < BEST_CANDIDATE_SAMPLES
            invariant
                0 <= sample <= 32,
                order@.len() == rank,
                rank < 64,
                used@.len() == 64,
                forall|i: int| 0 <= i < order@.len() ==> order@[i] < 64,
                exists|p: int| 0 <= p < 64 && !used@[p],
                best_candidate matches Some(c) ==> c < 64 && !used@[c as int],
                sample > 0 ==> best_candidate is Some,
                used@ == used_of(order@),
                pick_best(start, order@, 32, None, 0) == pick_best(
                    state,
                    order@,
                    (32 - sample) as nat,
                    best_candidate,
                    best_distance as int,
                ),
            decreases 32 - sample,
        {
            let ghost state_before = state;
            let drawn = random_unused_position(&mut state, used.as_slice());
            proof {
                lemma_draw_unused(state_before, used@, 64);
            }
            if let Some(candidate) = drawn {
                let nearest_distance = nearest_selected_distance_sq(candidate, order.as_slice());
                if best_candidate.is_none() || nearest_distance > best_distance {
                    best_candidate = Some(candidate);
                    best_distance = nearest_distance;
                }
            } else {
                assert(false);
            }
            sample = sample + 1;
        }

        let candidate = match best_candidate {
            Some(c) => c,
            None => 0,
        };
        proof {
            assert(!order@.contains(candidate));
        }
        let ghost old_order = order@;
        proof {
            assert(ranking((rank + 1) as nat) == (old_order.push(candidate), state));
        }
        order.push(candidate);
        used.set(candidate, true);
        proof {
            assert forall|i: int, j: int|
                0 <= i < order@.len() && 0 <= j < order@.len() && i != j implies order@[i]
                != order@[j] by {
                if i < old_order.len() && j < old_order.len() {
                    assert(old_order[i] != old_order[j]);
                } else if i == old_order.len() {
                    assert(old_order[j] == order@[j]);
                    assert(old_order.contains(order@[j]));
                } else {
                    assert(old_order[i] == order@[i]);
                    assert(old_order.contains(order@[i]));
                }
            }
            assert forall|p: usize| p < 64 implies (used@[p as int] == order@.contains(p)) by {
                if p == candidate {
                    assert(order@[old_order.len() as int] == p);
                } else {
                    if order@.contains(p) {
                        let k = choose|k: int| 0 <= k < order@.len() && order@[k] == p;
                        assert(k < old_order.len());
                        assert(old_order[k] == p);
                    }
                    if old_order.contains(p) {
                        let k = choose|k: int| 0 <= k < old_order.len() && old_order[k] == p;
                        assert(order@[k] == p);
                    }
                }
            }
        }
        rank = rank + 1;
    }

    let mut tile: [u8; 64] = [0u8; 64];
    let mut r: usize = 0;
    while r < TILE_SIZE
        invariant
            0 <= r <= 64,
            order@.len() == 64,
            tile@.len() == 64,
            forall|i: int| 0 <= i < 64 ==> order@[i] < 64,
            distinct(order@),
            forall|k: int| 0 <= k < r ==> tile@[order@[k] as int] == k,
        decreases 64 - r,
    {
        let position = order[r];
        tile[position] = r as u8;
        proof {
            assert forall|k: int| 0 <= k < r + 1 implies tile@[order@[k] as int] == k by {
                if k < r {
                    assert(order@[k] != order@[r as int]);
                }
            }
        }
        r = r + 1;
    }

    proof {
        assert forall|p: int| #![trigger tile@[p]] 0 <= p < 64 implies exists|k: int|
            0 <= k < 64 && order@[k] == p && tile@[p] == k by {
            lemma_distinct_full_covers(order@, 64, p as usize);
            let k = choose|k: int| 0 <= k < order@.len() && order@[k] == p as usize;
            assert(tile@[p] == k);
        }
        assert forall|i: int| 0 <= i < 64 implies tile@[i] < 64 by {
            let k = choose|k: int| 0 <= k < 64 && order@[k] == i && tile@[i] == k;
        }
        assert forall|i: int, j: int| 0 <= i < 64 && 0 <= j < 64 && i != j implies tile@[i]
            != tile@[j] by {
            let ki = choose|k: int| 0 <= k < 64 && order@[k] == i && tile@[i] == k;
            let kj = choose|k: int| 0 <= k < 64 && order@[k] == j && tile@[j] == k;
        }
        assert forall|v: u8| v < 64 implies #[trigger] tile_has_rank(tile@, v) by {
            let p = order@[v as int] as int;
            assert(tile@[p] == v);
        }
    }
    tile
}

// ---------------------------------------------------------------------------
// Quantisation.
// ---------------------------------------------------------------------------

/// The threshold that the tile gives pixel `(x, y)`.
pub open spec fn tile_threshold(tile: Seq<u8>, x: int, y: int) -> u8 {
    tile[(y % 8) * 8 + x % 8]
}

/// The tile's threshold for a pixel, repeating the tile across the surface.
pub fn threshold_at(tile: &[u8; 64], x: usize, y: usize) -> (r: u8)
    ensures
        r == tile_threshold(tile@, x as int, y as int),
{
    let x = x % TILE_WIDTH;
    let y = y % TILE_HEIGHT;
    tile[y * TILE_WIDTH + x]
}

/// The 8-bit level that dithering picks for a 10-bit channel and threshold.
pub open spec fn quantized(channel10: int, threshold: int) -> int {
    let nearest = u10_to_u8(channel10);
    let anchor = u8_to_u10(nearest);
    if channel10 == anchor {
        nearest
    } else {
        let lower8 = if channel10 > anchor { nearest } else if nearest > 0 { nearest - 1 } else { 0 };
        let upper8 = if channel10 > anchor {
            if nearest < 255 { nearest + 1 } else { 255 }
        } else {
            nearest
        };
        if lower8 == upper8 {
            lower8
        } else {
            let lower_anchor = u8_to_u10(lower8);
            let upper_anchor = u8_to_u10(upper8);
            let span = if upper_anchor > lower_anchor { upper_anchor - lower_anchor } else { 0 };
            if span == 0 {
                lower8
            } else {
                let offset = if channel10 > lower_anchor { channel10 - lower_anchor } else { 0 };
                let position = if offset < span { offset } else { span };
                if position * 64 > threshold * span { upper8 } else { lower8 }
            }
        }
    }
}

proof fn lemma_u8_to_u10_bounds(c: int)
    requires
        0 <= c <= 255,
    ensures
        0 <= u8_to_u10(c) <= 1023,
{
}

/// Rounds a 10-bit channel to one of its two neighbouring 8-bit levels; the
/// farther it lies towards the upper level, the more thresholds pick it.
pub fn quantize_channel_with_blue_noise(channel10: u16, threshold: u8) -> (r: u8)
    ensures
        r as int == quantized(channel10 as int, threshold as int),
{
    let nearest = u10_to_u8_channel(channel10);
    let anchor = u8_to_u10_channel(nearest);
    if channel10 == anchor {
        return nearest;
    }
    let (lower8, upper8) = if channel10 > anchor {
        (nearest, nearest.saturating_add(1))
    } else {
        (nearest.saturating_sub(1), nearest)
    };
    if lower8 == upper8 {
        return lower8;
    }
    let lower_anchor = u8_to_u10_channel(lower8) as u32;
    let upper_anchor = u8_to_u10_channel(upper8) as u32;
    let span = upper_anchor.saturating_sub(lower_anchor);
    if span == 0 {
        return lower8;
    }
    let offset = (channel10 as u32).saturating_sub(lower_anchor);
    let position = if offset < span { offset } else { span };
    // `position` is at most 1023, so the product cannot saturate.
    assert(span <= 1023);
    assert(position <= 1023);
    assert(position * 64 <= 65472 && threshold as u32 * span <= 260865) by (nonlinear_arith)
        requires
            position <= 1023,
            span <= 1023,
            threshold <= 255,
    ;
    let choose_upper = position * 64 > threshold as u32 * span;
    if choose_upper {
        upper8
    } else {
        lower8
    }
}

/// The surface word that a pixel dithers to at `(x, y)`.
pub open spec fn dithered_word(pixel: u32, x: int, y: int, tile: Seq<u8>) -> int {
    if alpha_of(pixel) == 0 {
        0
    } else {
        softbuffer_word(
            quantized(red_of(pixel), tile_threshold(tile, x, y) as int),
            quantized(green_of(pixel), tile_threshold(tile, x + 4, y + 1) as int),
            quantized(blue_of(pixel), tile_threshold(tile, x + 1, y + 4) as int),
        )
    }
}

/// Converts a pixel to the surface's `0x00RRGGBB` word, dithering each
/// channel against the tile at offset positions; transparent pixels become 0.
pub fn to_softbuffer_rgb_blue_noise(pixel: u32, x: usize, y: usize, tile: &[u8; 64]) -> (r: u32)
    requires
        x <= usize::MAX - 4,
        y <= usize::MAX - 4,
    ensures
        r as int == dithered_word(pixel, x as int, y as int, tile@),
{
    if is_transparent(pixel) {
        return 0;
    }
    let (red10, green10, blue10) = unpack_rgb10(pixel);
    let red = quantize_channel_with_blue_noise(red10, threshold_at(tile, x, y));
    let green = quantize_channel_with_blue_noise(
        green10,
        threshold_at(tile, x + (TILE_WIDTH / 2), y + 1),
    );
    let blue = quantize_channel_with_blue_noise(
        blue10,
        threshold_at(tile, x + 1, y + (TILE_HEIGHT / 2)),
    );
    pack_softbuffer_channels(red, green, blue)
}

// ---------------------------------------------------------------------------
// Laws.
// ---------------------------------------------------------------------------

/// A 10-bit channel that sits exactly on an 8-bit level is never dithered:
/// every threshold gives that level back.
pub proof fn lemma_anchor_channels_do_not_dither(channel: int, threshold: int)
    requires
        0 <= channel <= 255,
    ensures
        quantized(u8_to_u10(channel), threshold) == channel,
{
    crate::color::lemma_u8_u10_round_trip(channel);
}

/// `level` is the 8-bit level just below (or at) `channel10`, or the one
/// just above (or at) it.
pub open spec fn is_neighbouring_level(channel10: int, level: int) -> bool {
    &&& 0 <= level <= 255
    &&& {
        ||| u8_to_u10(level) <= channel10 && (level == 255 || channel10 < u8_to_u10(level + 1))
        ||| channel10 <= u8_to_u10(level) && (level == 0 || u8_to_u10(level - 1) < channel10)
    }
}

proof fn lemma_nearest_level_brackets(channel10: int)
    requires
        0 <= channel10 <= 1023,
    ensures
        0 <= u10_to_u8(channel10) <= 255,
        channel10 > u8_to_u10(u10_to_u8(channel10)) ==> u10_to_u8(channel10) < 255 && channel10
            < u8_to_u10(u10_to_u8(channel10) + 1),
        channel10 < u8_to_u10(u10_to_u8(channel10)) ==> u10_to_u8(channel10) > 0 && u8_to_u10(
            u10_to_u8(channel10) - 1,
        ) < channel10,
{
    let n = u10_to_u8(channel10);
    assert(1023 * n <= 255 * channel10 + 511 && 255 * channel10 + 511 < 1023 * n + 1023);
    let a = u8_to_u10(n);
    assert(255 * a <= 1023 * n + 127 && 1023 * n + 127 < 255 * a + 255);
    if channel10 > a {
        if n == 255 {
            assert(a == 1023);
        }
        let up = u8_to_u10(n + 1);
        assert(255 * up <= 1023 * (n + 1) + 127 && 1023 * (n + 1) + 127 < 255 * up + 255);
    }
    if channel10 < a {
        if n == 0 {
            assert(a == 0);
        }
        let down = u8_to_u10(n - 1);
        assert(255 * down <= 1023 * (n - 1) + 127);
    }
}

/// Dithering only ever picks one of the two 8-bit levels that bracket the
/// 10-bit channel, whatever the threshold.
pub proof fn lemma_quantized_is_neighbouring_level(channel10: int, threshold: int)
    requires
        0 <= channel10 <= 1023,
    ensures
        is_neighbouring_level(channel10, quantized(channel10, threshold)),
{
    lemma_nearest_level_brackets(channel10);
    let n = u10_to_u8(channel10);
    lemma_u8_to_u10_bounds(n);
    if n < 255 {
        lemma_u8_to_u10_bounds(n + 1);
    }
    if n > 0 {
        lemma_u8_to_u10_bounds(n - 1);
    }
}

/// An opaque 8-bit colour reaches the surface unchanged: packing it and then
/// dithering it at any position gives its `0x00RRGGBB` word.
#[verifier::spinoff_prover]
#[verifier::rlimit(30)]
pub proof fn lemma_exact_colors_survive_dithering(
    color: crate::color::Color,
    x: int,
    y: int,
    tile: Seq<u8>,
)
    ensures
        0 <= crate::color::packed_rgb(color) <= u32::MAX,
        dithered_word(crate::color::packed_rgb(color) as u32, x, y, tile) == softbuffer_word(
            color.r as int,
            color.g as int,
            color.b as int,
        ),
{
    let p = crate::color::packed_rgb(color);
    lemma_u8_to_u10_bounds(color.r as int);
    lemma_u8_to_u10_bounds(color.g as int);
    lemma_u8_to_u10_bounds(color.b as int);
    crate::color::lemma_packed_channels(
        u8_to_u10(color.r as int),
        u8_to_u10(color.g as int),
        u8_to_u10(color.b as int),
        3,
    );
    let pixel = p as u32;
    assert(red_of(pixel) == u8_to_u10(color.r as int));
    assert(green_of(pixel) == u8_to_u10(color.g as int));
    assert(blue_of(pixel) == u8_to_u10(color.b as int));
    assert(alpha_of(pixel) == 3);
    let tr = tile_threshold(tile, x, y) as int;
    let tg = tile_threshold(tile, x + 4, y + 1) as int;
    let tb = tile_threshold(tile, x + 1, y + 4) as int;
    lemma_anchor_channels_do_not_dither(color.r as int, tr);
    lemma_anchor_channels_do_not_dither(color.g as int, tg);
    lemma_anchor_channels_do_not_dither(color.b as int, tb);
    assert(quantized(red_of(pixel), tr) == color.r);
    assert(quantized(green_of(pixel), tg) == color.g);
    assert(quantized(blue_of(pixel), tb) == color.b);
}

/// A dithered pixel is a `0x00RRGGBB` word: it fits in 24 bits.
pub proof fn lemma_dithered_word_fits(pixel: u32, x: int, y: int, tile: Seq<u8>)
    ensures
        0 <= dithered_word(pixel, x, y, tile) <= 0xff_ffff,
{
    if alpha_of(pixel) != 0 {
        let r = quantized(red_of(pixel), tile_threshold(tile, x, y) as int);
        let g = quantized(green_of(pixel), tile_threshold(tile, x + 4, y + 1) as int);
        let b = quantized(blue_of(pixel), tile_threshold(tile, x + 1, y + 4) as int);
        lemma_quantized_is_neighbouring_level(red_of(pixel), tile_threshold(tile, x, y) as int);
        lemma_quantized_is_neighbouring_level(green_of(pixel), tile_threshold(tile, x + 4, y + 1) as int);
        lemma_quantized_is_neighbouring_level(blue_of(pixel), tile_threshold(tile, x + 1, y + 4) as int);
        assert(0 <= r * 65536 + g * 256 + b <= 0xff_ffff) by (nonlinear_arith)
            requires
                0 <= r <= 255,
                0 <= g <= 255,
                0 <= b <= 255,
        ;
    }
}

} // verus!
