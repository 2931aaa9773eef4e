use vstd::prelude::*;

verus! {

/// The half-open band of rows `[lower, upper)` that worker `thread_index` of
/// `thread_count` renders in an image of `ny` rows. Every band has
/// `ny / thread_count` rows, but the last one also takes the remainder.
pub open spec fn segment(thread_count: nat, thread_index: nat, ny: nat) -> (nat, nat) {
    let size = ny / thread_count;
    let lower = size * thread_index;
    let upper = if thread_index + 1 == thread_count { ny } else { size * (thread_index + 1) };
    (lower, upper)
}

/// Rows `[lower, upper)` of worker `thread_index`.
pub fn get_segment(thread_count: usize, thread_index: usize, ny: usize) -> (r: (usize, usize))
    requires
        0 < thread_count,
        thread_index < thread_count,
    ensures
        r.0 as nat == segment(thread_count as nat, thread_index as nat, ny as nat).0,
        r.1 as nat == segment(thread_count as nat, thread_index as nat, ny as nat).1,
{
    let segment_size = ny / thread_count;
    proof {
        lemma_band_bounds(thread_count as nat, thread_index as nat, ny as nat);
    }
    let lower = segment_size * thread_index;
    let upper = if thread_index == thread_count - 1 {
        ny
    } else {
        segment_size * (thread_index + 1)
    };
    (lower, upper)
}

proof fn lemma_band_bounds(thread_count: nat, thread_index: nat, ny: nat)
    requires
        0 < thread_count,
        thread_index < thread_count,
    ensures
        (ny / thread_count) * thread_index <= (ny / thread_count) * (thread_index + 1),
        (ny / thread_count) * (thread_index + 1) <= ny,
{
    let s = ny / thread_count;
    assert(s * thread_count <= ny) by (nonlinear_arith)
        requires s == ny / thread_count, 0 < thread_count;
    assert(s * thread_index <= s * (thread_index + 1)) by (nonlinear_arith);
    assert(s * (thread_index + 1) <= s * thread_count) by (nonlinear_arith)
        requires thread_index + 1 <= thread_count;
}

/// Worker `thread_index` draws its random numbers from a generator seeded with
/// this value, so that a render with the same settings repeats exactly.
pub open spec fn seed_of(thread_index: nat) -> nat {
    1234 * thread_index
}

/// The largest worker index whose seed fits in a `u64`.
pub const MAX_THREADS: u64 = 14948739119699798;

/// One worker's share of a render: its index, its seed and its rows.
#[derive(Clone, Copy, Debug, PartialEq, Eq)]
pub struct Band {
    pub thread_index: usize,
    pub seed: u64,
    pub lower: usize,
    pub upper: usize,
}

/// The seed of worker `thread_index`.
pub fn thread_seed(thread_index: usize) -> (r: u64)
    requires
        thread_index <= MAX_THREADS,
    ensures
        r as nat == seed_of(thread_index as nat),
{
    1234 * (thread_index as u64)
}

/// The band of worker `thread_index`.
pub open spec fn band(thread_count: nat, thread_index: nat, ny: nat) -> Band {
    Band {
        thread_index: thread_index as usize,
        seed: seed_of(thread_index) as u64,
        lower: segment(thread_count, thread_index, ny).0 as usize,
        upper: segment(thread_count, thread_index, ny).1 as usize,
    }
}

/// The bands of a render in the order in which the workers are started and
/// their results joined: the highest index first. Each band's rows are
/// rendered from the top down, so joining the results in this order gives
/// the rows of the image from `ny - 1` down to `0`.
pub open spec fn plan(thread_count: nat, ny: nat) -> Seq<Band> {
    Seq::new(thread_count, |k: int| band(thread_count, (thread_count - 1 - k) as nat, ny))
}

/// The bands of a render, in the order of `plan`. They depend on the worker
/// count and the image height alone, so a render repeats exactly.
pub fn render_plan(thread_count: usize, ny: usize) -> (r: Vec<Band>)
    requires
        0 < thread_count,
        thread_count <= MAX_THREADS,
    ensures
        r@ == plan(thread_count as nat, ny as nat),
{
    let mut bands: Vec<Band> = Vec::new();
    let mut k: usize = 0;
    while k < thread_count
        invariant
            k <= thread_count,
            0 < thread_count <= MAX_THREADS,
            bands@ == plan(thread_count as nat, ny as nat).take(k as int),
        decreases thread_count - k,
    {
        let thread_index = thread_count - 1 - k;
        let (lower, upper) = get_segment(thread_count, thread_index, ny);
        proof {
            lemma_band_bounds(thread_count as nat, thread_index as nat, ny as nat);
        }
        let seed = thread_seed(thread_index);
        bands.push(Band { thread_index, seed, lower, upper });
        k = k + 1;
        assert(bands@ =~= plan(thread_count as nat, ny as nat).take(k as int));
    }
    assert(bands@ =~= plan(thread_count as nat, ny as nat));
    bands
}

/// The worker whose band holds row `y`.
pub open spec fn band_of_row(thread_count: nat, ny: nat, y: nat) -> nat {
    let size = ny / thread_count;
    if size == 0 || y / size >= thread_count - 1 {
        (thread_count - 1) as nat
    } else {
        y / size
    }
}

pub open spec fn in_band(thread_count: nat, i: nat, ny: nat, y: nat) -> bool {
    segment(thread_count, i, ny).0 <= y < segment(thread_count, i, ny).1
}

/// The bands tile the rows of the image: the first starts at row 0, each
/// ends where the next begins, the last ends at `ny`, and every row lies in
/// the band of exactly one worker.
pub proof fn lemma_bands_tile_rows(thread_count: nat, ny: nat)
    requires
        0 < thread_count,
    ensures
        segment(thread_count, 0, ny).0 == 0,
        segment(thread_count, (thread_count - 1) as nat, ny).1 == ny,
        forall|i: nat|
            i + 1 < thread_count ==> #[trigger] segment(thread_count, i, ny).1 == segment(
                thread_count,
                i + 1,
                ny,
            ).0,
        forall|y: nat|
            y < ny ==> band_of_row(thread_count, ny, y) < thread_count && #[trigger] in_band(
                thread_count,
                band_of_row(thread_count, ny, y),
                ny,
                y,
            ),
        forall|i: nat, j: nat, y: nat|
            i < thread_count && j < thread_count && #[trigger] in_band(thread_count, i, ny, y)
                && #[trigger] in_band(thread_count, j, ny, y) ==> i == j,
{
    let size = ny / thread_count;
    assert(size * 0 == 0) by (nonlinear_arith);
    assert forall|y: nat| y < ny implies band_of_row(thread_count, ny, y) < thread_count
        && #[trigger] in_band(thread_count, band_of_row(thread_count, ny, y), ny, y) by {
        lemma_row_in_band(thread_count, ny, y);
    }
    assert forall|i: nat, j: nat, y: nat|
        i < thread_count && j < thread_count && #[trigger] in_band(thread_count, i, ny, y)
            && #[trigger] in_band(thread_count, j, ny, y) implies i == j by {
        if i < j {
            lemma_band_order(thread_count, ny, i, j);
        } else if j < i {
            lemma_band_order(thread_count, ny, j, i);
        }
    }
}

proof fn lemma_row_in_band(thread_count: nat, ny: nat, y: nat)
    requires
        0 < thread_count,
        y < ny,
    ensures
        band_of_row(thread_count, ny, y) < thread_count,
        in_band(thread_count, band_of_row(thread_count, ny, y), ny, y),
{
    let size = ny / thread_count;
    if size == 0 {
        assert(size * (thread_count - 1) == 0) by (nonlinear_arith) requires size == 0;
    } else {
        let q = y / size;
        assert(size * q <= y < size * (q + 1)) by (nonlinear_arith)
            requires q == y / size, size > 0;
        if q >= thread_count - 1 {
            assert(size * (thread_count - 1) <= size * q) by (nonlinear_arith)
                requires q >= thread_count - 1;
        }
    }
}

proof fn lemma_band_order(thread_count: nat, ny: nat, i: nat, j: nat)
    requires
        0 < thread_count,
        i < j < thread_count,
    ensures
        segment(thread_count, i, ny).1 <= segment(thread_count, j, ny).0,
{
    let size = ny / thread_count;
    assert(size * (i + 1) <= size * j) by (nonlinear_arith) requires i + 1 <= j;
}

} // verus!
