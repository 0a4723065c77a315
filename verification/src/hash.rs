//! The spatial hash of the broad phase: a fixed grid of buckets that holds,
//! for the length of one sub-step, the indices of the particles of each cell.

use vstd::prelude::*;

verus! {

/// Cells along each axis of the arena.
pub const GRID: usize = 74;

/// Number of buckets.
pub const BUCKETS: usize = 5547;

/// Bucket of the cell in column `x` and row `y`: the cells are numbered row
/// by row, and whatever lies beyond the last bucket falls into the last.
pub open spec fn bucket_index(x: int, y: int) -> int {
    if x + y * GRID >= BUCKETS - 1 {
        BUCKETS - 1
    } else {
        x + y * GRID
    }
}

/// Bucket of the cell in column `x` and row `y`.
pub fn grid_idx(x: usize, y: usize) -> (r: usize)
    ensures
        r == bucket_index(x as int, y as int),
        r < BUCKETS,
{
    if y > GRID || x >= BUCKETS - 1 {
        BUCKETS - 1
    } else {
        let raw: usize = x + y * GRID;
        if raw >= BUCKETS - 1 {
            BUCKETS - 1
        } else {
            raw
        }
    }
}

/// The cell `(x2, y2)` is one of those that a particle of the cell `(x, y)`
/// is tested against: its own, the one above, the one above and to the left,
/// the one to the left, and the one below and to the left.
pub open spec fn visits(x: int, y: int, x2: int, y2: int) -> bool {
    ||| x2 == x && y2 == y
    ||| y > 0 && x2 == x && y2 == y - 1
    ||| y > 0 && x > 0 && x2 == x - 1 && y2 == y - 1
    ||| x > 0 && x2 == x - 1 && y2 == y
    ||| x > 0 && y < GRID && x2 == x - 1 && y2 == y + 1
}

/// Of two different cells that touch, by a side or by a corner, exactly one
/// is tested against the other.
pub proof fn lemma_half_stencil(x: int, y: int, x2: int, y2: int)
    requires
        0 <= x,
        0 <= x2,
        0 <= y <= GRID,
        0 <= y2 <= GRID,
        x - 1 <= x2 <= x + 1,
        y - 1 <= y2 <= y + 1,
        x != x2 || y != y2,
    ensures
        visits(x, y, x2, y2) != visits(x2, y2, x, y),
{
}

/// The entries of `bucket` other than `i`, in their order.
pub open spec fn others(bucket: Seq<usize>, i: usize) -> Seq<usize>
    decreases bucket.len(),
{
    if bucket.len() == 0 {
        Seq::empty()
    } else if bucket.last() != i {
        others(bucket.drop_last(), i).push(bucket.last())
    } else {
        others(bucket.drop_last(), i)
    }
}

/// The particles that particle `i`, being in the cell `(x, y)`, is tested
/// against, in the order of the tests.
pub open spec fn stencil(buckets: Seq<Seq<usize>>, i: usize, x: int, y: int) -> Seq<usize> {
    let own = others(buckets[bucket_index(x, y)], i);
    let up = if y > 0 {
        others(buckets[bucket_index(x, y - 1)], i)
    } else {
        Seq::empty()
    };
    let up_left = if y > 0 && x > 0 {
        others(buckets[bucket_index(x - 1, y - 1)], i)
    } else {
        Seq::empty()
    };
    let left = if x > 0 {
        others(buckets[bucket_index(x - 1, y)], i)
    } else {
        Seq::empty()
    };
    let down_left = if x > 0 && y < GRID {
        others(buckets[bucket_index(x - 1, y + 1)], i)
    } else {
        Seq::empty()
    };
    own + up + up_left + left + down_left
}

/// Among the first `n` particles, those whose cell has bucket `b`, in rising
/// order.
pub open spec fn members(cells: Seq<(usize, usize)>, b: int, n: nat) -> Seq<usize>
    decreases n,
{
    if n == 0 {
        Seq::empty()
    } else if bucket_index(cells[n - 1].0 as int, cells[n - 1].1 as int) == b {
        members(cells, b, (n - 1) as nat).push((n - 1) as usize)
    } else {
        members(cells, b, (n - 1) as nat)
    }
}

/// The spatial hash that holds particle `i` in the bucket of `cells[i]`.
pub open spec fn hash_of(cells: Seq<(usize, usize)>) -> Seq<Seq<usize>> {
    Seq::new(BUCKETS as nat, |b: int| members(cells, b, cells.len()))
}

/// The buckets of the grid, each a list of particle indices.
pub struct SpatialHash {
    buckets: Vec<Vec<usize>>,
}

impl View for SpatialHash {
    type V = Seq<Seq<usize>>;

    closed spec fn view(&self) -> Seq<Seq<usize>> {
        Seq::new(self.buckets@.len(), |b: int| self.buckets@[b]@)
    }
}

impl SpatialHash {
    /// The hash has all its buckets.
    pub open spec fn wf(&self) -> bool {
        self@.len() == BUCKETS
    }

    /// No bucket holds anything.
    pub open spec fn is_clear(&self) -> bool {
        forall|b: int| 0 <= b < self@.len() ==> (#[trigger] self@[b]).len() == 0
    }

    /// Every entry is the index of one of `n` particles.
    pub open spec fn below(&self, n: int) -> bool {
        forall|b: int, k: int|
            0 <= b < self@.len() && 0 <= k < self@[b].len() ==> (#[trigger] self@[b][k]) < n
    }

    /// A hash with all its buckets empty.
    pub fn new() -> (r: Self)
        ensures
            r.wf(),
            r.is_clear(),
    {
        let mut buckets: Vec<Vec<usize>> = Vec::new();
        let mut b: usize = 0;
        while b < BUCKETS
            invariant
                b <= BUCKETS,
                buckets@.len() == b,
                forall|c: int| 0 <= c < b ==> (#[trigger] buckets@[c])@.len() == 0,
            decreases BUCKETS - b,
        {
            buckets.push(Vec::new());
            b += 1;
        }
        SpatialHash { buckets }
    }

    /// Empties every bucket.
    pub fn clear(&mut self)
        requires
            old(self).wf(),
        ensures
            final(self).wf(),
            final(self).is_clear(),
    {
        let mut b: usize = 0;
        while b < BUCKETS
            invariant
                b <= BUCKETS,
                self.buckets@.len() == BUCKETS,
                forall|c: int| 0 <= c < b ==> (#[trigger] self.buckets@[c])@.len() == 0,
            decreases BUCKETS - b,
        {
            self.buckets[b].clear();
            b += 1;
        }
    }

    /// Enters particle `i` into the bucket of the cell `(x, y)`.
    pub fn insert(&mut self, i: usize, x: usize, y: usize)
        requires
            old(self).wf(),
        ensures
            final(self).wf(),
            final(self)@ == old(self)@.update(
                bucket_index(x as int, y as int),
                old(self)@[bucket_index(x as int, y as int)].push(i),
            ),
    {
        let b = grid_idx(x, y);
        self.buckets[b].push(i);
        assert(self@ =~= old(self)@.update(b as int, old(self)@[b as int].push(i)));
    }

    /// Fills the hash anew: particle `i` goes to the bucket of `cells[i]`.
    pub fn rebuild(&mut self, cells: &Vec<(usize, usize)>)
        requires
            old(self).wf(),
        ensures
            final(self).wf(),
            final(self).below(cells@.len() as int),
            final(self)@ == hash_of(cells@),
    {
        self.clear();
        assert forall|b: int| 0 <= b < BUCKETS implies #[trigger] self@[b] == members(
            cells@,
            b,
            0,
        ) by {
            assert(self@[b].len() == 0);
            assert(self@[b] =~= Seq::empty());
        }
        let mut i: usize = 0;
        while i < cells.len()
            invariant
                i <= cells@.len(),
                self.wf(),
                forall|b: int|
                    0 <= b < BUCKETS ==> #[trigger] self@[b] == members(cells@, b, i as nat),
            decreases cells@.len() - i,
        {
            let (x, y) = cells[i];
            self.insert(i, x, y);
            i += 1;
        }
        assert forall|b: int, k: int|
            0 <= b < self@.len() && 0 <= k < self@[b].len() implies (#[trigger] self@[b][k])
            < cells@.len() by {
            lemma_members_below(cells@, b, cells@.len());
        }
        assert(self@ =~= hash_of(cells@));
    }

    /// Writes into `out` the particles that particle `i`, being in the cell
    /// `(x, y)`, is to be tested against, in the order of the tests.
    pub fn collect(&self, i: usize, x: usize, y: usize, out: &mut Vec<usize>)
        requires
            self.wf(),
        ensures
            final(out)@ == stencil(self@, i, x as int, y as int),
    {
        out.clear();
        self.append_others(grid_idx(x, y), i, out);
        if y > 0 {
            self.append_others(grid_idx(x, y - 1), i, out);
        }
        if y > 0 && x > 0 {
            self.append_others(grid_idx(x - 1, y - 1), i, out);
        }
        if x > 0 {
            self.append_others(grid_idx(x - 1, y), i, out);
        }
        if x > 0 && y < GRID {
            self.append_others(grid_idx(x - 1, y + 1), i, out);
        }
        assert(out@ =~= stencil(self@, i, x as int, y as int));
    }

    /// The particles that particle `i`, being in the cell `(x, y)`, is to be
    /// tested against, in the order of the tests.
    pub fn candidates(&self, i: usize, x: usize, y: usize) -> (r: Vec<usize>)
        requires
            self.wf(),
        ensures
            r@ == stencil(self@, i, x as int, y as int),
    {
        let mut out: Vec<usize> = Vec::new();
        self.collect(i, x, y, &mut out);
        out
    }

    fn append_others(&self, b: usize, i: usize, out: &mut Vec<usize>)
        requires
            self.wf(),
            b < BUCKETS,
        ensures
            final(out)@ == old(out)@ + others(self@[b as int], i),
    {
        let bucket = &self.buckets[b];
        let ghost before = out@;
        let mut k: usize = 0;
        while k < bucket.len()
            invariant
                k <= bucket@.len(),
                out@ == before + others(bucket@.subrange(0, k as int), i),
            decreases bucket@.len() - k,
        {
            let j = bucket[k];
            assert(bucket@.subrange(0, k + 1).drop_last() == bucket@.subrange(0, k as int));
            if j != i {
                out.push(j);
            }
            k += 1;
        }
        assert(bucket@.subrange(0, k as int) == bucket@);
    }
}

/// The members of a bucket are indices of the particles that were looked at.
pub proof fn lemma_members_below(cells: Seq<(usize, usize)>, b: int, n: nat)
    requires
        n <= usize::MAX,
    ensures
        forall|k: int|
            0 <= k < members(cells, b, n).len() ==> (#[trigger] members(cells, b, n)[k]) < n,
    decreases n,
{
    if n > 0 {
        let rest = members(cells, b, (n - 1) as nat);
        lemma_members_below(cells, b, (n - 1) as nat);
        assert forall|k: int| 0 <= k < members(cells, b, n).len() implies (#[trigger] members(
            cells,
            b,
            n,
        )[k]) < n by {
            if k < rest.len() {
                assert(rest[k] < n - 1);
            }
        }
    }
}

/// Which particles a bucket holds among the first `n` depends on the cells
/// of those `n` only.
pub proof fn lemma_members_prefix(
    c1: Seq<(usize, usize)>,
    c2: Seq<(usize, usize)>,
    b: int,
    n: nat,
)
    requires
        n <= c1.len(),
        n <= c2.len(),
        forall|k: int| 0 <= k < n ==> c1[k] == c2[k],
    ensures
        members(c1, b, n) == members(c2, b, n),
    decreases n,
{
    if n > 0 {
        lemma_members_prefix(c1, c2, b, (n - 1) as nat);
    }
}

/// What is left of a bucket without `i` comes from the bucket and is not `i`.
pub proof fn lemma_others_from(bucket: Seq<usize>, i: usize)
    ensures
        forall|k: int|
            0 <= k < others(bucket, i).len() ==> {
                &&& bucket.contains(#[trigger] others(bucket, i)[k])
                &&& others(bucket, i)[k] != i
            },
    decreases bucket.len(),
{
    if bucket.len() > 0 {
        lemma_others_from(bucket.drop_last(), i);
        assert forall|k: int| 0 <= k < others(bucket, i).len() implies {
            &&& bucket.contains(#[trigger] others(bucket, i)[k])
            &&& others(bucket, i)[k] != i
        } by {
            let v = others(bucket, i)[k];
            if k < others(bucket.drop_last(), i).len() {
                assert(others(bucket.drop_last(), i)[k] == v);
                let t = choose|t: int|
                    0 <= t < bucket.drop_last().len() && bucket.drop_last()[t] == v;
                assert(bucket[t] == v);
            } else {
                assert(bucket[bucket.len() - 1] == v);
            }
        }
    }
}

/// A particle is never tested against itself, and where the hash holds
/// indices below `n` only, it is tested against such indices only.
pub proof fn lemma_stencil_valid(buckets: Seq<Seq<usize>>, n: int, i: usize, x: int, y: int)
    requires
        buckets.len() == BUCKETS,
        0 <= x,
        0 <= y,
        forall|b: int, k: int|
            0 <= b < buckets.len() && 0 <= k < buckets[b].len() ==> (#[trigger] buckets[b][k])
                < n,
    ensures
        forall|k: int|
            0 <= k < stencil(buckets, i, x, y).len() ==> {
                &&& (#[trigger] stencil(buckets, i, x, y)[k]) < n
                &&& stencil(buckets, i, x, y)[k] != i
            },
{
    let own = bucket_index(x, y);
    let up = bucket_index(x, y - 1);
    let up_left = bucket_index(x - 1, y - 1);
    let left = bucket_index(x - 1, y);
    let down_left = bucket_index(x - 1, y + 1);
    lemma_others_from(buckets[own], i);
    lemma_others_from(buckets[up], i);
    lemma_others_from(buckets[up_left], i);
    lemma_others_from(buckets[left], i);
    lemma_others_from(buckets[down_left], i);
    assert forall|k: int| 0 <= k < stencil(buckets, i, x, y).len() implies {
        &&& (#[trigger] stencil(buckets, i, x, y)[k]) < n
        &&& stencil(buckets, i, x, y)[k] != i
    } by {
        let v = stencil(buckets, i, x, y)[k];
        let b = if buckets[own].contains(v) {
            own
        } else if y > 0 && buckets[up].contains(v) {
            up
        } else if y > 0 && x > 0 && buckets[up_left].contains(v) {
            up_left
        } else if x > 0 && buckets[left].contains(v) {
            left
        } else {
            down_left
        };
        assert(buckets[b].contains(v));
        let t = choose|t: int| 0 <= t < buckets[b].len() && buckets[b][t] == v;
        assert(buckets[b][t] < n);
    }
}

proof fn lemma_members_has(cells: Seq<(usize, usize)>, n: nat, j: int)
    requires
        0 <= j < n <= usize::MAX,
    ensures
        members(cells, bucket_index(cells[j].0 as int, cells[j].1 as int), n).contains(
            j as usize,
        ),
    decreases n,
{
    let b = bucket_index(cells[j].0 as int, cells[j].1 as int);
    let rest = members(cells, b, (n - 1) as nat);
    if j == n - 1 {
        assert(members(cells, b, n)[rest.len() as int] == j as usize);
    } else {
        lemma_members_has(cells, (n - 1) as nat, j);
        let t = choose|t: int| 0 <= t < rest.len() && rest[t] == j as usize;
        assert(members(cells, b, n)[t] == j as usize);
    }
}

proof fn lemma_others_has(bucket: Seq<usize>, i: usize, j: usize)
    requires
        bucket.contains(j),
        j != i,
    ensures
        others(bucket, i).contains(j),
    decreases bucket.len(),
{
    let rest = others(bucket.drop_last(), i);
    if bucket.last() == j {
        assert(others(bucket, i)[rest.len() as int] == j);
    } else {
        let t = choose|t: int| 0 <= t < bucket.len() && bucket[t] == j;
        assert(bucket.drop_last()[t] == j);
        lemma_others_has(bucket.drop_last(), i, j);
        let u = choose|u: int| 0 <= u < rest.len() && rest[u] == j;
        assert(others(bucket, i)[u] == j);
    }
}

/// The broad phase misses no pair: of two particles in different cells that
/// touch, by a side or by a corner, one is tested against the other.
pub proof fn lemma_touching_are_paired(cells: Seq<(usize, usize)>, i: int, j: int)
    requires
        cells.len() <= usize::MAX,
        0 <= i < cells.len(),
        0 <= j < cells.len(),
        cells[i].1 <= GRID,
        cells[j].1 <= GRID,
        cells[i].0 - 1 <= cells[j].0 <= cells[i].0 + 1,
        cells[i].1 - 1 <= cells[j].1 <= cells[i].1 + 1,
        cells[i] != cells[j],
    ensures
        stencil(hash_of(cells), i as usize, cells[i].0 as int, cells[i].1 as int).contains(
            j as usize,
        ) || stencil(hash_of(cells), j as usize, cells[j].0 as int, cells[j].1 as int).contains(
            i as usize,
        ),
{
    lemma_half_stencil(
        cells[i].0 as int,
        cells[i].1 as int,
        cells[j].0 as int,
        cells[j].1 as int,
    );
    if visits(cells[i].0 as int, cells[i].1 as int, cells[j].0 as int, cells[j].1 as int) {
        lemma_visited_is_met(cells, i, j);
    } else {
        lemma_visited_is_met(cells, j, i);
    }
}

/// A particle is tested against every other particle that the hash holds in
/// its own cell or in one of the four cells that its cell visits.
pub proof fn lemma_visited_is_met(cells: Seq<(usize, usize)>, i: int, j: int)
    requires
        cells.len() <= usize::MAX,
        0 <= i < cells.len(),
        0 <= j < cells.len(),
        i != j,
        visits(cells[i].0 as int, cells[i].1 as int, cells[j].0 as int, cells[j].1 as int),
    ensures
        stencil(hash_of(cells), i as usize, cells[i].0 as int, cells[i].1 as int).contains(
            j as usize,
        ),
{
    let buckets = hash_of(cells);
    let (x, y) = (cells[i].0 as int, cells[i].1 as int);
    let b = bucket_index(cells[j].0 as int, cells[j].1 as int);
    lemma_members_has(cells, cells.len(), j);
    lemma_others_has(buckets[b], i as usize, j as usize);
    let part = others(buckets[b], i as usize);
    let t = choose|t: int| 0 <= t < part.len() && part[t] == j as usize;
    let own = others(buckets[bucket_index(x, y)], i as usize);
    let up = if y > 0 {
        others(buckets[bucket_index(x, y - 1)], i as usize)
    } else {
        Seq::empty()
    };
    let up_left = if y > 0 && x > 0 {
        others(buckets[bucket_index(x - 1, y - 1)], i as usize)
    } else {
        Seq::empty()
    };
    let left = if x > 0 {
        others(buckets[bucket_index(x - 1, y)], i as usize)
    } else {
        Seq::empty()
    };
    let all = stencil(buckets, i as usize, x, y);
    if cells[j] == cells[i] {
        assert(all[t] == j as usize);
    } else if y > 0 && cells[j].0 == x && cells[j].1 == y - 1 {
        assert(all[own.len() + t] == j as usize);
    } else if y > 0 && x > 0 && cells[j].0 == x - 1 && cells[j].1 == y - 1 {
        assert(all[own.len() + up.len() + t] == j as usize);
    } else if x > 0 && cells[j].0 == x - 1 && cells[j].1 == y {
        assert(all[own.len() + up.len() + up_left.len() + t] == j as usize);
    } else {
        assert(all[own.len() + up.len() + up_left.len() + left.len() + t] == j as usize);
    }
}

} // verus!
