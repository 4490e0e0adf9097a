//! The uniform grid that finds particles near each other: particles are sorted into square
//! cells, and only particles in the same or touching cells are compared.  Positions are
//! turned into integer cells by the caller; here cells are pairs of `i32`.
use vstd::prelude::*;
use std::collections::HashMap;

verus! {

broadcast use vstd::std_specs::hash::group_hash_axioms;

/// The number under which the bucket map stores a cell: the column in the upper 32 bits,
/// the row shifted into `0..2^32` in the lower ones.  Every `i64` names exactly one cell.
pub open spec fn cell_key(c: (i32, i32)) -> i64 {
    (c.0 as int * 0x1_0000_0000 + (c.1 as int + 0x8000_0000)) as i64
}

/// Two cells with the same key are the same cell.
pub proof fn lemma_cell_key_injective(a: (i32, i32), b: (i32, i32))
    requires
        cell_key(a) == cell_key(b),
    ensures
        a == b,
{
    let ka = a.0 as int * 0x1_0000_0000 + (a.1 as int + 0x8000_0000);
    let kb = b.0 as int * 0x1_0000_0000 + (b.1 as int + 0x8000_0000);
    assert(i64::MIN <= ka <= i64::MAX);
    assert(i64::MIN <= kb <= i64::MAX);
    assert(ka == kb);
    if a.0 < b.0 {
        assert(ka < kb);
    } else if a.0 > b.0 {
        assert(ka > kb);
    }
}

fn key_of(c: (i32, i32)) -> (k: i64)
    ensures
        k == cell_key(c),
{
    (c.0 as i64) * 4294967296i64 + ((c.1 as i64) + 2147483648i64)
}

/// The indices below `n` whose cell is `c`, in increasing order.
pub open spec fn bucket_upto(cells: Seq<(i32, i32)>, c: (i32, i32), n: int) -> Seq<usize>
    decreases n,
{
    if n <= 0 {
        Seq::empty()
    } else {
        let b = bucket_upto(cells, c, n - 1);
        if cells[n - 1] == c {
            b.push((n - 1) as usize)
        } else {
            b
        }
    }
}

/// The indices of all cells equal to `c`, in increasing order.
pub open spec fn bucket_of(cells: Seq<(i32, i32)>, c: (i32, i32)) -> Seq<usize> {
    bucket_upto(cells, c, cells.len() as int)
}

/// The bucket map that the grid holds after it was built from `cells`: every occupied cell
/// mapped to the indices that lie in it.
pub open spec fn grid_of(cells: Seq<(i32, i32)>) -> Map<(i32, i32), Seq<usize>> {
    Map::new(|c: (i32, i32)| cells.contains(c), |c: (i32, i32)| bucket_of(cells, c))
}

/// The bucket of cell `c` in a grid, empty where no index lies in `c`.
pub open spec fn grid_bucket(g: Map<(i32, i32), Seq<usize>>, c: (i32, i32)) -> Seq<usize> {
    if g.contains_key(c) {
        g[c]
    } else {
        Seq::empty()
    }
}

/// A bucket lists exactly the indices of its cell, in strictly increasing order.
pub proof fn lemma_bucket_upto(cells: Seq<(i32, i32)>, c: (i32, i32), n: int)
    requires
        0 <= n <= cells.len(),
        cells.len() <= usize::MAX + 1,
    ensures
        forall|t: int| #![trigger bucket_upto(cells, c, n)[t]]
            0 <= t < bucket_upto(cells, c, n).len() ==> {
                &&& bucket_upto(cells, c, n)[t] < n
                &&& cells[bucket_upto(cells, c, n)[t] as int] == c
            },
        forall|s: int, t: int|
            0 <= s < t < bucket_upto(cells, c, n).len() ==> bucket_upto(cells, c, n)[s]
                < bucket_upto(cells, c, n)[t],
        forall|k: int|
            0 <= k < n && cells[k] == c ==> #[trigger] bucket_upto(cells, c, n).contains(
                k as usize,
            ),
        bucket_upto(cells, c, n).len() <= n,
    decreases n,
{
    if n > 0 {
        lemma_bucket_upto(cells, c, n - 1);
        let b = bucket_upto(cells, c, n - 1);
        if cells[n - 1] == c {
            assert(b.push((n - 1) as usize)[b.len() as int] == (n - 1) as usize);
            assert forall|k: int| 0 <= k < n && cells[k] == c implies #[trigger] bucket_upto(
                cells,
                c,
                n,
            ).contains(k as usize) by {
                if k < n - 1 {
                    assert(b.contains(k as usize));
                    let t = choose|t: int| 0 <= t < b.len() && b[t] == k as usize;
                    assert(b.push((n - 1) as usize)[t] == k as usize);
                } else {
                    assert(b.push((n - 1) as usize)[b.len() as int] == k as usize);
                }
            }
        } else {
            assert forall|k: int| 0 <= k < n && cells[k] == c implies #[trigger] bucket_upto(
                cells,
                c,
                n,
            ).contains(k as usize) by {
                assert(k < n - 1);
                assert(b.contains(k as usize));
            }
        }
    }
}

/// Cells sorted into buckets, so that the indices that lie in a cell and its neighbours
/// can be found without looking at every index.
pub struct NeighborGrid {
    buckets: HashMap<i64, Vec<usize>>,
}

impl View for NeighborGrid {
    type V = Map<(i32, i32), Seq<usize>>;

    closed spec fn view(&self) -> Map<(i32, i32), Seq<usize>> {
        Map::new(
            |c: (i32, i32)| self.buckets@.contains_key(cell_key(c)),
            |c: (i32, i32)| self.buckets@[cell_key(c)]@,
        )
    }
}

impl Default for NeighborGrid {
    /// An empty grid.
    fn default() -> (g: NeighborGrid)
        ensures
            g@ == Map::<(i32, i32), Seq<usize>>::empty(),
    {
        NeighborGrid::new()
    }
}

impl NeighborGrid {
    /// An empty grid.
    pub fn new() -> (g: NeighborGrid)
        ensures
            g@ == Map::<(i32, i32), Seq<usize>>::empty(),
    {
        let g = NeighborGrid { buckets: HashMap::new() };
        assert(g@ =~= Map::<(i32, i32), Seq<usize>>::empty());
        g
    }

    /// Removes every index from the grid.
    pub fn clear(&mut self)
        ensures
            final(self)@ == Map::<(i32, i32), Seq<usize>>::empty(),
    {
        self.buckets.clear();
        assert(self@ =~= Map::<(i32, i32), Seq<usize>>::empty());
    }

    /// Refills the grid so that the bucket of each cell lists the indices `i` with
    /// `cells[i]` equal to that cell, in increasing order.
    pub fn rebuild_from_cells(&mut self, cells: &Vec<(i32, i32)>)
        ensures
            final(self)@ == grid_of(cells@),
    {
        self.buckets.clear();
        let n = cells.len();
        for i in 0..n
            invariant
                n == cells@.len(),
                forall|k: i64|
                    self.buckets@.contains_key(k) <==> exists|j: int|
                        0 <= j < i && #[trigger] cell_key(cells@[j]) == k,
                forall|j: int|
                    0 <= j < i ==> #[trigger] self.buckets@[cell_key(cells@[j])]@ == bucket_upto(
                        cells@,
                        cells@[j],
                        i as int,
                    ),
        {
            let key = key_of(cells[i]);
            let ghost old_buckets = self.buckets@;
            let mut b = match self.buckets.remove(&key) {
                Some(v) => v,
                None => Vec::new(),
            };
            proof {
                if !old_buckets.contains_key(key) {
                    assert forall|j: int| 0 <= j < i implies cells@[j] != cells@[i as int] by {
                        if cells@[j] == cells@[i as int] {
                            assert(cell_key(cells@[j]) == key);
                        }
                    }
                    lemma_bucket_empty(cells@, cells@[i as int], i as int);
                }
                assert(b@ == bucket_upto(cells@, cells@[i as int], i as int)) by {
                    if old_buckets.contains_key(key) {
                        let j = choose|j: int| 0 <= j < i && #[trigger] cell_key(cells@[j]) == key;
                        lemma_cell_key_injective(cells@[j], cells@[i as int]);
                    }
                }
            }
            b.push(i);
            self.buckets.insert(key, b);
            proof {
                assert forall|k: i64|
                    exists|j: int| 0 <= j < i + 1 && #[trigger] cell_key(cells@[j]) == k implies self.buckets@.contains_key(
                        k,
                    ) by {}
                assert forall|k: i64|
                    self.buckets@.contains_key(k) implies exists|j: int|
                        0 <= j < i + 1 && #[trigger] cell_key(cells@[j]) == k by {
                    if k == key {
                        assert(cell_key(cells@[i as int]) == k);
                    }
                }
                assert forall|j: int| 0 <= j < i + 1 implies #[trigger] self.buckets@[cell_key(
                    cells@[j],
                )]@ == bucket_upto(cells@, cells@[j], i + 1) by {
                    if cells@[j] == cells@[i as int] {
                    } else {
                        if cell_key(cells@[j]) == key {
                            lemma_cell_key_injective(cells@[j], cells@[i as int]);
                        }
                    }
                }
            }
        }
        proof {
            assert forall|c: (i32, i32)| self@.contains_key(c) <==> cells@.contains(c) by {
                if self.buckets@.contains_key(cell_key(c)) {
                    let j = choose|j: int| 0 <= j < n && #[trigger] cell_key(cells@[j]) == cell_key(c);
                    lemma_cell_key_injective(cells@[j], c);
                }
                if cells@.contains(c) {
                    let j = choose|j: int| 0 <= j < n && cells@[j] == c;
                    assert(cell_key(cells@[j]) == cell_key(c));
                }
            }
            assert forall|c: (i32, i32)| self@.contains_key(c) implies self@[c] == bucket_of(cells@, c) by {
                let j = choose|j: int| 0 <= j < n && cells@[j] == c;
                assert(self.buckets@[cell_key(cells@[j])]@ == bucket_upto(cells@, cells@[j], n as int));
            }
            assert(self@ =~= grid_of(cells@));
        }
    }

    /// The bucket of cell `c`, if any index lies in it.
    pub fn bucket(&self, c: (i32, i32)) -> (r: Option<&Vec<usize>>)
        ensures
            r is Some <==> self@.contains_key(c),
            r matches Some(v) ==> v@ == self@[c],
    {
        self.buckets.get(&key_of(c))
    }

    /// The indices in the 3x3 block of cells around `center`, other than `exclude`: the
    /// buckets row by row from the top, each row from the left, each bucket in its order.
    pub fn neighbor_candidates(&self, center: (i32, i32), exclude: usize) -> (r: Vec<usize>)
        requires
            inner_cell(center),
        ensures
            r@ == block_candidates(self@, center, exclude, 9),
    {
        let mut out: Vec<usize> = Vec::new();
        let mut oy: i32 = -1;
        while oy <= 1
            invariant
                -1 <= oy <= 2,
                inner_cell(center),
                out@ == block_candidates(self@, center, exclude, (oy + 1) * 3),
            decreases 2 - oy,
        {
            let mut ox: i32 = -1;
            while ox <= 1
                invariant
                    -1 <= ox <= 2,
                    -1 <= oy <= 1,
                    inner_cell(center),
                    out@ == block_candidates(self@, center, exclude, (oy + 1) * 3 + ox + 1),
                decreases 2 - ox,
            {
                let ghost k: int = (oy + 1) * 3 + ox + 1;
                assert(block_offset(k) == (ox as int, oy as int));
                let cell = (center.0 + ox, center.1 + oy);
                assert(cell == offset_cell(center, ox as int, oy as int));
                let ghost prev = out@;
                match self.bucket(cell) {
                    Some(list) => {
                        let len = list.len();
                        for t in 0..len
                            invariant
                                len == list@.len(),
                                out@ == prev + list@.take(t as int).filter(other_than(exclude)),
                        {
                            let j = list[t];
                            proof {
                                assert(list@.take(t as int + 1) =~= list@.take(t as int).push(j));
                                list@.take(t as int).lemma_filter_push(j, other_than(exclude));
                            }
                            if j != exclude {
                                out.push(j);
                            }
                        }
                        assert(list@.take(len as int) =~= list@);
                    },
                    None => {
                        assert(grid_bucket(self@, cell).filter(other_than(exclude)) =~= Seq::<usize>::empty()) by {
                            reveal(Seq::filter);
                        }
                        assert(out@ =~= prev + grid_bucket(self@, cell).filter(other_than(exclude)));
                    },
                }
                ox = ox + 1;
            }
            oy = oy + 1;
        }
        out
    }
}

/// The predicate that keeps every index but `x`.
pub open spec fn other_than(x: usize) -> spec_fn(usize) -> bool {
    |j: usize| j != x
}

/// Offset `(dx, dy)` of the `k`-th cell of the 3x3 block around a cell: rows from `dy = -1`
/// to `dy = 1`, and within a row columns from `dx = -1` to `dx = 1`.
pub open spec fn block_offset(k: int) -> (int, int) {
    (k % 3 - 1, k / 3 - 1)
}

/// The cell `dx` columns and `dy` rows away from `c`.
pub open spec fn offset_cell(c: (i32, i32), dx: int, dy: int) -> (i32, i32) {
    ((c.0 + dx) as i32, (c.1 + dy) as i32)
}

/// The indices in the first `k` cells of the 3x3 block around `center`, bucket after bucket,
/// leaving out `exclude`.
pub open spec fn block_candidates(
    g: Map<(i32, i32), Seq<usize>>,
    center: (i32, i32),
    exclude: usize,
    k: int,
) -> Seq<usize>
    decreases k,
{
    if k <= 0 {
        Seq::empty()
    } else {
        block_candidates(g, center, exclude, k - 1) + grid_bucket(
            g,
            offset_cell(center, block_offset(k - 1).0, block_offset(k - 1).1),
        ).filter(other_than(exclude))
    }
}

/// A cell whose neighbours all have coordinates that fit in an `i32`.
pub open spec fn inner_cell(c: (i32, i32)) -> bool {
    i32::MIN < c.0 < i32::MAX && i32::MIN < c.1 < i32::MAX
}

/// A cell whose neighbours to the left, to the right and below (the ones that the collision
/// pass looks at) have coordinates that fit in an `i32`.
pub open spec fn half_inner_cell(c: (i32, i32)) -> bool {
    i32::MIN < c.0 < i32::MAX && c.1 < i32::MAX
}

/// A cell that no index below `n` lies in has an empty bucket.
proof fn lemma_bucket_empty(cells: Seq<(i32, i32)>, c: (i32, i32), n: int)
    requires
        0 <= n <= cells.len(),
        forall|j: int| 0 <= j < n ==> cells[j] != c,
    ensures
        bucket_upto(cells, c, n) == Seq::<usize>::empty(),
    decreases n,
{
    if n > 0 {
        lemma_bucket_empty(cells, c, n - 1);
    }
}


/// Two cells that coincide or touch, diagonally included.
pub open spec fn adjacent(a: (i32, i32), b: (i32, i32)) -> bool {
    -1 <= a.0 - b.0 <= 1 && -1 <= a.1 - b.1 <= 1
}

/// A pair that the particle collision pass examines: two indices in increasing order whose
/// cells are adjacent.
pub open spec fn is_candidate_pair(cells: Seq<(i32, i32)>, p: (usize, usize)) -> bool {
    p.0 < p.1 < cells.len() && adjacent(cells[p.0 as int], cells[p.1 as int])
}

/// Lexicographic order on index pairs, strict.
pub open spec fn pair_lt(a: (usize, usize), b: (usize, usize)) -> bool {
    a.0 < b.0 || (a.0 == b.0 && a.1 < b.1)
}

/// Lexicographic order on index pairs.
spec fn pair_le(a: (usize, usize), b: (usize, usize)) -> bool {
    a.0 < b.0 || (a.0 == b.0 && a.1 <= b.1)
}

/// Pairs in lexicographic order, repetitions allowed.
spec fn sorted_pairs(s: Seq<(usize, usize)>) -> bool {
    forall|i: int, j: int| 0 <= i < j < s.len() ==> pair_le(s[i], s[j])
}

/// Pairs in strictly increasing lexicographic order, hence without repetition.
pub open spec fn strictly_sorted_pairs(s: Seq<(usize, usize)>) -> bool {
    forall|i: int, j: int| 0 <= i < j < s.len() ==> pair_lt(s[i], s[j])
}

/// Indices in strictly increasing order.
pub open spec fn increasing(s: Seq<usize>) -> bool {
    forall|i: int, j: int| 0 <= i < j < s.len() ==> s[i] < s[j]
}

/// The two indices, smaller first.
spec fn ordered(i: usize, j: usize) -> (usize, usize) {
    if i < j {
        (i, j)
    } else {
        (j, i)
    }
}

/// The five offsets, from a cell to itself and to four of its neighbours, through which
/// each pair of adjacent cells is visited from exactly one side.
spec fn half_offset(o: int) -> (int, int) {
    if o == 0 {
        (0, 0)
    } else if o == 1 {
        (1, 0)
    } else if o == 2 {
        (0, 1)
    } else if o == 3 {
        (1, 1)
    } else {
        (-1, 1)
    }
}

/// The position of an offset among the five of `half_offset`.
spec fn half_offset_index(d: (int, int)) -> int {
    if d == (0int, 0int) {
        0
    } else if d == (1int, 0int) {
        1
    } else if d == (0int, 1int) {
        2
    } else if d == (1int, 1int) {
        3
    } else {
        4
    }
}

/// Whether `d` is one of the five offsets of `half_offset`.
spec fn in_half(d: (int, int)) -> bool {
    d == (0int, 0int) || d == (1int, 0int) || d == (0int, 1int) || d == (1int, 1int) || d == (
        -1int,
        1int,
    )
}

/// The step from cell `a` to cell `b`.
spec fn cell_diff(a: (i32, i32), b: (i32, i32)) -> (int, int) {
    (b.0 - a.0, b.1 - a.1)
}

/// The cell from which the pair `(i, j)` is visited.
spec fn pair_home(cells: Seq<(i32, i32)>, i: usize, j: usize) -> (i32, i32) {
    if in_half(cell_diff(cells[i as int], cells[j as int])) {
        cells[i as int]
    } else {
        cells[j as int]
    }
}

/// The offset through which the pair `(i, j)` is visited from its home cell.
spec fn pair_offset(cells: Seq<(i32, i32)>, i: usize, j: usize) -> (int, int) {
    let d = cell_diff(cells[i as int], cells[j as int]);
    if in_half(d) {
        d
    } else {
        (-d.0, -d.1)
    }
}

/// The smallest index whose cell is `c`.
spec fn first_index(cells: Seq<(i32, i32)>, c: (i32, i32)) -> usize {
    bucket_of(cells, c)[0]
}

/// A pair of two indices of bucket `b`, smaller first.
spec fn within_bucket(b: Seq<usize>, p: (usize, usize)) -> bool {
    p.0 < p.1 && b.contains(p.0) && b.contains(p.1)
}

/// A pair of an index of `b1` and a different index of `b2`, smaller first.
spec fn across_buckets(b1: Seq<usize>, b2: Seq<usize>, p: (usize, usize)) -> bool {
    &&& p.0 < p.1
    &&& (b1.contains(p.0) && b2.contains(p.1)) || (b1.contains(p.1) && b2.contains(p.0))
}

/// Appends `(b[x], b[y])` for all positions `x < y` of the bucket `b`.
fn push_pairs_within(pairs: &mut Vec<(usize, usize)>, b: &Vec<usize>)
    requires
        increasing(b@),
    ensures
        final(pairs)@.len() >= old(pairs)@.len(),
        forall|t: int| 0 <= t < old(pairs)@.len() ==> final(pairs)@[t] == old(pairs)@[t],
        forall|t: int|
            old(pairs)@.len() <= t < final(pairs)@.len() ==> within_bucket(b@, #[trigger] final(pairs)@[t]),
        forall|x: int, y: int|
            0 <= x < y < b@.len() ==> final(pairs)@.contains((b@[x], b@[y])),
{
    let ghost start = pairs@;
    let len = b.len();
    for a in 0..len
        invariant
            len == b@.len(),
            increasing(b@),
            pairs@.len() >= start.len(),
            forall|t: int| 0 <= t < start.len() ==> pairs@[t] == start[t],
            forall|t: int|
                start.len() <= t < pairs@.len() ==> within_bucket(b@, #[trigger] pairs@[t]),
            forall|x: int, y: int| 0 <= x < a && x < y < b@.len() ==> pairs@.contains((b@[x], b@[y])),
    {
        for c in a + 1..len
            invariant
                len == b@.len(),
                a < len,
                increasing(b@),
                pairs@.len() >= start.len(),
                forall|t: int| 0 <= t < start.len() ==> pairs@[t] == start[t],
                forall|t: int|
                    start.len() <= t < pairs@.len() ==> within_bucket(b@, #[trigger] pairs@[t]),
                forall|x: int, y: int|
                    0 <= x < a && x < y < b@.len() ==> pairs@.contains((b@[x], b@[y])),
                forall|y: int| a < y < c ==> pairs@.contains((b@[a as int], b@[y])),
        {
            let i = b[a];
            let j = b[c];
            let ghost before = pairs@;
            if i < j {
                pairs.push((i, j));
            } else {
                pairs.push((j, i));
            }
            proof {
                assert(pairs@[before.len() as int] == (b@[a as int], b@[c as int]));
                assert forall|p: (usize, usize)| #![trigger before.contains(p)] #![trigger pairs@.contains(p)] before.contains(p) implies pairs@.contains(p) by {
                    let t = choose|t: int| 0 <= t < before.len() && before[t] == p;
                    assert(pairs@[t] == p);
                }
                assert forall|t: int| start.len() <= t < pairs@.len() implies within_bucket(b@, #[trigger] pairs@[t]) by {
                    if t == before.len() {
                        assert(pairs@[t] == (b@[a as int], b@[c as int]));
                        assert(b@.contains(b@[a as int]) && b@.contains(b@[c as int]));
                    } else {
                        assert(pairs@[t] == before[t]);
                    }
                }
            }
        }
    }
}

/// Appends `ordered(b1[x], b2[y])` for all positions `x` of `b1` and `y` of `b2` whose
/// indices differ.
fn push_pairs_between(pairs: &mut Vec<(usize, usize)>, b1: &Vec<usize>, b2: &Vec<usize>)
    ensures
        final(pairs)@.len() >= old(pairs)@.len(),
        forall|t: int| 0 <= t < old(pairs)@.len() ==> final(pairs)@[t] == old(pairs)@[t],
        forall|t: int|
            old(pairs)@.len() <= t < final(pairs)@.len() ==> across_buckets(b1@, b2@, #[trigger] final(pairs)@[t]),
        forall|x: int, y: int|
            0 <= x < b1@.len() && 0 <= y < b2@.len() && b1@[x] != b2@[y]
                ==> final(pairs)@.contains(ordered(b1@[x], b2@[y])),
{
    let ghost start = pairs@;
    let len1 = b1.len();
    let len2 = b2.len();
    for a in 0..len1
        invariant
            len1 == b1@.len(),
            len2 == b2@.len(),
            pairs@.len() >= start.len(),
            forall|t: int| 0 <= t < start.len() ==> pairs@[t] == start[t],
            forall|t: int|
                start.len() <= t < pairs@.len() ==> across_buckets(b1@, b2@, #[trigger] pairs@[t]),
            forall|x: int, y: int|
                0 <= x < a && 0 <= y < b2@.len() && b1@[x] != b2@[y] ==> pairs@.contains(
                    ordered(b1@[x], b2@[y]),
                ),
    {
        for c in 0..len2
            invariant
                len1 == b1@.len(),
                len2 == b2@.len(),
                a < len1,
                pairs@.len() >= start.len(),
                forall|t: int| 0 <= t < start.len() ==> pairs@[t] == start[t],
                forall|t: int|
                    start.len() <= t < pairs@.len() ==> across_buckets(b1@, b2@, #[trigger] pairs@[t]),
                forall|x: int, y: int|
                    0 <= x < a && 0 <= y < b2@.len() && b1@[x] != b2@[y] ==> pairs@.contains(
                        ordered(b1@[x], b2@[y]),
                    ),
                forall|y: int|
                    0 <= y < c && b1@[a as int] != b2@[y] ==> pairs@.contains(
                        ordered(b1@[a as int], b2@[y]),
                    ),
        {
            let i = b1[a];
            let j = b2[c];
            let ghost before = pairs@;
            if i != j {
                if i < j {
                    pairs.push((i, j));
                } else {
                    pairs.push((j, i));
                }
            }
            proof {
              if i != j {
                assert(pairs@[before.len() as int] == ordered(b1@[a as int], b2@[c as int]));
                assert forall|p: (usize, usize)| #![trigger before.contains(p)] #![trigger pairs@.contains(p)] before.contains(p) implies pairs@.contains(p) by {
                    let t = choose|t: int| 0 <= t < before.len() && before[t] == p;
                    assert(pairs@[t] == p);
                }
                assert forall|t: int| start.len() <= t < pairs@.len() implies across_buckets(b1@, b2@, #[trigger] pairs@[t]) by {
                    if t == before.len() {
                        assert(pairs@[t] == ordered(b1@[a as int], b2@[c as int]));
                        assert(b1@.contains(b1@[a as int]) && b2@.contains(b2@[c as int]));
                    } else {
                        assert(pairs@[t] == before[t]);
                    }
                }
              }
            }
        }
    }
}


/// A bucket holds exactly the indices of its cell, in strictly increasing order.
pub proof fn lemma_bucket_of(cells: Seq<(i32, i32)>, c: (i32, i32))
    requires
        cells.len() <= usize::MAX,
    ensures
        increasing(bucket_of(cells, c)),
        forall|k: usize| #[trigger]
            bucket_of(cells, c).contains(k) <==> (k < cells.len() && cells[k as int] == c),
{
    lemma_bucket_upto(cells, c, cells.len() as int);
    let b = bucket_of(cells, c);
    assert forall|k: usize| #[trigger] b.contains(k) <==> (k < cells.len() && cells[k as int] == c) by {
        if b.contains(k) {
            let t = choose|t: int| 0 <= t < b.len() && b[t] == k;
            assert(b[t] < cells.len());
        }
        if k < cells.len() && cells[k as int] == c {
            assert(bucket_upto(cells, c, cells.len() as int).contains((k as int) as usize));
        }
    }
}

/// An adjacent pair is visited through one of the five half offsets, and its other cell is
/// that offset away from its home cell.
proof fn lemma_pair_offset(cells: Seq<(i32, i32)>, i: usize, j: usize)
    requires
        is_candidate_pair(cells, (i, j)),
    ensures
        in_half(pair_offset(cells, i, j)),
        0 <= half_offset_index(pair_offset(cells, i, j)) < 5,
        half_offset(half_offset_index(pair_offset(cells, i, j))) == pair_offset(cells, i, j),
        in_half(cell_diff(cells[i as int], cells[j as int])) ==> pair_home(cells, i, j) == cells[i as int]
            && cells[j as int] == offset_cell(
            cells[i as int],
            pair_offset(cells, i, j).0,
            pair_offset(cells, i, j).1,
        ),
        !in_half(cell_diff(cells[i as int], cells[j as int])) ==> pair_home(cells, i, j) == cells[j as int]
            && cells[i as int] == offset_cell(
            cells[j as int],
            pair_offset(cells, i, j).0,
            pair_offset(cells, i, j).1,
        ),
{
}

/// Appends every candidate pair whose home is `cell`, and nothing but candidate pairs.
fn push_home_pairs(
    grid: &NeighborGrid,
    cells: &Vec<(i32, i32)>,
    cell: (i32, i32),
    indices: &Vec<usize>,
    pairs: &mut Vec<(usize, usize)>,
)
    requires
        grid@ == grid_of(cells@),
        half_inner_cell(cell),
        grid@.contains_key(cell),
        indices@ == grid@[cell],
    ensures
        final(pairs)@.len() >= old(pairs)@.len(),
        forall|t: int| 0 <= t < old(pairs)@.len() ==> final(pairs)@[t] == old(pairs)@[t],
        forall|t: int|
            old(pairs)@.len() <= t < final(pairs)@.len() ==> is_candidate_pair(cells@, #[trigger] final(pairs)@[t]),
        forall|p: (usize, usize)|
            is_candidate_pair(cells@, p) && pair_home(cells@, p.0, p.1) == cell ==> #[trigger] final(pairs)@.contains(p),
{
    let ghost start = pairs@;
    proof {
        assert(cells@.len() == cells.len());
        lemma_bucket_of(cells@, cell);
    }
    for o in 0..5usize
        invariant
            grid@ == grid_of(cells@),
            half_inner_cell(cell),
            grid@.contains_key(cell),
            indices@ == grid@[cell],
            indices@ == bucket_of(cells@, cell),
            increasing(indices@),
            pairs@.len() >= start.len(),
            forall|t: int| 0 <= t < start.len() ==> pairs@[t] == start[t],
            forall|t: int|
                start.len() <= t < pairs@.len() ==> is_candidate_pair(cells@, #[trigger] pairs@[t]),
            forall|p: (usize, usize)|
                is_candidate_pair(cells@, p) && pair_home(cells@, p.0, p.1) == cell
                    && half_offset_index(pair_offset(cells@, p.0, p.1)) < o ==> #[trigger] pairs@.contains(p),
    {
        let (dx, dy) = NEIGHBOR_OFFSETS[o];
        assert((dx as int, dy as int) == half_offset(o as int));
        let ncell = (cell.0 + dx, cell.1 + dy);
        assert(ncell == offset_cell(cell, dx as int, dy as int));
        let ghost before = pairs@;
        proof {
            assert(cells@.len() == cells.len());
            lemma_bucket_of(cells@, ncell);
            lemma_bucket_of(cells@, cell);
        }
        match grid.bucket(ncell) {
            Some(nindices) => {
                if dx == 0 && dy == 0 {
                    push_pairs_within(pairs, indices);
                } else {
                    push_pairs_between(pairs, indices, nindices);
                }
                proof {
                    assert(nindices@ == bucket_of(cells@, ncell));
                    assert forall|t: int| start.len() <= t < pairs@.len() implies is_candidate_pair(
                        cells@,
                        #[trigger] pairs@[t],
                    ) by {
                        if t < before.len() {
                            assert(pairs@[t] == before[t]);
                        } else {
                            let p = pairs@[t];
                            if dx == 0 && dy == 0 {
                                assert(within_bucket(indices@, p));
                                assert(cells@[p.0 as int] == cell && cells@[p.1 as int] == cell);
                            } else {
                                assert(across_buckets(indices@, nindices@, p));
                                if indices@.contains(p.0) && nindices@.contains(p.1) {
                                    assert(cells@[p.0 as int] == cell && cells@[p.1 as int] == ncell);
                                } else {
                                    assert(cells@[p.1 as int] == cell && cells@[p.0 as int] == ncell);
                                }
                            }
                        }
                    }
                    assert forall|p: (usize, usize)|
                        is_candidate_pair(cells@, p) && pair_home(cells@, p.0, p.1) == cell
                            && half_offset_index(pair_offset(cells@, p.0, p.1)) < o + 1 implies #[trigger] pairs@.contains(
                        p,
                    ) by {
                        lemma_pair_offset(cells@, p.0, p.1);
                        if half_offset_index(pair_offset(cells@, p.0, p.1)) < o {
                            assert(before.contains(p));
                            let t = choose|t: int| 0 <= t < before.len() && before[t] == p;
                            assert(pairs@[t] == p);
                        } else if in_half(cell_diff(cells@[p.0 as int], cells@[p.1 as int])) {
                            assert(indices@.contains(p.0));
                            assert(nindices@.contains(p.1));
                            let x = choose|x: int| 0 <= x < indices@.len() && indices@[x] == p.0;
                            let y = choose|y: int| 0 <= y < nindices@.len() && nindices@[y] == p.1;
                            if dx == 0 && dy == 0 {
                                assert(x < y);
                                assert(pairs@.contains((indices@[x], indices@[y])));
                            } else {
                                assert(pairs@.contains(ordered(indices@[x], nindices@[y])));
                            }
                        } else {
                            assert(indices@.contains(p.1));
                            assert(nindices@.contains(p.0));
                            let x = choose|x: int| 0 <= x < indices@.len() && indices@[x] == p.1;
                            let y = choose|y: int| 0 <= y < nindices@.len() && nindices@[y] == p.0;
                            assert(pairs@.contains(ordered(indices@[x], nindices@[y])));
                        }
                    }
                }
            },
            None => {
                proof {
                    assert forall|p: (usize, usize)|
                        is_candidate_pair(cells@, p) && pair_home(cells@, p.0, p.1) == cell
                            && half_offset_index(pair_offset(cells@, p.0, p.1)) < o + 1 implies #[trigger] pairs@.contains(
                        p,
                    ) by {
                        lemma_pair_offset(cells@, p.0, p.1);
                        if half_offset_index(pair_offset(cells@, p.0, p.1)) == o {
                            if in_half(cell_diff(cells@[p.0 as int], cells@[p.1 as int])) {
                                assert(cells@.contains(cells@[p.1 as int]));
                            } else {
                                assert(cells@.contains(cells@[p.0 as int]));
                            }
                        }
                    }
                }
            },
        }
    }
}

/// Offsets from a cell to itself and to the neighbours whose pairs it looks after; the other
/// four neighbours look after their pairs with it.
const NEIGHBOR_OFFSETS: [(i32, i32); 5] = [(0, 0), (1, 0), (0, 1), (1, 1), (-1, 1)];


/// The elements of `v` from position `lo` up to `hi`, copied.
fn copy_range(v: &Vec<(usize, usize)>, lo: usize, hi: usize) -> (r: Vec<(usize, usize)>)
    requires
        lo <= hi <= v@.len(),
    ensures
        r@ == v@.subrange(lo as int, hi as int),
{
    let mut r: Vec<(usize, usize)> = Vec::new();
    for k in lo..hi
        invariant
            hi <= v@.len(),
            r@ == v@.subrange(lo as int, k as int),
    {
        r.push(v[k]);
        assert(r@ =~= v@.subrange(lo as int, k + 1));
    }
    r
}

/// Merges two sorted sequences of pairs into one sorted sequence holding both.
fn merge(a: &Vec<(usize, usize)>, b: &Vec<(usize, usize)>) -> (r: Vec<(usize, usize)>)
    requires
        sorted_pairs(a@),
        sorted_pairs(b@),
    ensures
        sorted_pairs(r@),
        r@.to_multiset() == a@.to_multiset().add(b@.to_multiset()),
{
    broadcast use vstd::seq_lib::group_to_multiset_ensures;
    broadcast use vstd::multiset::group_multiset_axioms;

    let mut r: Vec<(usize, usize)> = Vec::new();
    let mut i: usize = 0;
    let mut j: usize = 0;
    let alen = a.len();
    let blen = b.len();
    while i < alen || j < blen
        invariant
            alen == a@.len(),
            blen == b@.len(),
            i <= alen,
            j <= blen,
            sorted_pairs(a@),
            sorted_pairs(b@),
            sorted_pairs(r@),
            r@.len() == i + j,
            r@.to_multiset() == a@.subrange(0, i as int).to_multiset().add(
                b@.subrange(0, j as int).to_multiset(),
            ),
            r@.len() > 0 && i < alen ==> pair_le(r@.last(), a@[i as int]),
            r@.len() > 0 && j < blen ==> pair_le(r@.last(), b@[j as int]),
        decreases alen + blen - i - j,
    {
        let take_a = if i < alen && j < blen {
            let x = a[i];
            let y = b[j];
            x.0 < y.0 || (x.0 == y.0 && x.1 <= y.1)
        } else {
            i < alen
        };
        let ghost before = r@;
        let ghost ma = a@.subrange(0, i as int).to_multiset();
        let ghost mb = b@.subrange(0, j as int).to_multiset();
        if take_a {
            let x = a[i];
            assert(a@.subrange(0, i + 1) =~= a@.subrange(0, i as int).push(x));
            r.push(x);
            proof {
                assert forall|s: int, t: int| 0 <= s < t < r@.len() implies pair_le(r@[s], r@[t]) by {
                    if t == before.len() && s < before.len() - 1 {
                        assert(pair_le(before[s], before.last()));
                    }
                }
                assert(r@ == before.push(x));
                vstd::seq_lib::to_multiset_build(before, x);
                vstd::seq_lib::to_multiset_build(a@.subrange(0, i as int), x);
                assert(r@.to_multiset() =~= before.to_multiset().insert(x));
                assert(a@.subrange(0, i + 1).to_multiset() =~= ma.insert(x));
                assert(r@.to_multiset() =~= ma.insert(x).add(mb));
                if i + 1 < alen {
                    assert(pair_le(a@[i as int], a@[i + 1]));
                }
            }
            i = i + 1;
        } else {
            let y = b[j];
            assert(b@.subrange(0, j + 1) =~= b@.subrange(0, j as int).push(y));
            r.push(y);
            proof {
                assert forall|s: int, t: int| 0 <= s < t < r@.len() implies pair_le(r@[s], r@[t]) by {
                    if t == before.len() && s < before.len() - 1 {
                        assert(pair_le(before[s], before.last()));
                    }
                }
                assert(r@ == before.push(y));
                vstd::seq_lib::to_multiset_build(before, y);
                vstd::seq_lib::to_multiset_build(b@.subrange(0, j as int), y);
                assert(r@.to_multiset() =~= before.to_multiset().insert(y));
                assert(b@.subrange(0, j + 1).to_multiset() =~= mb.insert(y));
                assert(r@.to_multiset() =~= ma.add(mb.insert(y)));
                if j + 1 < blen {
                    assert(pair_le(b@[j as int], b@[j + 1]));
                }
            }
            j = j + 1;
        }
    }
    assert(a@.subrange(0, alen as int) =~= a@);
    assert(b@.subrange(0, blen as int) =~= b@);
    r
}

/// Sorts pairs lexicographically: the result is a permutation of `v` in order.
fn sort_pairs(v: &Vec<(usize, usize)>) -> (r: Vec<(usize, usize)>)
    ensures
        sorted_pairs(r@),
        r@.to_multiset() == v@.to_multiset(),
    decreases v@.len(),
{
    broadcast use vstd::seq_lib::group_to_multiset_ensures;

    let n = v.len();
    if n <= 1 {
        let r = copy_range(v, 0, n);
        assert(r@ =~= v@);
        return r;
    }
    let mid = n / 2;
    let left = copy_range(v, 0, mid);
    let right = copy_range(v, mid, n);
    let sl = sort_pairs(&left);
    let sr = sort_pairs(&right);
    let r = merge(&sl, &sr);
    proof {
        assert(v@ =~= left@ + right@);
        vstd::seq_lib::lemma_multiset_commutative(left@, right@);
    }
    r
}

/// Drops repeated pairs from a sorted sequence.
fn dedup_sorted(v: &Vec<(usize, usize)>) -> (r: Vec<(usize, usize)>)
    requires
        sorted_pairs(v@),
    ensures
        strictly_sorted_pairs(r@),
        forall|p: (usize, usize)| r@.contains(p) <==> v@.contains(p),
{
    let mut r: Vec<(usize, usize)> = Vec::new();
    let n = v.len();
    for k in 0..n
        invariant
            n == v@.len(),
            sorted_pairs(v@),
            strictly_sorted_pairs(r@),
            forall|p: (usize, usize)| r@.contains(p) <==> v@.subrange(0, k as int).contains(p),
            k > 0 ==> r@.len() > 0 && r@.last() == v@[k - 1],
            k == 0 ==> r@.len() == 0,
    {
        let x = v[k];
        let ghost before = r@;
        let fresh = if r.len() == 0 {
            true
        } else {
            let last = r[r.len() - 1];
            last.0 != x.0 || last.1 != x.1
        };
        if fresh {
            r.push(x);
        }
        proof {
            if fresh && before.len() > 0 {
                assert(pair_le(v@[k - 1], x));
                assert forall|s: int, t: int| 0 <= s < t < r@.len() implies pair_lt(r@[s], r@[t]) by {
                    if t == before.len() && s < before.len() - 1 {
                        assert(pair_lt(before[s], before.last()));
                    }
                }
            }
            let pre = v@.subrange(0, k as int);
            let post = v@.subrange(0, k + 1);
            assert(post =~= pre.push(x));
            assert forall|p: (usize, usize)| r@.contains(p) <==> post.contains(p) by {
                if fresh {
                    if before.contains(p) {
                        let t = choose|t: int| 0 <= t < before.len() && before[t] == p;
                        assert(r@[t] == p);
                    }
                    if r@.contains(p) && p != x {
                        let t = choose|t: int| 0 <= t < r@.len() && r@[t] == p;
                        assert(before[t] == p);
                    }
                    assert(r@[before.len() as int] == x);
                } else {
                    assert(before.last() == x);
                }
                if pre.contains(p) {
                    let t = choose|t: int| 0 <= t < pre.len() && pre[t] == p;
                    assert(post[t] == p);
                }
                if post.contains(p) && p != x {
                    let t = choose|t: int| 0 <= t < post.len() && post[t] == p;
                    assert(pre[t] == p);
                }
                assert(post[k as int] == x);
            }
        }
    }
    assert(v@.subrange(0, n as int) =~= v@);
    r
}


/// The pairs of indices that the particle collision pass examines when particle `i` lies in
/// grid cell `cells[i]`: every pair `(i, j)` with `i < j` whose cells coincide or touch,
/// each once, in lexicographic order.
///
/// Each occupied cell pairs its own indices with each other and with those of four of its
/// neighbours; the list is then sorted and repetitions dropped.
pub fn collision_pairs(cells: &Vec<(i32, i32)>) -> (r: Vec<(usize, usize)>)
    requires
        forall|i: int| 0 <= i < cells@.len() ==> half_inner_cell(#[trigger] cells@[i]),
    ensures
        strictly_sorted_pairs(r@),
        forall|p: (usize, usize)| #[trigger] r@.contains(p) <==> is_candidate_pair(cells@, p),
{
    let mut grid = NeighborGrid::new();
    grid.rebuild_from_cells(cells);
    let n = cells.len();
    let mut pairs: Vec<(usize, usize)> = Vec::new();
    for idx in 0..n
        invariant
            n == cells@.len(),
            grid@ == grid_of(cells@),
            forall|i: int| 0 <= i < cells@.len() ==> half_inner_cell(#[trigger] cells@[i]),
            forall|t: int| 0 <= t < pairs@.len() ==> is_candidate_pair(cells@, #[trigger] pairs@[t]),
            forall|p: (usize, usize)|
                is_candidate_pair(cells@, p) && first_index(cells@, pair_home(cells@, p.0, p.1))
                    < idx ==> #[trigger] pairs@.contains(p),
    {
        let cell = cells[idx];
        proof {
            assert(cells@.len() == cells.len());
            lemma_bucket_of(cells@, cell);
            assert(cells@.contains(cell));
            assert(bucket_of(cells@, cell).contains(idx));
        }
        let ghost before = pairs@;
        match grid.bucket(cell) {
            Some(indices) => {
                if indices[0] == idx {
                    push_home_pairs(&grid, cells, cell, indices, &mut pairs);
                }
                proof {
                    assert forall|p: (usize, usize)|
                        is_candidate_pair(cells@, p) && first_index(
                            cells@,
                            pair_home(cells@, p.0, p.1),
                        ) < idx + 1 implies #[trigger] pairs@.contains(p) by {
                        let home = pair_home(cells@, p.0, p.1);
                        lemma_bucket_of(cells@, home);
                        if first_index(cells@, home) == idx {
                            if cells@[p.0 as int] == home {
                                assert(bucket_of(cells@, home).contains(p.0));
                            } else {
                                assert(bucket_of(cells@, home).contains(p.1));
                            }
                            assert(bucket_of(cells@, home)[0] == idx);
                            assert(bucket_of(cells@, home).contains(idx));
                            assert(home == cell);
                        } else {
                            assert(before.contains(p));
                            let t = choose|t: int| 0 <= t < before.len() && before[t] == p;
                            assert(pairs@[t] == p);
                        }
                    }
                }
            },
            None => {},
        }
    }
    proof {
        assert forall|p: (usize, usize)| is_candidate_pair(cells@, p) implies #[trigger] pairs@.contains(p) by {
            let home = pair_home(cells@, p.0, p.1);
            assert(cells@.len() == cells.len());
            lemma_bucket_of(cells@, home);
            if cells@[p.0 as int] == home {
                assert(bucket_of(cells@, home).contains(p.0));
            } else {
                assert(bucket_of(cells@, home).contains(p.1));
            }
            assert(bucket_of(cells@, home).contains(first_index(cells@, home)));
        }
    }
    let sorted = sort_pairs(&pairs);
    proof {
        broadcast use vstd::seq_lib::group_to_multiset_ensures;

        assert forall|p: (usize, usize)| sorted@.contains(p) <==> pairs@.contains(p) by {
            assert(sorted@.to_multiset().count(p) == pairs@.to_multiset().count(p));
        }
        assert forall|p: (usize, usize)| pairs@.contains(p) implies is_candidate_pair(cells@, p) by {
            let t = choose|t: int| 0 <= t < pairs@.len() && pairs@[t] == p;
        }
    }
    dedup_sorted(&sorted)
}


/// The first `k` cells of the block around `center` hold exactly the indices, other than
/// `exclude`, whose cell is one of those `k` cells.
proof fn lemma_block_candidates_members(
    cells: Seq<(i32, i32)>,
    center: (i32, i32),
    exclude: usize,
    k: int,
    x: usize,
)
    requires
        cells.len() <= usize::MAX,
        0 <= k <= 9,
    ensures
        block_candidates(grid_of(cells), center, exclude, k).contains(x) <==> (x < cells.len() && x
            != exclude && exists|m: int|
            0 <= m < k && cells[x as int] == #[trigger] offset_cell(
                center,
                block_offset(m).0,
                block_offset(m).1,
            )),
    decreases k,
{
    broadcast use vstd::seq_lib::group_filter_ensures;
    broadcast use vstd::seq_lib::lemma_seq_concat_contains_all_elements;

    if k > 0 {
        lemma_block_candidates_members(cells, center, exclude, k - 1, x);
        let c = offset_cell(center, block_offset(k - 1).0, block_offset(k - 1).1);
        let g = grid_of(cells);
        let filtered = grid_bucket(g, c).filter(other_than(exclude));
        lemma_bucket_of(cells, c);
        if cells.contains(c) {
            assert(grid_bucket(g, c) == bucket_of(cells, c));
        } else {
            assert(grid_bucket(g, c) == Seq::<usize>::empty());
        }
        assert(filtered.contains(x) <==> (grid_bucket(g, c).contains(x) && x != exclude)) by {
            if grid_bucket(g, c).contains(x) && x != exclude {
                let t = choose|t: int| 0 <= t < grid_bucket(g, c).len() && grid_bucket(g, c)[t] == x;
                assert(other_than(exclude)(grid_bucket(g, c)[t]));
            }
            if filtered.contains(x) {
                let t = choose|t: int| 0 <= t < filtered.len() && filtered[t] == x;
                assert(other_than(exclude)(filtered[t]));
                grid_bucket(g, c).lemma_filter_contains_rev(other_than(exclude), x);
            }
        }
        if grid_bucket(g, c).contains(x) {
            assert(x < cells.len() && cells[x as int] == c);
        }
        if x < cells.len() && cells[x as int] == c {
            assert(cells.contains(c));
        }
    }
}

/// After the grid is built from `cells`, the candidates around an index's cell are exactly
/// the other indices whose cells coincide with or touch it.
pub proof fn lemma_candidates_are_adjacent(
    cells: Seq<(i32, i32)>,
    center: (i32, i32),
    exclude: usize,
    x: usize,
)
    requires
        cells.len() <= usize::MAX,
        inner_cell(center),
    ensures
        block_candidates(grid_of(cells), center, exclude, 9).contains(x) <==> (x < cells.len() && x
            != exclude && adjacent(center, cells[x as int])),
{
    lemma_block_candidates_members(cells, center, exclude, 9, x);
    if x < cells.len() && adjacent(center, cells[x as int]) {
        let d = cell_diff(center, cells[x as int]);
        let m = (d.1 + 1) * 3 + (d.0 + 1);
        assert(block_offset(m) == d);
        assert(cells[x as int] == offset_cell(center, block_offset(m).0, block_offset(m).1));
    }
}

/// The neighbour relation of a grid built from `cells` is symmetric: `j` is a candidate
/// around the cell of `i` exactly when `i` is one around the cell of `j`.
pub proof fn lemma_neighbor_symmetric(cells: Seq<(i32, i32)>, i: usize, j: usize)
    requires
        cells.len() <= usize::MAX,
        i < cells.len(),
        j < cells.len(),
        inner_cell(cells[i as int]),
        inner_cell(cells[j as int]),
    ensures
        block_candidates(grid_of(cells), cells[i as int], i, 9).contains(j)
            <==> block_candidates(grid_of(cells), cells[j as int], j, 9).contains(i),
{
    lemma_candidates_are_adjacent(cells, cells[i as int], i, j);
    lemma_candidates_are_adjacent(cells, cells[j as int], j, i);
}


/// Filtering keeps a sequence free of repetition.
proof fn lemma_filter_no_duplicates(s: Seq<usize>, p: spec_fn(usize) -> bool)
    requires
        s.no_duplicates(),
    ensures
        s.filter(p).no_duplicates(),
    decreases s.len(),
{
    reveal(Seq::filter);
    if s.len() > 0 {
        let d = s.drop_last();
        assert(d.no_duplicates()) by {
            assert forall|i: int, j: int| 0 <= i < d.len() && 0 <= j < d.len() && i != j implies d[i]
                != d[j] by {
                assert(d[i] == s[i] && d[j] == s[j]);
            }
        }
        lemma_filter_no_duplicates(d, p);
        if p(s.last()) {
            let f = d.filter(p);
            if f.contains(s.last()) {
                d.lemma_filter_contains_rev(p, s.last());
                let i = choose|i: int| 0 <= i < d.len() && d[i] == s.last();
                assert(s[i] == s[s.len() - 1]);
            }
            assert forall|i: int, j: int| 0 <= i < f.len() + 1 && 0 <= j < f.len() + 1 && i != j implies f.push(
                s.last(),
            )[i] != f.push(s.last())[j] by {
                if i == f.len() {
                    assert(f[j] != s.last()) by {
                        if f[j] == s.last() {
                            assert(f.contains(s.last()));
                        }
                    }
                } else if j == f.len() {
                    assert(f[i] != s.last()) by {
                        if f[i] == s.last() {
                            assert(f.contains(s.last()));
                        }
                    }
                }
            }
        }
    }
}

/// After the grid is built from `cells`, the block around a cell whose neighbours fit in an
/// `i32` lists each index at most once, so every neighbour is reported once.
pub proof fn lemma_candidates_distinct(
    cells: Seq<(i32, i32)>,
    center: (i32, i32),
    exclude: usize,
    k: int,
)
    requires
        cells.len() <= usize::MAX,
        inner_cell(center),
        0 <= k <= 9,
    ensures
        block_candidates(grid_of(cells), center, exclude, k).no_duplicates(),
    decreases k,
{
    if k > 0 {
        lemma_candidates_distinct(cells, center, exclude, k - 1);
        let prev = block_candidates(grid_of(cells), center, exclude, k - 1);
        let c = offset_cell(center, block_offset(k - 1).0, block_offset(k - 1).1);
        let g = grid_of(cells);
        let f = grid_bucket(g, c).filter(other_than(exclude));
        lemma_bucket_of(cells, c);
        assert(grid_bucket(g, c).no_duplicates()) by {
            if !cells.contains(c) {
                assert(grid_bucket(g, c) == Seq::<usize>::empty());
            }
        }
        lemma_filter_no_duplicates(grid_bucket(g, c), other_than(exclude));
        assert forall|i: int, j: int| 0 <= i < prev.len() && 0 <= j < f.len() implies prev[i] != f[j] by {
            let x = f[j];
            assert(f.contains(x));
            grid_bucket(g, c).lemma_filter_contains_rev(other_than(exclude), x);
            if cells.contains(c) {
                assert(grid_bucket(g, c) == bucket_of(cells, c));
            } else {
                assert(grid_bucket(g, c) == Seq::<usize>::empty());
            }
            assert(cells[x as int] == c);
            if prev[i] == x {
                assert(prev.contains(x));
                lemma_block_candidates_members(cells, center, exclude, k - 1, x);
                let m = choose|m: int|
                    0 <= m < k - 1 && cells[x as int] == #[trigger] offset_cell(
                        center,
                        block_offset(m).0,
                        block_offset(m).1,
                    );
                assert(block_offset(m) != block_offset(k - 1));
            }
        }
        vstd::seq_lib::lemma_no_dup_in_concat(prev, f);
    }
}

/// The collision pass examines a pair exactly when its second index is one of the neighbour
/// candidates around the first index's cell, in a grid built from the same cells.
pub proof fn lemma_collision_pairs_are_neighbors(cells: Seq<(i32, i32)>, p: (usize, usize))
    requires
        cells.len() <= usize::MAX,
        p.0 < cells.len(),
        inner_cell(cells[p.0 as int]),
    ensures
        is_candidate_pair(cells, p) <==> (p.0 < p.1 && block_candidates(
            grid_of(cells),
            cells[p.0 as int],
            p.0,
            9,
        ).contains(p.1)),
{
    lemma_candidates_are_adjacent(cells, cells[p.0 as int], p.0, p.1);
}

} // verus!
