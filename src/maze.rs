use vstd::prelude::*;
use rand::Rng;
use rand::RngCore;
use rand::SeedableRng;
use rand::seq::SliceRandom;
use rand_chacha::ChaCha20Rng;
use crate::grid::{
    Cell, can_move, connected, in_grid, lemma_connected_everywhere, lemma_open_connected, matrix,
    movable, put, reaches_every_cell, step, walls_binary, walls_wf,
};

verus! {

/// rand_chacha's ChaCha20 generator, held opaque: the stream that every draw comes from.
#[verifier::external_type_specification]
#[verifier::external_body]
pub struct ExChaCha20Rng(ChaCha20Rng);

/// Relies on rand_core's SeedableRng::seed_from_u64 for ChaCha20Rng: a generator whose
/// stream depends on the seed alone.
#[verifier::external_body]
fn seeded(seed: u64) -> ChaCha20Rng {
    ChaCha20Rng::seed_from_u64(seed)
}

/// Relies on rand's Rng::gen_range over an inclusive range of i32: a value between the bounds.
#[verifier::external_body]
fn draw(rng: &mut ChaCha20Rng, lo: i32, hi: i32) -> (r: i32)
    requires
        lo <= hi,
    ensures
        lo <= r <= hi,
{
    rng.gen_range(lo..=hi)
}

/// Relies on rand_core's RngCore::next_u64: the next 64 bits of the stream, the same
/// bits that one draw of a real number from a range consumes.
#[verifier::external_body]
fn draw_word(rng: &mut ChaCha20Rng) -> u64 {
    rng.next_u64()
}

/// Relies on rand's SliceRandom::choose: one element of a non-empty slice.
#[verifier::external_body]
fn pick(rng: &mut ChaCha20Rng, list: &Vec<(usize, usize)>) -> (r: (usize, usize))
    requires
        list@.len() > 0,
    ensures
        list@.contains(r),
{
    *list.choose(rng).unwrap()
}

/// Every cell of an `n` by `n` matrix holds a value no greater than `top`.
pub open spec fn ids_at_most(n: int, region: Seq<Vec<usize>>, top: int) -> bool {
    &&& region.len() == n
    &&& forall|a: int| 0 <= a < n ==> (#[trigger] region[a])@.len() == n
    &&& forall|a: int, b: int| 0 <= a < n && 0 <= b < n ==> #[trigger] region[a]@[b] <= top
}

/// `after` is `before` with some cells claimed by region `id`: every cell keeps its
/// owner or passes to `id`.
pub open spec fn overwrite(n: int, before: Seq<Vec<usize>>, after: Seq<Vec<usize>>, id: int) -> bool {
    &&& after.len() == n
    &&& forall|a: int| 0 <= a < n ==> (#[trigger] after[a])@.len() == n
    &&& forall|a: int, b: int| 0 <= a < n && 0 <= b < n ==>
        #[trigger] after[a]@[b] == id || after[a]@[b] == before[a]@[b]
}

/// Cell (a, b) of `h` (orientation 0 or 1) or of `v` (orientation 2 or 3) lies on the
/// segment of `k` cells from (i, j): along the row forward (0) or backward (1), or
/// along the column forward (2) or backward (3).
pub open spec fn on_segment(dir: int, i: int, j: int, k: int, a: int, b: int) -> bool {
    if dir == 0 {
        a == i && j <= b < j + k
    } else if dir == 1 {
        a == i && j - k < b <= j
    } else if dir == 2 {
        b == j && i <= a < i + k
    } else {
        b == j && i - k < a <= i
    }
}

/// `after` is `before` with the cells of the segment set to '1' and all others kept.
pub open spec fn marks(before: Seq<Vec<char>>, after: Seq<Vec<char>>, dir: int, i: int, j: int, k: int) -> bool {
    &&& after.len() == before.len()
    &&& forall|a: int| 0 <= a < after.len() ==> (#[trigger] after[a])@.len() == before[a]@.len()
    &&& forall|a: int, b: int| 0 <= a < after.len() && 0 <= b < after[a]@.len() ==>
        #[trigger] after[a]@[b] == if on_segment(dir, i, j, k, a, b) { '1' } else { before[a]@[b] }
}

/// Some wall character is '1'.
pub open spec fn has_wall(h: Seq<Vec<char>>, v: Seq<Vec<char>>) -> bool {
    (exists|a: int, b: int| 0 <= a < h.len() && 0 <= b < h[a]@.len() && #[trigger] h[a]@[b] == '1')
    || (exists|a: int, b: int| 0 <= a < v.len() && 0 <= b < v[a]@.len() && #[trigger] v[a]@[b] == '1')
}

/// Every wall character is '0'.
pub open spec fn all_open(h: Seq<Vec<char>>, v: Seq<Vec<char>>) -> bool {
    &&& forall|a: int, b: int| 0 <= a < h.len() && 0 <= b < h[a]@.len() ==> #[trigger] h[a]@[b] == '0'
    &&& forall|a: int, b: int| 0 <= a < v.len() && 0 <= b < v[a]@.len() ==> #[trigger] v[a]@[b] == '0'
}

/// How many characters of `r` are '1'.
pub open spec fn ones(r: Seq<char>) -> nat
    decreases r.len(),
{
    if r.len() == 0 {
        0
    } else {
        ones(r.drop_last()) + if r.last() == '1' { 1nat } else { 0nat }
    }
}

pub open spec fn grid_ones(g: Seq<Vec<char>>) -> nat
    decreases g.len(),
{
    if g.len() == 0 {
        0
    } else {
        grid_ones(g.drop_last()) + ones(g.last()@)
    }
}

/// The number of wall cells of a layout.
pub open spec fn wall_count(h: Seq<Vec<char>>, v: Seq<Vec<char>>) -> nat {
    grid_ones(h) + grid_ones(v)
}

proof fn lemma_ones_set(r: Seq<char>, j: int)
    requires
        0 <= j < r.len(),
    ensures
        ones(r.update(j, '1')) == ones(r) + if r[j] == '1' { 0nat } else { 1nat },
    decreases r.len(),
{
    let u = r.update(j, '1');
    if j < r.len() - 1 {
        lemma_ones_set(r.drop_last(), j);
        assert(u.drop_last() =~= r.drop_last().update(j, '1'));
    } else {
        assert(u.drop_last() =~= r.drop_last());
    }
}

proof fn lemma_ones_positive(r: Seq<char>, j: int)
    requires
        0 <= j < r.len(),
        r[j] == '1',
    ensures
        ones(r) >= 1,
    decreases r.len(),
{
    if j < r.len() - 1 {
        lemma_ones_positive(r.drop_last(), j);
    }
}

proof fn lemma_ones_zero(r: Seq<char>)
    requires
        forall|k: int| 0 <= k < r.len() ==> #[trigger] r[k] == '0',
    ensures
        ones(r) == 0,
    decreases r.len(),
{
    if r.len() > 0 {
        lemma_ones_zero(r.drop_last());
    }
}

proof fn lemma_grid_ones_set(g: Seq<Vec<char>>, g2: Seq<Vec<char>>, i: int, j: int)
    requires
        g.len() == g2.len(),
        0 <= i < g.len(),
        0 <= j < g[i]@.len(),
        forall|a: int| 0 <= a < g.len() && a != i ==> (#[trigger] g2[a])@ == g[a]@,
        g2[i]@ == g[i]@.update(j, '1'),
    ensures
        grid_ones(g2) == grid_ones(g) + if g[i]@[j] == '1' { 0nat } else { 1nat },
    decreases g.len(),
{
    if i < g.len() - 1 {
        lemma_grid_ones_set(g.drop_last(), g2.drop_last(), i, j);
        assert(g2.last()@ == g.last()@);
    } else {
        lemma_ones_set(g[i]@, j);
        lemma_grid_ones_same(g.drop_last(), g2.drop_last());
    }
}

proof fn lemma_grid_ones_same(g: Seq<Vec<char>>, g2: Seq<Vec<char>>)
    requires
        g.len() == g2.len(),
        forall|a: int| 0 <= a < g.len() ==> (#[trigger] g2[a])@ == g[a]@,
    ensures
        grid_ones(g2) == grid_ones(g),
    decreases g.len(),
{
    if g.len() > 0 {
        lemma_grid_ones_same(g.drop_last(), g2.drop_last());
        assert(g2.last()@ == g.last()@);
    }
}

proof fn lemma_grid_ones_positive(g: Seq<Vec<char>>, i: int, j: int)
    requires
        0 <= i < g.len(),
        0 <= j < g[i]@.len(),
        g[i]@[j] == '1',
    ensures
        grid_ones(g) >= 1,
    decreases g.len(),
{
    if i < g.len() - 1 {
        lemma_grid_ones_positive(g.drop_last(), i, j);
    } else {
        lemma_ones_positive(g[i]@, j);
    }
}

proof fn lemma_grid_ones_zero(g: Seq<Vec<char>>)
    requires
        forall|a: int, b: int| 0 <= a < g.len() && 0 <= b < g[a]@.len() ==> #[trigger] g[a]@[b] == '0',
    ensures
        grid_ones(g) == 0,
    decreases g.len(),
{
    if g.len() > 0 {
        lemma_grid_ones_zero(g.drop_last());
        let r = g.last()@;
        assert forall|k: int| 0 <= k < r.len() implies #[trigger] r[k] == '0' by {
            assert(g[g.len() - 1]@[k] == '0');
        }
        lemma_ones_zero(r);
    }
}

/// Puts a wall in cell (i, j) of `g`, which then counts at most one wall more.
fn put_wall(g: &mut Vec<Vec<char>>, i: usize, j: usize)
    requires
        i < old(g)@.len(),
        j < old(g)@[i as int]@.len(),
    ensures
        final(g)@.len() == old(g)@.len(),
        forall|a: int| 0 <= a < final(g)@.len() ==> (#[trigger] final(g)@[a])@.len() == old(g)@[a]@.len(),
        forall|a: int, b: int| 0 <= a < final(g)@.len() && 0 <= b < final(g)@[a]@.len() ==>
            #[trigger] final(g)@[a]@[b] == if a == i && b == j { '1' } else { old(g)@[a]@[b] },
        grid_ones(old(g)@) <= grid_ones(final(g)@) <= grid_ones(old(g)@) + 1,
{
    put(g, i, j, '1');
    proof {
        assert forall|a: int| 0 <= a < g@.len() && a != i implies (#[trigger] g@[a])@ == old(g)@[a]@ by {
            assert(g@[a]@ =~= old(g)@[a]@);
        }
        assert(g@[i as int]@ =~= old(g)@[i as int]@.update(j as int, '1'));
        lemma_grid_ones_set(old(g)@, g@, i as int, j as int);
    }
}

/// Adds a wall segment of `k` cells to `h` (orientation 0 or 1) or to `v`
/// (orientation 2 or 3), from (i, j) forward (0, 2) or backward (1, 3); the part of the
/// segment beyond the border of the grid is dropped.
fn add_segment(N: usize, h: &mut Vec<Vec<char>>, v: &mut Vec<Vec<char>>, dir: usize, i: usize, j: usize, k: usize)
    requires
        walls_wf(N as int, old(h)@, old(v)@),
        walls_binary(old(h)@, old(v)@),
        dir < 4,
        dir <= 1 ==> i + 1 < N && j < N,
        dir >= 2 ==> i < N && j + 1 < N,
        k <= N <= 40,
    ensures
        walls_wf(N as int, final(h)@, final(v)@),
        walls_binary(final(h)@, final(v)@),
        dir <= 1 ==> final(v)@ == old(v)@ && marks(old(h)@, final(h)@, dir as int, i as int, j as int, k as int),
        dir >= 2 ==> final(h)@ == old(h)@ && marks(old(v)@, final(v)@, dir as int, i as int, j as int, k as int),
        wall_count(old(h)@, old(v)@) <= wall_count(final(h)@, final(v)@) <= wall_count(old(h)@, old(v)@) + k,
{
    let mut p: usize = 0;
    while p < k
        invariant
            walls_wf(N as int, h@, v@),
            walls_binary(h@, v@),
            dir < 4,
            dir <= 1 ==> i + 1 < N && j < N,
            dir >= 2 ==> i < N && j + 1 < N,
            dir <= 1 ==> v@ == old(v)@ && marks(old(h)@, h@, dir as int, i as int, j as int, p as int),
            dir >= 2 ==> h@ == old(h)@ && marks(old(v)@, v@, dir as int, i as int, j as int, p as int),
            p <= k,
            k <= N <= 40,
            wall_count(old(h)@, old(v)@) <= wall_count(h@, v@) <= wall_count(old(h)@, old(v)@) + p,
        decreases k - p,
    {
        let along = if dir <= 1 { j } else { i };
        let outside = if dir % 2 == 0 { along + p >= N } else { p > along };
        if outside {
            p = k;
        } else {
            let a = if dir % 2 == 0 { along + p } else { along - p };
            if dir <= 1 {
                put_wall(h, i, a);
            } else {
                put_wall(v, a, j);
            }
            p += 1;
        }
    }
}

/// Draws `w` random wall segments on a grid without walls.
fn draw_walls(rng: &mut ChaCha20Rng, N: usize, w: i32) -> (r: (Vec<Vec<char>>, Vec<Vec<char>>))
    requires
        20 <= N <= 40,
    ensures
        walls_wf(N as int, r.0@, r.1@),
        walls_binary(r.0@, r.1@),
        w >= 1 ==> has_wall(r.0@, r.1@),
        w >= 1 ==> 1 <= wall_count(r.0@, r.1@) <= w * (N / 2),
        w <= 0 ==> all_open(r.0@, r.1@),
{
    let mut h = matrix(N - 1, N, '0');
    let mut v = matrix(N, N - 1, '0');
    proof {
        lemma_grid_ones_zero(h@);
        lemma_grid_ones_zero(v@);
    }
    let mut t: i32 = 0;
    while t < w
        invariant
            20 <= N <= 40,
            walls_wf(N as int, h@, v@),
            walls_binary(h@, v@),
            t >= 1 ==> has_wall(h@, v@),
            t == 0 ==> all_open(h@, v@),
            t >= 0,
            w <= 0 ==> t == 0,
            w >= 0 ==> t <= w,
            wall_count(h@, v@) <= t * (N / 2),
        decreases w - t,
    {
        let dir = draw(rng, 0, 3);
        let n = N as i32;
        let ghost h0 = h@;
        let ghost v0 = v@;
        if dir <= 1 {
            let i = draw(rng, 0, n - 2) as usize;
            let j = draw(rng, 0, n - 1) as usize;
            let k = draw(rng, 3, n / 2) as usize;
            add_segment(N, &mut h, &mut v, dir as usize, i, j, k);
            proof {
                assert(on_segment(dir as int, i as int, j as int, k as int, i as int, j as int));
                assert(h@[i as int]@[j as int] == '1');
                if t >= 1 {
                    if exists|a: int, b: int| 0 <= a < v0.len() && 0 <= b < v0[a]@.len() && #[trigger] v0[a]@[b] == '1' {
                        assert(v@ == v0);
                    }
                }
            }
        } else {
            let i = draw(rng, 0, n - 1) as usize;
            let j = draw(rng, 0, n - 2) as usize;
            let k = draw(rng, 3, n / 2) as usize;
            add_segment(N, &mut h, &mut v, dir as usize, i, j, k);
            proof {
                assert(on_segment(dir as int, i as int, j as int, k as int, i as int, j as int));
                assert(v@[i as int]@[j as int] == '1');
            }
        }
        proof {
            let q = (N / 2) as int;
            assert(t * q + q == (t + 1) * q) by (nonlinear_arith);
        }
        t += 1;
    }
    proof {
        if w >= 1 {
            assert(t == w);
            assert(has_wall(h@, v@));
            if exists|a: int, b: int| 0 <= a < h@.len() && 0 <= b < h@[a]@.len() && #[trigger] h@[a]@[b] == '1' {
                let (a, b) = choose|a: int, b: int| 0 <= a < h@.len() && 0 <= b < h@[a]@.len() && #[trigger] h@[a]@[b] == '1';
                lemma_grid_ones_positive(h@, a, b);
            } else {
                let (a, b) = choose|a: int, b: int| 0 <= a < v@.len() && 0 <= b < v@[a]@.len() && #[trigger] v@[a]@[b] == '1';
                lemma_grid_ones_positive(v@, a, b);
            }
        }
    }
    (h, v)
}

/// Draws wall layouts of `w` segments until one is connected; `None` when `u64::MAX`
/// layouts in a row were all disconnected.
pub fn generate_maze(rng: &mut ChaCha20Rng, N: usize, w: i32) -> (r: Option<(Vec<Vec<char>>, Vec<Vec<char>>)>)
    requires
        20 <= N <= 40,
    ensures
        r matches Some(m) ==> {
            &&& walls_wf(N as int, m.0@, m.1@)
            &&& walls_binary(m.0@, m.1@)
            &&& connected(N as int, m.0@, m.1@)
            &&& w >= 1 ==> has_wall(m.0@, m.1@)
            &&& w >= 1 ==> 1 <= wall_count(m.0@, m.1@) <= w * (N / 2)
            &&& w <= 0 ==> all_open(m.0@, m.1@)
        },
{
    let mut tries: u64 = 0;
    while tries < u64::MAX
        invariant
            20 <= N <= 40,
        decreases u64::MAX - tries,
    {
        let (h, v) = draw_walls(rng, N, w);
        if reaches_every_cell(N, &h, &v) {
            proof {
                lemma_connected_everywhere(N as int, h@, v@);
            }
            return Some((h, v));
        }
        tries += 1;
    }
    None
}

pub open spec fn cell_of(q: (usize, usize)) -> Cell {
    (q.0 as int, q.1 as int)
}

/// Member `k` is one step without a wall from an earlier member.
pub open spec fn linked(n: int, h: Seq<Vec<char>>, v: Seq<Vec<char>>, members: Seq<(usize, usize)>, k: int) -> bool {
    exists|q: int, d: int|
        0 <= q < k && #[trigger] movable(n, h, v, cell_of(members[q]), d) && step(cell_of(members[q]), d)
            == cell_of(members[k])
}

/// Pass `id` took the region map `before` to `after` by claiming `members`, in order:
/// distinct cells of the grid, each after the first one step without a wall from an
/// earlier one, and exactly the cells that region `id` holds afterwards. All other
/// cells keep their owner.
pub open spec fn grown(
    n: int,
    h: Seq<Vec<char>>,
    v: Seq<Vec<char>>,
    before: Seq<Vec<usize>>,
    after: Seq<Vec<usize>>,
    id: int,
    members: Seq<(usize, usize)>,
) -> bool {
    &&& overwrite(n, before, after, id)
    &&& members.len() >= 1
    &&& members.no_duplicates()
    &&& forall|k: int| 0 <= k < members.len() ==> in_grid(n, cell_of(#[trigger] members[k]))
    &&& forall|a: int, b: int| 0 <= a < n && 0 <= b < n ==>
        (#[trigger] after[a]@[b] == id <==> members.contains((a as usize, b as usize)))
    &&& forall|k: int| 1 <= k < members.len() ==> #[trigger] linked(n, h, v, members, k)
}

/// Pass `id` of `c` claimed between n and n * n / c cells.
pub open spec fn pass_ok(
    n: int,
    h: Seq<Vec<char>>,
    v: Seq<Vec<char>>,
    c: int,
    before: Seq<Vec<usize>>,
    after: Seq<Vec<usize>>,
    id: int,
) -> bool {
    exists|members: Seq<(usize, usize)>|
        #[trigger] grown(n, h, v, before, after, id, members) && n <= members.len() <= n * n / c
}

/// `stages[k]` is the region map after pass `k` of `c`: all cells start in no region
/// (0), each pass grows its region over the map before it, and the last stage is
/// `region`.
pub open spec fn passes(
    n: int,
    h: Seq<Vec<char>>,
    v: Seq<Vec<char>>,
    c: int,
    stages: Seq<Seq<Vec<usize>>>,
    region: Seq<Vec<usize>>,
) -> bool {
    &&& stages.len() == c + 1
    &&& ids_at_most(n, stages[0], 0)
    &&& forall|k: int| 1 <= k <= c ==> #[trigger] pass_ok(n, h, v, c, stages[k - 1], stages[k], k)
    &&& stages.last() == region
}

/// One growth step of region `id` from member (a, b) in direction `dir`: claims the
/// neighbour, and appends it to `members`, exactly when no wall is in the way and the
/// neighbour belongs to a lower id. Nothing else changes.
pub fn claim(
    N: usize,
    h: &Vec<Vec<char>>,
    v: &Vec<Vec<char>>,
    region: &mut Vec<Vec<usize>>,
    id: usize,
    members: &mut Vec<(usize, usize)>,
    a: usize,
    b: usize,
    dir: usize,
) -> (r: bool)
    requires
        walls_wf(N as int, h@, v@),
        a < N,
        b < N,
        dir < 4,
        old(region)@.len() == N,
        forall|x: int| 0 <= x < N ==> (#[trigger] old(region)@[x])@.len() == N,
    ensures
        r == (movable(N as int, h@, v@, (a as int, b as int), dir as int) && old(region)@[step(
            (a as int, b as int),
            dir as int,
        ).0]@[step((a as int, b as int), dir as int).1] < id),
        final(region)@.len() == N,
        forall|x: int| 0 <= x < N ==> (#[trigger] final(region)@[x])@.len() == N,
        forall|x: int, y: int| 0 <= x < N && 0 <= y < N ==>
            #[trigger] final(region)@[x]@[y] == if r && (x, y) == step((a as int, b as int), dir as int) {
                id
            } else {
                old(region)@[x]@[y]
            },
        r ==> final(members)@ == old(members)@.push(
            (step((a as int, b as int), dir as int).0 as usize, step((a as int, b as int), dir as int).1 as usize),
        ),
        !r ==> final(members)@ == old(members)@,
{
    if !can_move(N, h, v, a, b, dir) {
        return false;
    }
    let (a2, b2) = if dir == 0 {
        (a, b + 1)
    } else if dir == 1 {
        (a + 1, b)
    } else if dir == 2 {
        (a, b - 1)
    } else {
        (a - 1, b)
    };
    if region[a2][b2] < id {
        put(region, a2, b2, id);
        members.push((a2, b2));
        true
    } else {
        false
    }
}

/// Grows region `id` from (i, j) until it has `m` members: each step picks a random
/// member and a random direction and makes a `claim`. A cell claimed by `id` passes to
/// it whatever it belonged to before. `None` should `u64::MAX` steps in a row claim
/// nothing.
fn grow_region(
    rng: &mut ChaCha20Rng,
    N: usize,
    h: &Vec<Vec<char>>,
    v: &Vec<Vec<char>>,
    region: &mut Vec<Vec<usize>>,
    id: usize,
    i: usize,
    j: usize,
    m: usize,
) -> (r: Option<Vec<(usize, usize)>>)
    requires
        walls_wf(N as int, h@, v@),
        1 <= id,
        1 <= m,
        ids_at_most(N as int, old(region)@, id - 1),
        i < N,
        j < N,
    ensures
        ids_at_most(N as int, final(region)@, id as int),
        r matches Some(members) ==> grown(N as int, h@, v@, old(region)@, final(region)@, id as int, members@)
            && members@.len() == m && members@[0] == (i, j),
{
    let ghost start = region@;
    put(region, i, j, id);
    let mut members: Vec<(usize, usize)> = Vec::new();
    members.push((i, j));
    proof {
        assert forall|a: int, b: int| 0 <= a < N && 0 <= b < N implies
            (#[trigger] region@[a]@[b] == id <==> members@.contains((a as usize, b as usize))) by {
            if region@[a]@[b] == id {
                assert(members@[0] == (a as usize, b as usize));
            }
        }
    }
    while members.len() < m
        invariant
            walls_wf(N as int, h@, v@),
            1 <= id,
            1 <= m,
            i < N,
            j < N,
            ids_at_most(N as int, start, id - 1),
            start == old(region)@,
            ids_at_most(N as int, region@, id as int),
            members@.len() <= m,
            members@[0] == (i, j),
            grown(N as int, h@, v@, start, region@, id as int, members@),
        decreases m - members@.len(),
    {
        let mut claimed = false;
        let mut tries: u64 = 0;
        let ghost len0 = members@.len();
        while tries < u64::MAX
            invariant_except_break
                members@.len() < m,
                members@.len() == len0,
                !claimed,
            invariant
                walls_wf(N as int, h@, v@),
                1 <= id,
                ids_at_most(N as int, start, id - 1),
                ids_at_most(N as int, region@, id as int),
                1 <= members@.len() <= m,
                members@[0] == (i, j),
                grown(N as int, h@, v@, start, region@, id as int, members@),
            ensures
                claimed ==> members@.len() == len0 + 1,
                !claimed ==> members@.len() == len0,
            decreases u64::MAX - tries,
        {
            let (a, b) = pick(rng, &members);
            let dir = draw(rng, 0, 3) as usize;
            let ghost before = members@;
            let ghost reg0 = region@;
            proof {
                let q = choose|q: int| 0 <= q < before.len() && before[q] == (a, b);
                assert(in_grid(N as int, cell_of(before[q])));
            }
            if claim(N, h, v, region, id, &mut members, a, b, dir) {
                proof {
                    let t = step((a as int, b as int), dir as int);
                    let nc = (t.0 as usize, t.1 as usize);
                    let q = choose|q: int| 0 <= q < before.len() && before[q] == (a, b);
                    assert(!before.contains(nc)) by {
                        if before.contains(nc) {
                            assert(reg0[t.0]@[t.1] == id);
                        }
                    }
                    assert(members@.no_duplicates()) by {
                        assert forall|x: int, y: int| 0 <= x < members@.len() && 0 <= y < members@.len() && x != y
                            implies members@[x] != members@[y] by {
                            if x < before.len() && y < before.len() {
                                assert(before.no_duplicates());
                            } else if x == before.len() {
                                assert(!before.contains(members@[x]));
                                assert(members@[y] == before[y]);
                            } else {
                                assert(!before.contains(members@[y]));
                                assert(members@[x] == before[x]);
                            }
                        }
                    }
                    assert forall|k: int| 0 <= k < members@.len() implies in_grid(N as int, cell_of(#[trigger] members@[k])) by {
                        if k < before.len() {
                            assert(members@[k] == before[k]);
                        }
                    }
                    assert forall|x: int, y: int| 0 <= x < N && 0 <= y < N implies
                        (#[trigger] region@[x]@[y] == id <==> members@.contains((x as usize, y as usize))) by {
                        if (x, y) == t {
                            assert(members@[before.len() as int] == nc);
                        } else {
                            if before.contains((x as usize, y as usize)) {
                                let z = choose|z: int| 0 <= z < before.len() && before[z] == (x as usize, y as usize);
                                assert(members@[z] == before[z]);
                            }
                            if members@.contains((x as usize, y as usize)) {
                                let z = choose|z: int| 0 <= z < members@.len() && members@[z] == (x as usize, y as usize);
                                if z < before.len() {
                                    assert(members@[z] == before[z]);
                                }
                            }
                        }
                    }
                    assert forall|k: int| 1 <= k < members@.len() implies #[trigger] linked(N as int, h@, v@, members@, k) by {
                        if k < before.len() {
                            assert(linked(N as int, h@, v@, before, k));
                            let (q2, d2) = choose|q2: int, d2: int|
                                0 <= q2 < k && #[trigger] movable(N as int, h@, v@, cell_of(before[q2]), d2)
                                    && step(cell_of(before[q2]), d2) == cell_of(before[k]);
                            assert(members@[q2] == before[q2] && members@[k] == before[k]);
                            assert(movable(N as int, h@, v@, cell_of(members@[q2]), d2));
                        } else {
                            assert(members@[q] == (a, b));
                            assert(movable(N as int, h@, v@, cell_of(members@[q]), dir as int));
                        }
                    }
                    assert forall|x: int, y: int| 0 <= x < N && 0 <= y < N implies
                        (#[trigger] region@[x]@[y] == id || region@[x]@[y] == start[x]@[y]) by {
                        assert(reg0[x]@[y] == id || reg0[x]@[y] == start[x]@[y]);
                    }
                }
                claimed = true;
                break;
            }
            tries += 1;
        }
        if !claimed {
            return None;
        }
    }
    Some(members)
}

/// Grows regions 1 to `c` one after another over the maze. Gives the region of
/// each cell (0 where none holds it) and, for each region in turn, the 64 random
/// bits its baseline exponent is drawn from; `None` when a region could not grow.
pub fn assign_regions(
    rng: &mut ChaCha20Rng,
    N: usize,
    h: &Vec<Vec<char>>,
    v: &Vec<Vec<char>>,
    c: usize,
) -> (r: Option<(Vec<Vec<usize>>, Vec<u64>)>)
    requires
        walls_wf(N as int, h@, v@),
        N <= 40,
        1 <= c <= N,
    ensures
        r matches Some(x) ==> {
            &&& ids_at_most(N as int, x.0@, c as int)
            &&& x.1@.len() == c
            &&& exists|stages: Seq<Seq<Vec<usize>>>| passes(N as int, h@, v@, c as int, stages, x.0@)
            &&& exists|a: int, b: int| 0 <= a < N && 0 <= b < N && #[trigger] x.0@[a]@[b] == c
        },
{
    let mut region = matrix(N, N, 0usize);
    let mut words: Vec<u64> = Vec::new();
    let ghost mut stages: Seq<Seq<Vec<usize>>> = seq![region@];
    let ghost mut seed: Cell = (0, 0);
    let mut id: usize = 1;
    while id <= c
        invariant
            walls_wf(N as int, h@, v@),
            N <= 40,
            1 <= c <= N,
            1 <= id <= c + 1,
            ids_at_most(N as int, region@, id - 1),
            words@.len() == id - 1,
            stages.len() == id,
            ids_at_most(N as int, stages[0], 0),
            forall|k: int| 1 <= k < id ==> #[trigger] pass_ok(N as int, h@, v@, c as int, stages[k - 1], stages[k], k),
            stages.last() == region@,
            id > 1 ==> in_grid(N as int, seed) && region@[seed.0]@[seed.1] == id - 1,
        decreases c + 1 - id,
    {
        let n = N as i32;
        let i = draw(rng, 0, n - 1) as usize;
        let j = draw(rng, 0, n - 1) as usize;
        proof {
            let ni = n as int;
            let ci = c as int;
            assert(ni * ni / ci >= ni) by (nonlinear_arith)
                requires 1 <= ci <= ni;
            assert(ni * ni <= 1600) by (nonlinear_arith)
                requires 0 <= ni <= 40;
        }
        let m = draw(rng, n, n * n / c as i32) as usize;
        let b = draw_word(rng);
        let ghost before = stages;
        let ghost reg0 = region@;
        let grown_members = grow_region(rng, N, h, v, &mut region, id, i, j, m);
        let members = match grown_members {
            Some(x) => x,
            None => {
                return None;
            },
        };
        proof {
            stages = stages.push(region@);
            seed = (i as int, j as int);
            assert(grown(N as int, h@, v@, stages[id - 1], stages[id as int], id as int, members@));
            assert(pass_ok(N as int, h@, v@, c as int, stages[id - 1], stages[id as int], id as int));
            assert forall|k: int| 1 <= k < id + 1 implies #[trigger] pass_ok(N as int, h@, v@, c as int, stages[k - 1], stages[k], k) by {
                if k < id {
                    assert(stages[k - 1] == before[k - 1] && stages[k] == before[k]);
                }
            }
            assert(members@.contains((i, j)));
        }
        words.push(b);
        id += 1;
    }
    proof {
        assert(passes(N as int, h@, v@, c as int, stages, region@));
        assert(region@[seed.0]@[seed.1] == c);
    }
    Some((region, words))
}

proof fn lemma_owner_stays(
    n: int,
    h: Seq<Vec<char>>,
    v: Seq<Vec<char>>,
    c: int,
    stages: Seq<Seq<Vec<usize>>>,
    region: Seq<Vec<usize>>,
    id: int,
    p: Cell,
    t: int,
)
    requires
        passes(n, h, v, c, stages, region),
        in_grid(n, p),
        1 <= id <= t <= c,
        stages[id][p.0]@[p.1] == id,
    ensures
        stages[t][p.0]@[p.1] >= id,
    decreases t - id,
{
    if t > id {
        lemma_owner_stays(n, h, v, c, stages, region, id, p, t - 1);
        assert(pass_ok(n, h, v, c, stages[t - 1], stages[t], t));
        let members = choose|members: Seq<(usize, usize)>|
            #[trigger] grown(n, h, v, stages[t - 1], stages[t], t, members) && n <= members.len() <= n * n / c;
        assert(overwrite(n, stages[t - 1], stages[t], t));
    }
}

/// Once region `id` has claimed a cell, the cell never again belongs to a region
/// numbered below `id`, such as an `earlier` one: after every later pass, and in the
/// final map, its owner is `id` or a later region.
pub proof fn lemma_claim_is_final(
    n: int,
    h: Seq<Vec<char>>,
    v: Seq<Vec<char>>,
    c: int,
    stages: Seq<Seq<Vec<usize>>>,
    region: Seq<Vec<usize>>,
    earlier: int,
    id: int,
    p: Cell,
    t: int,
)
    requires
        passes(n, h, v, c, stages, region),
        in_grid(n, p),
        earlier < id,
        1 <= id <= t <= c,
        stages[id][p.0]@[p.1] == id,
    ensures
        stages[t][p.0]@[p.1] >= id,
        stages[t][p.0]@[p.1] != earlier,
        region[p.0]@[p.1] >= id,
        region[p.0]@[p.1] != earlier,
{
    lemma_owner_stays(n, h, v, c, stages, region, id, p, t);
    lemma_owner_stays(n, h, v, c, stages, region, id, p, c);
}

/// When pass `id` takes a cell that a lower region owned, the cell's owner is `id`.
pub proof fn lemma_later_region_wins(
    n: int,
    h: Seq<Vec<char>>,
    v: Seq<Vec<char>>,
    before: Seq<Vec<usize>>,
    after: Seq<Vec<usize>>,
    id: int,
    members: Seq<(usize, usize)>,
    p: Cell,
)
    requires
        grown(n, h, v, before, after, id, members),
        in_grid(n, p),
        before[p.0]@[p.1] < id,
        after[p.0]@[p.1] != before[p.0]@[p.1],
    ensures
        after[p.0]@[p.1] == id,
        members.contains((p.0 as usize, p.1 as usize)),
{
}

/// Everything one seed decides about an instance but for the rounding of cell values:
/// the size, the walls, the region of each cell, and the random bits that the
/// baseline exponent of each region (`baseline[k]` for region `k + 1`) and the noise
/// of each cell are drawn from.
#[derive(Clone, Debug, PartialEq, Eq)]
pub struct Layout {
    pub N: usize,
    pub c: usize,
    pub h: Vec<Vec<char>>,
    pub v: Vec<Vec<char>>,
    pub region: Vec<Vec<usize>>,
    pub baseline: Vec<u64>,
    pub noise: Vec<Vec<u64>>,
}

impl Layout {
    pub open spec fn wf(&self) -> bool {
        &&& 20 <= self.N <= 40
        &&& 1 <= self.c <= self.N / 2
        &&& walls_wf(self.N as int, self.h@, self.v@)
        &&& walls_binary(self.h@, self.v@)
        &&& connected(self.N as int, self.h@, self.v@)
        &&& ids_at_most(self.N as int, self.region@, self.c as int)
        &&& self.baseline@.len() == self.c
        &&& self.noise@.len() == self.N
        &&& forall|a: int| 0 <= a < self.N ==> (#[trigger] self.noise@[a])@.len() == self.N
    }
}

/// Builds the layout of the instance of seed `seed`, drawing from a ChaCha20 stream:
/// the size N in [20, 40], the number of wall segments in [1, N], the number of
/// regions in [1, N / 2], a connected wall layout, the regions, then the noise of each
/// cell row by row. `None` when the rejection of disconnected layouts, or the growth
/// of a region, gave up after `u64::MAX` tries in a row.
pub fn gen_layout(seed: u64) -> (r: Option<Layout>)
    ensures
        r matches Some(l) ==> {
            &&& l.wf()
            &&& has_wall(l.h@, l.v@)
            &&& 1 <= wall_count(l.h@, l.v@) <= l.N * (l.N / 2)
            &&& exists|stages: Seq<Seq<Vec<usize>>>| passes(l.N as int, l.h@, l.v@, l.c as int, stages, l.region@)
            &&& exists|a: int, b: int| 0 <= a < l.N && 0 <= b < l.N && #[trigger] l.region@[a]@[b] == l.c
        },
{
    let mut rng = seeded(seed);
    let n = draw(&mut rng, 20, 40);
    let w = draw(&mut rng, 1, n);
    let c = draw(&mut rng, 1, n / 2);
    let N = n as usize;
    let (h, v) = match generate_maze(&mut rng, N, w) {
        Some(m) => m,
        None => {
            return None;
        },
    };
    proof {
        let q = (N / 2) as int;
        assert(w * q <= N * q) by (nonlinear_arith)
            requires 1 <= w <= N, q >= 0;
    }
    let (region, baseline) = match assign_regions(&mut rng, N, &h, &v, c as usize) {
        Some(x) => x,
        None => {
            return None;
        },
    };
    let mut noise: Vec<Vec<u64>> = Vec::new();
    while noise.len() < N
        invariant
            noise@.len() <= N,
            forall|a: int| 0 <= a < noise@.len() ==> (#[trigger] noise@[a])@.len() == N,
        decreases N - noise@.len(),
    {
        let mut row: Vec<u64> = Vec::new();
        while row.len() < N
            invariant
                row@.len() <= N,
            decreases N - row@.len(),
        {
            row.push(draw_word(&mut rng));
        }
        noise.push(row);
    }
    Some(Layout { N, c: c as usize, h, v, region, baseline, noise })
}

} // verus!
