use vstd::prelude::*;

verus! {

/// A cell of the grid, as (row, column).
pub type Cell = (int, int);

pub open spec fn in_grid(n: int, p: Cell) -> bool {
    0 <= p.0 < n && 0 <= p.1 < n
}

/// The neighbour of `p` in direction `dir`: 0 right, 1 down, 2 left, 3 up.
pub open spec fn step(p: Cell, dir: int) -> Cell {
    if dir == 0 {
        (p.0, p.1 + 1)
    } else if dir == 1 {
        (p.0 + 1, p.1)
    } else if dir == 2 {
        (p.0, p.1 - 1)
    } else {
        (p.0 - 1, p.1)
    }
}

pub open spec fn opposite(dir: int) -> int {
    if dir < 2 { dir + 2 } else { dir - 2 }
}

/// `h` has n-1 rows of n characters, `v` has n rows of n-1 characters.
pub open spec fn walls_wf(n: int, h: Seq<Vec<char>>, v: Seq<Vec<char>>) -> bool {
    &&& n >= 1
    &&& h.len() == n - 1
    &&& v.len() == n
    &&& forall|i: int| 0 <= i < n - 1 ==> (#[trigger] h[i])@.len() == n
    &&& forall|i: int| 0 <= i < n ==> (#[trigger] v[i])@.len() == n - 1
}

/// Every wall character is '0' (open) or '1' (wall).
pub open spec fn walls_binary(h: Seq<Vec<char>>, v: Seq<Vec<char>>) -> bool {
    &&& forall|i: int, j: int|
        0 <= i < h.len() && 0 <= j < h[i]@.len() ==> ((#[trigger] h[i]@[j]) == '0' || h[i]@[j] == '1')
    &&& forall|i: int, j: int|
        0 <= i < v.len() && 0 <= j < v[i]@.len() ==> ((#[trigger] v[i]@[j]) == '0' || v[i]@[j] == '1')
}

/// A step from `p` in direction `dir` stays in the grid and crosses no wall.
pub open spec fn movable(n: int, h: Seq<Vec<char>>, v: Seq<Vec<char>>, p: Cell, dir: int) -> bool {
    &&& 0 <= dir < 4
    &&& in_grid(n, p)
    &&& in_grid(n, step(p, dir))
    &&& if dir == 0 {
        v[p.0]@[p.1] == '0'
    } else if dir == 1 {
        h[p.0]@[p.1] == '0'
    } else if dir == 2 {
        v[p.0]@[p.1 - 1] == '0'
    } else {
        h[p.0 - 1]@[p.1] == '0'
    }
}

/// No step out of `s` is possible.
pub open spec fn closed(n: int, h: Seq<Vec<char>>, v: Seq<Vec<char>>, s: Set<Cell>) -> bool {
    forall|p: Cell, dir: int|
        #[trigger] movable(n, h, v, p, dir) && s.contains(p) ==> s.contains(step(p, dir))
}

pub open spec fn covers(n: int, s: Set<Cell>) -> bool {
    forall|i: int, j: int| 0 <= i < n && 0 <= j < n ==> #[trigger] s.contains((i, j))
}

/// `p` is reachable from `src`: every set closed under moves that holds `src` holds `p`.
pub open spec fn reached(n: int, h: Seq<Vec<char>>, v: Seq<Vec<char>>, src: Cell, p: Cell) -> bool {
    forall|s: Set<Cell>| closed(n, h, v, s) && #[trigger] s.contains(src) ==> s.contains(p)
}

/// A flood fill from `src` visits every cell of the grid.
pub open spec fn connected_from(n: int, h: Seq<Vec<char>>, v: Seq<Vec<char>>, src: Cell) -> bool {
    forall|s: Set<Cell>| closed(n, h, v, s) && #[trigger] s.contains(src) ==> covers(n, s)
}

/// A flood fill from any cell visits every cell of the grid.
pub open spec fn connected(n: int, h: Seq<Vec<char>>, v: Seq<Vec<char>>) -> bool {
    forall|i: int, j: int| 0 <= i < n && 0 <= j < n ==> #[trigger] connected_from(n, h, v, (i, j))
}

pub proof fn lemma_movable_back(n: int, h: Seq<Vec<char>>, v: Seq<Vec<char>>, p: Cell, dir: int)
    requires
        movable(n, h, v, p, dir),
    ensures
        movable(n, h, v, step(p, dir), opposite(dir)),
        step(step(p, dir), opposite(dir)) == p,
{
}

/// Moves are symmetric, so a grid connected from its corner is connected from every cell.
pub proof fn lemma_connected_everywhere(n: int, h: Seq<Vec<char>>, v: Seq<Vec<char>>)
    requires
        n >= 1,
        connected_from(n, h, v, (0, 0)),
    ensures
        connected(n, h, v),
{
    assert forall|i: int, j: int| 0 <= i < n && 0 <= j < n implies #[trigger] connected_from(n, h, v, (i, j)) by {
        assert forall|s: Set<Cell>| closed(n, h, v, s) && #[trigger] s.contains((i, j)) implies covers(n, s) by {
            let rest = Set::new(|q: Cell| in_grid(n, q) && !s.contains(q));
            assert(closed(n, h, v, rest)) by {
                assert forall|q: Cell, dir: int|
                    #[trigger] movable(n, h, v, q, dir) && rest.contains(q) implies rest.contains(step(q, dir)) by {
                    lemma_movable_back(n, h, v, q, dir);
                    if s.contains(step(q, dir)) {
                        assert(movable(n, h, v, step(q, dir), opposite(dir)));
                    }
                }
            }
            if !s.contains((0, 0)) {
                assert(rest.contains((0, 0)));
                assert(rest.contains((i, j)));
            }
        }
    }
}

/// A grid without walls is connected from its corner.
pub proof fn lemma_open_connected(n: int, h: Seq<Vec<char>>, v: Seq<Vec<char>>)
    requires
        walls_wf(n, h, v),
        forall|i: int, j: int| 0 <= i < n - 1 && 0 <= j < n ==> #[trigger] h[i]@[j] == '0',
        forall|i: int, j: int| 0 <= i < n && 0 <= j < n - 1 ==> #[trigger] v[i]@[j] == '0',
    ensures
        connected_from(n, h, v, (0, 0)),
{
    assert forall|s: Set<Cell>| closed(n, h, v, s) && #[trigger] s.contains((0, 0)) implies covers(n, s) by {
        assert forall|i: int, j: int| 0 <= i < n && 0 <= j < n implies #[trigger] s.contains((i, j)) by {
            lemma_open_reach(n, h, v, s, i, j);
        }
    }
}

proof fn lemma_open_reach(n: int, h: Seq<Vec<char>>, v: Seq<Vec<char>>, s: Set<Cell>, i: int, j: int)
    requires
        walls_wf(n, h, v),
        forall|i: int, j: int| 0 <= i < n - 1 && 0 <= j < n ==> #[trigger] h[i]@[j] == '0',
        forall|i: int, j: int| 0 <= i < n && 0 <= j < n - 1 ==> #[trigger] v[i]@[j] == '0',
        closed(n, h, v, s),
        s.contains((0, 0)),
        0 <= i < n,
        0 <= j < n,
    ensures
        s.contains((i, j)),
    decreases i + j,
{
    if j > 0 {
        lemma_open_reach(n, h, v, s, i, j - 1);
        assert(movable(n, h, v, (i, j - 1), 0));
    } else if i > 0 {
        lemma_open_reach(n, h, v, s, i - 1, j);
        assert(movable(n, h, v, (i - 1, j), 1));
    }
}

/// Whether one step from (i, j) in direction `dir` stays in the grid and crosses no wall.
pub fn can_move(N: usize, h: &Vec<Vec<char>>, v: &Vec<Vec<char>>, i: usize, j: usize, dir: usize) -> (r: bool)
    requires
        walls_wf(N as int, h@, v@),
        i < N,
        j < N,
        dir < 4,
    ensures
        r == movable(N as int, h@, v@, (i as int, j as int), dir as int),
{
    if dir == 0 {
        j + 1 < N && v[i][j] == '0'
    } else if dir == 1 {
        i + 1 < N && h[i][j] == '0'
    } else if dir == 2 {
        j > 0 && v[i][j - 1] == '0'
    } else {
        i > 0 && h[i - 1][j] == '0'
    }
}


/// A row of `len` copies of `x`.
pub fn filled<T: Copy>(len: usize, x: T) -> (r: Vec<T>)
    ensures
        r@.len() == len,
        forall|k: int| 0 <= k < len ==> r@[k] == x,
{
    let mut r: Vec<T> = Vec::new();
    while r.len() < len
        invariant
            r@.len() <= len,
            forall|k: int| 0 <= k < r@.len() ==> r@[k] == x,
        decreases len - r@.len(),
    {
        r.push(x);
    }
    r
}

/// A `rows` by `cols` matrix of copies of `x`.
pub fn matrix<T: Copy>(rows: usize, cols: usize, x: T) -> (r: Vec<Vec<T>>)
    ensures
        r@.len() == rows,
        forall|i: int| 0 <= i < rows ==> (#[trigger] r@[i])@.len() == cols,
        forall|i: int, k: int| 0 <= i < rows && 0 <= k < cols ==> #[trigger] r@[i]@[k] == x,
{
    let mut r: Vec<Vec<T>> = Vec::new();
    while r.len() < rows
        invariant
            r@.len() <= rows,
            forall|i: int| 0 <= i < r@.len() ==> (#[trigger] r@[i])@.len() == cols,
            forall|i: int, k: int| 0 <= i < r@.len() && 0 <= k < cols ==> #[trigger] r@[i]@[k] == x,
        decreases rows - r@.len(),
    {
        r.push(filled(cols, x));
    }
    r
}

pub open spec fn unmarked_in_row(r: Seq<bool>) -> nat
    decreases r.len(),
{
    if r.len() == 0 {
        0
    } else {
        unmarked_in_row(r.drop_last()) + if r.last() { 0nat } else { 1nat }
    }
}

/// How many cells of `g` are still false.
pub open spec fn unmarked(g: Seq<Vec<bool>>) -> nat
    decreases g.len(),
{
    if g.len() == 0 {
        0
    } else {
        unmarked(g.drop_last()) + unmarked_in_row(g.last()@)
    }
}

proof fn lemma_unmarked_row_update(r: Seq<bool>, j: int)
    requires
        0 <= j < r.len(),
        !r[j],
    ensures
        unmarked_in_row(r.update(j, true)) + 1 == unmarked_in_row(r),
    decreases r.len(),
{
    let u = r.update(j, true);
    if j < r.len() - 1 {
        lemma_unmarked_row_update(r.drop_last(), j);
        assert(u.drop_last() =~= r.drop_last().update(j, true));
    } else {
        assert(u.drop_last() =~= r.drop_last());
    }
}

proof fn lemma_unmarked_update(g: Seq<Vec<bool>>, i: int, row: Vec<bool>)
    requires
        0 <= i < g.len(),
        unmarked_in_row(row@) + 1 == unmarked_in_row(g[i]@),
    ensures
        unmarked(g.update(i, row)) + 1 == unmarked(g),
    decreases g.len(),
{
    let u = g.update(i, row);
    if i < g.len() - 1 {
        lemma_unmarked_update(g.drop_last(), i, row);
        assert(u.drop_last() =~= g.drop_last().update(i, row));
    } else {
        assert(u.drop_last() =~= g.drop_last());
    }
}

/// Sets `g[i][j]` to `x`.
pub fn put<T: Copy>(g: &mut Vec<Vec<T>>, i: usize, j: usize, x: T)
    requires
        i < old(g)@.len(),
        j < old(g)@[i as int]@.len(),
    ensures
        final(g)@.len() == old(g)@.len(),
        forall|a: int| 0 <= a < final(g)@.len() ==> (#[trigger] final(g)@[a])@.len() == old(g)@[a]@.len(),
        forall|a: int, b: int| 0 <= a < final(g)@.len() && 0 <= b < final(g)@[a]@.len() ==>
            #[trigger] final(g)@[a]@[b] == if a == i && b == j { x } else { old(g)@[a]@[b] },
{
    g[i][j] = x;
    proof {
        assert(final(g)@[i as int]@ =~= old(g)@[i as int]@.update(j as int, x));
    }
}

/// Sets `g[i][j]` to true.
fn mark(g: &mut Vec<Vec<bool>>, i: usize, j: usize)
    requires
        i < old(g)@.len(),
        j < old(g)@[i as int]@.len(),
    ensures
        final(g)@.len() == old(g)@.len(),
        forall|a: int| 0 <= a < final(g)@.len() ==> (#[trigger] final(g)@[a])@.len() == old(g)@[a]@.len(),
        forall|a: int, b: int| 0 <= a < final(g)@.len() && 0 <= b < final(g)@[a]@.len() ==>
            #[trigger] final(g)@[a]@[b] == (old(g)@[a]@[b] || (a == i && b == j)),
        !old(g)@[i as int]@[j as int] ==> unmarked(final(g)@) + 1 == unmarked(old(g)@),
{
    let mut row = g[i].clone();
    proof {
        assert(row@ =~= old(g)@[i as int]@);
    }
    let ghost before = row@;
    row.set(j, true);
    proof {
        if !before[j as int] {
            lemma_unmarked_row_update(before, j as int);
            assert(row@ =~= before.update(j as int, true));
            lemma_unmarked_update(g@, i as int, row);
        }
    }
    g.set(i, row);
}

/// Flood fill from the corner cell: whether it visits every cell of the grid.
pub fn reaches_every_cell(N: usize, h: &Vec<Vec<char>>, v: &Vec<Vec<char>>) -> (r: bool)
    requires
        walls_wf(N as int, h@, v@),
    ensures
        r == connected_from(N as int, h@, v@, (0, 0)),
{
    let ghost n = N as int;
    let mut visited = matrix(N, N, false);
    mark(&mut visited, 0, 0);
    let mut stack: Vec<(usize, usize)> = Vec::new();
    stack.push((0, 0));
    proof {
        assert(reached(n, h@, v@, (0, 0), (0, 0)));
        assert(stack@[0] == (0usize, 0usize));
        assert(stack@.contains((0usize, 0usize)));
    }
    while stack.len() > 0
        invariant
            walls_wf(n, h@, v@),
            n == N as int,
            visited@.len() == n,
            n >= 1 ==> visited@[0]@[0],
            forall|a: int| 0 <= a < n ==> (#[trigger] visited@[a])@.len() == n,
            forall|k: int| 0 <= k < stack@.len() ==> {
                let q = #[trigger] stack@[k];
                q.0 < n && q.1 < n && visited@[q.0 as int]@[q.1 as int]
            },
            forall|a: int, b: int| 0 <= a < n && 0 <= b < n && #[trigger] visited@[a]@[b] ==>
                reached(n, h@, v@, (0, 0), (a, b)),
            forall|a: int, b: int, dir: int| 0 <= a < n && 0 <= b < n && visited@[a]@[b]
                && !stack@.contains((a as usize, b as usize)) && #[trigger] movable(n, h@, v@, (a, b), dir)
                ==> visited@[step((a, b), dir).0]@[step((a, b), dir).1],
        decreases unmarked(visited@) * 5 + stack@.len(),
    {
        let ghost stack0 = stack@;
        let (i, j) = stack.pop().unwrap();
        proof {
            assert(stack0[stack0.len() - 1] == (i, j));
            assert forall|q: (usize, usize)| stack0.contains(q) && q != (i, j) implies stack@.contains(q) by {
                let k = choose|k: int| 0 <= k < stack0.len() && stack0[k] == q;
                assert(stack@[k] == q);
            }
        }
        let ghost popped = stack@;
        let ghost u0 = unmarked(visited@);
        let mut dir: usize = 0;
        while dir < 4
            invariant
                walls_wf(n, h@, v@),
                n == N as int,
                i < n,
                j < n,
                visited@[i as int]@[j as int],
                dir <= 4,
                visited@.len() == n,
                n >= 1 ==> visited@[0]@[0],
                forall|a: int| 0 <= a < n ==> (#[trigger] visited@[a])@.len() == n,
                forall|k: int| 0 <= k < stack@.len() ==> {
                    let q = #[trigger] stack@[k];
                    q.0 < n && q.1 < n && visited@[q.0 as int]@[q.1 as int]
                },
                forall|a: int, b: int| 0 <= a < n && 0 <= b < n && #[trigger] visited@[a]@[b] ==>
                    reached(n, h@, v@, (0, 0), (a, b)),
                forall|q: (usize, usize)| popped.contains(q) ==> #[trigger] stack@.contains(q),
                forall|a: int, b: int, dir: int| 0 <= a < n && 0 <= b < n && visited@[a]@[b]
                    && !stack@.contains((a as usize, b as usize)) && (a, b) != (i as int, j as int)
                    && #[trigger] movable(n, h@, v@, (a, b), dir)
                    ==> visited@[step((a, b), dir).0]@[step((a, b), dir).1],
                forall|d: int| 0 <= d < dir && #[trigger] movable(n, h@, v@, (i as int, j as int), d)
                    ==> visited@[step((i as int, j as int), d).0]@[step((i as int, j as int), d).1],
                unmarked(visited@) * 5 + stack@.len() <= u0 * 5 + popped.len(),
            decreases 4 - dir,
        {
            if can_move(N, h, v, i, j, dir) {
                let (i2, j2) = if dir == 0 {
                    (i, j + 1)
                } else if dir == 1 {
                    (i + 1, j)
                } else if dir == 2 {
                    (i, j - 1)
                } else {
                    (i - 1, j)
                };
                assert((i2 as int, j2 as int) == step((i as int, j as int), dir as int));
                if !visited[i2][j2] {
                    proof {
                        assert forall|s: Set<Cell>| closed(n, h@, v@, s) && #[trigger] s.contains((0, 0))
                            implies s.contains((i2 as int, j2 as int)) by {
                            assert(s.contains((i as int, j as int)));
                            assert(movable(n, h@, v@, (i as int, j as int), dir as int));
                        }
                    }
                    let ghost stack1 = stack@;
                    mark(&mut visited, i2, j2);
                    stack.push((i2, j2));
                    proof {
                        assert forall|q: (usize, usize)| stack1.contains(q) implies #[trigger] stack@.contains(q) by {
                            let k = choose|k: int| 0 <= k < stack1.len() && stack1[k] == q;
                            assert(stack@[k] == q);
                        }
                        assert(stack@[stack@.len() - 1] == (i2, j2));
                    }
                }
            }
            dir += 1;
        }
    }
    let mut all = true;
    let mut a: usize = 0;
    while a < N
        invariant
            visited@.len() == n,
            n == N as int,
            n >= 1 ==> visited@[0]@[0],
            forall|x: int| 0 <= x < n ==> (#[trigger] visited@[x])@.len() == n,
            a <= n,
            all == (forall|x: int, y: int| 0 <= x < a && 0 <= y < n ==> #[trigger] visited@[x]@[y]),
        decreases n - a,
    {
        let mut b: usize = 0;
        while b < N
            invariant
                visited@.len() == n,
                n == N as int,
                n >= 1 ==> visited@[0]@[0],
                forall|x: int| 0 <= x < n ==> (#[trigger] visited@[x])@.len() == n,
                a < n,
                b <= n,
                all == ((forall|x: int, y: int| 0 <= x < a && 0 <= y < n ==> #[trigger] visited@[x]@[y])
                    && (forall|y: int| 0 <= y < b ==> #[trigger] visited@[a as int]@[y])),
            decreases n - b,
        {
            if !visited[a][b] {
                all = false;
            }
            b += 1;
        }
        a += 1;
    }
    proof {
        let seen = Set::new(|q: Cell| in_grid(n, q) && visited@[q.0]@[q.1]);
        assert forall|q: Cell, dir: int| #[trigger] movable(n, h@, v@, q, dir) && seen.contains(q)
            implies seen.contains(step(q, dir)) by {
            assert(!stack@.contains((q.0 as usize, q.1 as usize)));
        }
        assert(seen.contains((0, 0)));
        if all {
            assert forall|s: Set<Cell>| closed(n, h@, v@, s) && #[trigger] s.contains((0, 0)) implies covers(n, s) by {
                assert forall|x: int, y: int| 0 <= x < n && 0 <= y < n implies #[trigger] s.contains((x, y)) by {
                    assert(visited@[x]@[y]);
                    assert(reached(n, h@, v@, (0, 0), (x, y)));
                }
            }
        } else {
            let (x, y) = choose|x: int, y: int| 0 <= x < n && 0 <= y < n && !visited@[x]@[y];
            assert(!seen.contains((x, y)));
            assert(closed(n, h@, v@, seen));
        }
    }
    all
}

/// Replaces a value by a smaller or a larger one, saying whether it did.
pub trait SetMinMax: Sized {
    /// The order that `setmin` and `setmax` go by.
    spec fn less(a: Self, b: Self) -> bool;

    /// Takes `v` if it is smaller; true when it did.
    fn setmin(&mut self, v: Self) -> (r: bool)
        ensures
            r == Self::less(v, *old(self)),
            *final(self) == if r { v } else { *old(self) },
    ;

    /// Takes `v` if it is larger; true when it did.
    fn setmax(&mut self, v: Self) -> (r: bool)
        ensures
            r == Self::less(*old(self), v),
            *final(self) == if r { v } else { *old(self) },
    ;
}

impl SetMinMax for usize {
    open spec fn less(a: usize, b: usize) -> bool {
        a < b
    }

    fn setmin(&mut self, v: usize) -> (r: bool) {
        if *self > v {
            *self = v;
            true
        } else {
            false
        }
    }

    fn setmax(&mut self, v: usize) -> (r: bool) {
        if *self < v {
            *self = v;
            true
        } else {
            false
        }
    }
}

impl SetMinMax for bool {
    open spec fn less(a: bool, b: bool) -> bool {
        !a && b
    }

    fn setmin(&mut self, v: bool) -> (r: bool) {
        if *self && !v {
            *self = v;
            true
        } else {
            false
        }
    }

    fn setmax(&mut self, v: bool) -> (r: bool) {
        if !*self && v {
            *self = v;
            true
        } else {
            false
        }
    }
}

} // verus!
