//! Vectors in the plane with integer coordinates, and the longest sum of a
//! run of vectors taken in order of their angle.

use vstd::prelude::*;

verus! {

/// A vector in the plane.
#[derive(Clone, Copy, Debug, PartialEq, Eq)]
pub struct Dir {
    pub x: isize,
    pub y: isize,
}

/// The square of the length of the vector `(x, y)`.
pub open spec fn norm_squared(x: int, y: int) -> int {
    x * x + y * y
}

/// The absolute value of `v`.
fn magnitude(v: isize) -> (m: usize)
    requires
        v * v <= usize::MAX,
    ensures
        m == if v < 0 { -v } else { v as int },
        m * m == v * v,
{
    proof {
        assert(v > isize::MIN) by (nonlinear_arith)
            requires
                v * v <= usize::MAX,
                v >= isize::MIN,
                isize::MIN < -2,
                usize::MAX < -4 * isize::MIN,
        ;
    }
    let m: usize = if v < 0 {
        (-v) as usize
    } else {
        v as usize
    };
    assert(m * m == v * v) by (nonlinear_arith)
        requires
            m == v || m == -v,
    ;
    m
}

impl Dir {
    /// Adds the vector `(dx, dy)` to this one.
    pub fn add_mut(&mut self, dx: isize, dy: isize)
        requires
            isize::MIN <= old(self).x + dx <= isize::MAX,
            isize::MIN <= old(self).y + dy <= isize::MAX,
        ensures
            final(self).x == old(self).x + dx,
            final(self).y == old(self).y + dy,
    {
        self.x += dx;
        self.y += dy;
    }

    /// Takes the vector `(dx, dy)` from this one.
    pub fn sub_mut(&mut self, dx: isize, dy: isize)
        requires
            isize::MIN <= old(self).x - dx <= isize::MAX,
            isize::MIN <= old(self).y - dy <= isize::MAX,
        ensures
            final(self).x == old(self).x - dx,
            final(self).y == old(self).y - dy,
    {
        self.x -= dx;
        self.y -= dy;
    }

    /// The square of the vector's length.
    pub fn length_squared(&self) -> (length: usize)
        requires
            norm_squared(self.x as int, self.y as int) <= usize::MAX,
        ensures
            length == norm_squared(self.x as int, self.y as int),
    {
        proof {
            assert(self.x * self.x >= 0) by (nonlinear_arith);
            assert(self.y * self.y >= 0) by (nonlinear_arith);
        }
        let x: usize = magnitude(self.x);
        let y: usize = magnitude(self.y);
        x * x + y * y
    }
}

/// The sum of the first coordinates of the `count` vectors from `from` on.
pub open spec fn span_x(dirs: Seq<Dir>, from: int, count: int) -> int
    decreases count,
{
    if count <= 0 {
        0
    } else {
        span_x(dirs, from, count - 1) + dirs[from + count - 1].x
    }
}

/// The sum of the second coordinates of the `count` vectors from `from` on.
pub open spec fn span_y(dirs: Seq<Dir>, from: int, count: int) -> int
    decreases count,
{
    if count <= 0 {
        0
    } else {
        span_y(dirs, from, count - 1) + dirs[from + count - 1].y
    }
}

/// The square of the length of the sum of the `count` vectors from `from` on.
pub open spec fn span_length(dirs: Seq<Dir>, from: int, count: int) -> int {
    norm_squared(span_x(dirs, from, count), span_y(dirs, from, count))
}

/// Every run of at most `n` of the vectors adds up to a vector whose
/// coordinates fit in an `isize`, and the square of the length of every run
/// of `n` fits in a `usize`.
pub open spec fn spans_fit(dirs: Seq<Dir>, n: int) -> bool {
    &&& forall|from: int, count: int|
        0 <= from && 0 <= count <= n && from + count <= dirs.len() ==> isize::MIN <= #[trigger] span_x(
            dirs,
            from,
            count,
        ) <= isize::MAX
    &&& forall|from: int, count: int|
        0 <= from && 0 <= count <= n && from + count <= dirs.len() ==> isize::MIN <= #[trigger] span_y(
            dirs,
            from,
            count,
        ) <= isize::MAX
    &&& forall|from: int| 0 <= from && from + n <= dirs.len() ==> #[trigger] span_length(dirs, from, n) <= usize::MAX
}

/// A run without its first vector is the run that starts one later and
/// is one shorter.
pub proof fn lemma_span_without_first(dirs: Seq<Dir>, from: int, count: int)
    requires
        count >= 1,
    ensures
        span_x(dirs, from + 1, count - 1) == span_x(dirs, from, count) - dirs[from].x,
        span_y(dirs, from + 1, count - 1) == span_y(dirs, from, count) - dirs[from].y,
    decreases count,
{
    if count > 1 {
        lemma_span_without_first(dirs, from, count - 1);
    } else {
        assert(span_x(dirs, from, 0) == 0);
        assert(span_y(dirs, from, 0) == 0);
    }
}

/// Each vector followed by its opposite.
pub fn mirrored(vectors: &Vec<(isize, isize)>) -> (dirs: Vec<Dir>)
    requires
        forall|i: int| 0 <= i < vectors.len() ==> (#[trigger] vectors@[i]).0 > isize::MIN && vectors@[i].1 > isize::MIN,
    ensures
        dirs.len() == 2 * vectors.len(),
        forall|i: int| 0 <= i < vectors.len() ==> (#[trigger] dirs@[2 * i]) == (Dir { x: vectors@[i].0, y: vectors@[i].1 }),
        forall|i: int|
            0 <= i < vectors.len() ==> (#[trigger] dirs@[2 * i + 1]).x == -vectors@[i].0 && dirs@[2 * i + 1].y
                == -vectors@[i].1,
{
    let mut dirs: Vec<Dir> = Vec::new();
    let mut i: usize = 0;
    while i < vectors.len()
        invariant
            0 <= i <= vectors.len(),
            dirs.len() == 2 * i,
            forall|i: int|
                0 <= i < vectors.len() ==> (#[trigger] vectors@[i]).0 > isize::MIN && vectors@[i].1 > isize::MIN,
            forall|j: int| 0 <= j < i ==> (#[trigger] dirs@[2 * j]) == (Dir { x: vectors@[j].0, y: vectors@[j].1 }),
            forall|j: int|
                0 <= j < i ==> (#[trigger] dirs@[2 * j + 1]).x == -vectors@[j].0 && dirs@[2 * j + 1].y
                    == -vectors@[j].1,
        decreases vectors.len() - i,
    {
        let (x, y) = vectors[i];
        dirs.push(Dir { x: x, y: y });
        dirs.push(Dir { x: -x, y: -y });
        i += 1;
    }
    dirs
}

/// The greatest square of a length among the sums of `n` vectors in a row,
/// where `dirs` lists twice `n` vectors: the first `n` of them, the `n` from
/// the second on, and so on to the last `n`.
pub fn solve_case(dirs: &Vec<Dir>, n: usize) -> (max_dist: usize)
    requires
        dirs.len() == 2 * n,
        spans_fit(dirs@, n as int),
    ensures
        exists|from: int| 0 <= from <= n && max_dist == #[trigger] span_length(dirs@, from, n as int),
        forall|from: int| 0 <= from <= n ==> #[trigger] span_length(dirs@, from, n as int) <= max_dist,
{
    let mut curr_dir = Dir { x: 0, y: 0 };
    let mut i: usize = 0;
    while i < n
        invariant
            0 <= i <= n,
            dirs.len() == 2 * n,
            spans_fit(dirs@, n as int),
            curr_dir.x == span_x(dirs@, 0, i as int),
            curr_dir.y == span_y(dirs@, 0, i as int),
        decreases n - i,
    {
        proof {
            assert(isize::MIN <= span_x(dirs@, 0, i + 1) <= isize::MAX);
            assert(isize::MIN <= span_y(dirs@, 0, i + 1) <= isize::MAX);
        }
        curr_dir.add_mut(dirs[i].x, dirs[i].y);
        i += 1;
    }
    assert(span_length(dirs@, 0, n as int) <= usize::MAX);
    let mut max_dist: usize = curr_dir.length_squared();
    let mut i: usize = 0;
    while i < n
        invariant
            0 <= i <= n,
            dirs.len() == 2 * n,
            spans_fit(dirs@, n as int),
            curr_dir.x == span_x(dirs@, i as int, n as int),
            curr_dir.y == span_y(dirs@, i as int, n as int),
            exists|from: int| 0 <= from <= i && max_dist == #[trigger] span_length(dirs@, from, n as int),
            forall|from: int| 0 <= from <= i ==> #[trigger] span_length(dirs@, from, n as int) <= max_dist,
        decreases n - i,
    {
        proof {
            lemma_span_without_first(dirs@, i as int, n as int);
            assert(isize::MIN <= span_x(dirs@, i + 1, n - 1) <= isize::MAX);
            assert(isize::MIN <= span_y(dirs@, i + 1, n - 1) <= isize::MAX);
            assert(isize::MIN <= span_x(dirs@, i + 1, n as int) <= isize::MAX);
            assert(isize::MIN <= span_y(dirs@, i + 1, n as int) <= isize::MAX);
            assert(span_length(dirs@, i + 1, n as int) <= usize::MAX);
        }
        curr_dir.sub_mut(dirs[i].x, dirs[i].y);
        curr_dir.add_mut(dirs[i + n].x, dirs[i + n].y);
        let dist: usize = curr_dir.length_squared();
        if dist > max_dist {
            max_dist = dist;
        }
        i += 1;
    }
    max_dist
}

} // verus!
