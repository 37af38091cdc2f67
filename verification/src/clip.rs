use vstd::prelude::*;

verus! {

/// A vertex in clip space. Each of `x`, `y`, `z`, `w` is held as the bit
/// pattern of an IEEE 754 single-precision number.
#[derive(Debug, Copy, Clone, PartialEq, Eq)]
pub struct ClipVertex {
    pub position: [u32; 4],
}

impl ClipVertex {
    pub fn new(position: [u32; 4]) -> (r: Self)
        ensures
            r.position == position,
    {
        Self { position }
    }
}

/// The most vertices a buffer holds.
pub const CAPACITY: usize = 12;

/// A polygon of at most twelve vertices.
pub struct VertexBuffer {
    data: [ClipVertex; 12],
    len: usize,
}

impl View for VertexBuffer {
    type V = Seq<ClipVertex>;

    closed spec fn view(&self) -> Seq<ClipVertex> {
        self.data@.take(self.len as int)
    }
}

impl VertexBuffer {
    #[verifier::type_invariant]
    spec fn inv(self) -> bool {
        self.len <= 12
    }

    /// All twelve storage slots; the first `len` of them are the polygon.
    pub closed spec fn slots(&self) -> Seq<ClipVertex> {
        self.data@
    }

    /// Every buffer has `CAPACITY` slots.
    pub proof fn lemma_slot_count(b: &VertexBuffer)
        ensures
            b.slots().len() == CAPACITY,
    {
    }

    /// An empty buffer whose slots all hold the vertex with every bit zero.
    pub fn new() -> (r: Self)
        ensures
            r@ == Seq::<ClipVertex>::empty(),
            r.slots().len() == CAPACITY,
            forall|i: int| 0 <= i < CAPACITY ==> #[trigger] r.slots()[i].position@ == seq![0u32, 0u32, 0u32, 0u32],
    {
        let zero = ClipVertex::new([0u32; 4]);
        let r = Self { data: [zero; 12], len: 0 };
        assert(r@ =~= Seq::<ClipVertex>::empty());
        r
    }

    /// Forgets the vertices; the slots keep what they held.
    pub fn clear(&mut self)
        ensures
            final(self)@ == Seq::<ClipVertex>::empty(),
            final(self).slots() == old(self).slots(),
            final(self).slots().len() == CAPACITY,
    {
        self.len = 0;
        assert(self@ =~= Seq::<ClipVertex>::empty());
    }

    /// Appends `v`; the buffer must not be full.
    pub fn push(&mut self, v: ClipVertex)
        requires
            old(self)@.len() < CAPACITY,
        ensures
            final(self)@ == old(self)@.push(v),
            final(self).slots() == old(self).slots().update(old(self)@.len() as int, v),
            final(self).slots().len() == CAPACITY,
    {
        proof {
            use_type_invariant(&*self);
        }
        let ghost before = self@;
        self.data[self.len] = v;
        self.len = self.len + 1;
        assert(self@ =~= before.push(v));
    }

    /// The number of vertices.
    pub fn len(&self) -> (r: usize)
        ensures
            r == self@.len(),
            r <= CAPACITY,
    {
        proof {
            use_type_invariant(self);
        }
        self.len
    }

    /// Vertex `i`.
    pub fn get(&self, i: usize) -> (r: ClipVertex)
        requires
            i < self@.len(),
        ensures
            r == self@[i as int],
    {
        proof {
            use_type_invariant(self);
        }
        self.data[i]
    }

    /// The triangles of the fan around the first vertex, `(v[0], v[i],
    /// v[i + 1])` for `i` from 1 up to the last but one; none for fewer
    /// than three vertices.
    pub fn fan(&self) -> (r: Vec<[ClipVertex; 3]>)
        ensures
            r@.len() == (if self@.len() >= 3 { self@.len() - 2 } else { 0 }),
            forall|k: int| 0 <= k < r@.len() ==> #[trigger] r@[k]@ == seq![self@[0], self@[k + 1], self@[k + 2]],
    {
        proof {
            use_type_invariant(self);
        }
        let mut r: Vec<[ClipVertex; 3]> = Vec::new();
        if self.len < 3 {
            return r;
        }
        let mut i: usize = 1;
        while i < self.len - 1
            invariant
                3 <= self.len <= 12,
                1 <= i <= self.len - 1,
                r@.len() == i - 1,
                forall|k: int| 0 <= k < r@.len() ==> #[trigger] r@[k]@ == seq![self@[0], self@[k + 1], self@[k + 2]],
            decreases self.len - i,
        {
            let t = [self.data[0], self.data[i], self.data[i + 1]];
            r.push(t);
            assert(r@[i - 1]@ =~= seq![self@[0], self@[i as int], self@[i + 1]]);
            i = i + 1;
        }
        r
    }

    /// The vertices in groups of three, in order; the last group holds
    /// what is left when the count is not a multiple of three.
    pub fn as_triangles(&self) -> (r: Vec<Vec<ClipVertex>>)
        ensures
            r@.len() == (self@.len() + 2) / 3,
            forall|k: int|
                0 <= k < r@.len() ==> #[trigger] r@[k]@ == self@.subrange(
                    3 * k,
                    if 3 * k + 3 <= self@.len() { 3 * k + 3 } else { self@.len() as int },
                ),
    {
        proof {
            use_type_invariant(self);
        }
        let mut r: Vec<Vec<ClipVertex>> = Vec::new();
        let mut start: usize = 0;
        while start < self.len
            invariant
                self.len <= 12,
                start <= self.len,
                start == (if 3 * r@.len() <= self.len { 3 * r@.len() as int } else { self.len as int }),
                start < self.len ==> start == 3 * r@.len(),
                start == self.len ==> r@.len() == (self.len + 2) / 3,
                forall|k: int|
                    0 <= k < r@.len() ==> #[trigger] r@[k]@ == self@.subrange(
                        3 * k,
                        if 3 * k + 3 <= self@.len() { 3 * k + 3 } else { self@.len() as int },
                    ),
            decreases self.len - start,
        {
            let end = if start + 3 <= self.len { start + 3 } else { self.len };
            let mut chunk: Vec<ClipVertex> = Vec::new();
            let mut i = start;
            while i < end
                invariant
                    self.len <= 12,
                    start <= i <= end,
                    end <= self.len,
                    chunk@ == self@.subrange(start as int, i as int),
                decreases end - i,
            {
                chunk.push(self.data[i]);
                i = i + 1;
                assert(chunk@ =~= self@.subrange(start as int, i as int));
            }
            let ghost before = r@;
            r.push(chunk);
            assert(r@[before.len() as int]@ == self@.subrange(start as int, end as int));
            start = end;
        }
        r
    }
}

/// What one vertex contributes when the polygon `vs` is clipped: with
/// `prev` the vertex before it (the last one before the first), both
/// inside keeps it; entering adds the crossing point, then it; leaving
/// adds the crossing point alone. `crossing[i]` is where the edge from
/// `prev` to `vs[i]` meets the plane.
pub open spec fn clip_step(vs: Seq<ClipVertex>, inside: Seq<bool>, crossing: Seq<ClipVertex>, i: int) -> Seq<ClipVertex> {
    let prev = (i + vs.len() - 1) % (vs.len() as int);
    if inside[i] && inside[prev] {
        seq![vs[i]]
    } else if inside[i] {
        seq![crossing[i], vs[i]]
    } else if inside[prev] {
        seq![crossing[i]]
    } else {
        Seq::empty()
    }
}

/// The contributions of the first `k` vertices.
pub open spec fn clip_prefix(vs: Seq<ClipVertex>, inside: Seq<bool>, crossing: Seq<ClipVertex>, k: int) -> Seq<ClipVertex>
    decreases k,
{
    if k <= 0 {
        Seq::empty()
    } else {
        clip_prefix(vs, inside, crossing, k - 1) + clip_step(vs, inside, crossing, k - 1)
    }
}

/// The polygon `vs` clipped against one plane (Sutherland-Hodgman), given
/// which vertices lie inside and where each edge crosses; fewer than three
/// vertices give nothing.
pub open spec fn clip_polygon(vs: Seq<ClipVertex>, inside: Seq<bool>, crossing: Seq<ClipVertex>) -> Seq<ClipVertex> {
    if vs.len() < 3 {
        Seq::empty()
    } else {
        clip_prefix(vs, inside, crossing, vs.len() as int)
    }
}

/// Clips the polygon `input` against one plane into `output`. `inside[i]`
/// tells whether vertex `i` lies inside the plane, and `crossing[i]` is
/// where the edge that ends at vertex `i` meets it.
pub fn clip_triangle_plane(input: &VertexBuffer, inside: &[bool], crossing: &[ClipVertex], output: &mut VertexBuffer)
    requires
        inside@.len() == input@.len(),
        crossing@.len() == input@.len(),
        clip_polygon(input@, inside@, crossing@).len() <= CAPACITY,
    ensures
        final(output)@ == clip_polygon(input@, inside@, crossing@),
{
    output.clear();
    let n = input.len();
    if n < 3 {
        return;
    }
    let ghost vs = input@;
    let ghost total = clip_polygon(input@, inside@, crossing@);
    let mut i: usize = 0;
    while i < n
        invariant
            n == vs.len(),
            vs == input@,
            3 <= n <= CAPACITY,
            i <= n,
            inside@.len() == n,
            crossing@.len() == n,
            total == clip_prefix(vs, inside@, crossing@, n as int),
            total.len() <= CAPACITY,
            output@ == clip_prefix(vs, inside@, crossing@, i as int),
        decreases n - i,
    {
        proof {
            lemma_clip_prefix_grows(vs, inside@, crossing@, i + 1, n as int);
        }
        let curr = input.get(i);
        let prev = input.get((i + n - 1) % n);
        let curr_in = inside[i];
        let prev_in = inside[(i + n - 1) % n];
        if curr_in && prev_in {
            output.push(curr);
        } else if curr_in && !prev_in {
            output.push(crossing[i]);
            output.push(curr);
        } else if !curr_in && prev_in {
            output.push(crossing[i]);
        }
        assert(output@ =~= clip_prefix(vs, inside@, crossing@, i + 1));
        i = i + 1;
    }
}

/// Whether clipping `input` with these flags yields at most `CAPACITY`
/// vertices, which `clip_triangle_plane` needs.
pub fn clip_fits(input: &VertexBuffer, inside: &[bool], crossing: &[ClipVertex]) -> (r: bool)
    requires
        inside@.len() == input@.len(),
        crossing@.len() == input@.len(),
    ensures
        r == (clip_polygon(input@, inside@, crossing@).len() <= CAPACITY),
{
    let n = input.len();
    if n < 3 {
        return true;
    }
    let mut count: usize = 0;
    let mut i: usize = 0;
    while i < n
        invariant
            3 <= n <= CAPACITY,
            n == input@.len(),
            i <= n,
            inside@.len() == n,
            crossing@.len() == n,
            count == clip_prefix(input@, inside@, crossing@, i as int).len(),
            count <= 2 * i,
        decreases n - i,
    {
        let curr_in = inside[i];
        let prev_in = inside[(i + n - 1) % n];
        if curr_in && prev_in {
            count = count + 1;
        } else if curr_in {
            count = count + 2;
        } else if prev_in {
            count = count + 1;
        }
        i = i + 1;
    }
    count <= CAPACITY
}

proof fn lemma_clip_prefix_grows(vs: Seq<ClipVertex>, inside: Seq<bool>, crossing: Seq<ClipVertex>, k: int, m: int)
    requires
        0 <= k <= m,
    ensures
        clip_prefix(vs, inside, crossing, k).len() <= clip_prefix(vs, inside, crossing, m).len(),
    decreases m - k,
{
    if k < m {
        lemma_clip_prefix_grows(vs, inside, crossing, k, m - 1);
    }
}

proof fn lemma_prefix_all_inside(vs: Seq<ClipVertex>, inside: Seq<bool>, crossing: Seq<ClipVertex>, k: int)
    requires
        0 <= k <= vs.len(),
        vs.len() >= 1,
        inside.len() == vs.len(),
        forall|i: int| 0 <= i < vs.len() ==> inside[i],
    ensures
        clip_prefix(vs, inside, crossing, k) == vs.take(k),
    decreases k,
{
    if k > 0 {
        lemma_prefix_all_inside(vs, inside, crossing, k - 1);
        let prev = (k - 1 + vs.len() - 1) % (vs.len() as int);
        assert(0 <= prev < vs.len());
        assert(vs.take(k) =~= vs.take(k - 1) + seq![vs[k - 1]]);
    } else {
        assert(vs.take(0) =~= Seq::<ClipVertex>::empty());
    }
}

proof fn lemma_prefix_all_outside(vs: Seq<ClipVertex>, inside: Seq<bool>, crossing: Seq<ClipVertex>, k: int)
    requires
        0 <= k <= vs.len(),
        vs.len() >= 1,
        inside.len() == vs.len(),
        forall|i: int| 0 <= i < vs.len() ==> !inside[i],
    ensures
        clip_prefix(vs, inside, crossing, k) == Seq::<ClipVertex>::empty(),
    decreases k,
{
    if k > 0 {
        lemma_prefix_all_outside(vs, inside, crossing, k - 1);
        let prev = (k - 1 + vs.len() - 1) % (vs.len() as int);
        assert(0 <= prev < vs.len());
        assert(clip_prefix(vs, inside, crossing, k) =~= Seq::<ClipVertex>::empty());
    }
}

proof fn lemma_prefix_len(vs: Seq<ClipVertex>, inside: Seq<bool>, crossing: Seq<ClipVertex>, k: int)
    requires
        0 <= k,
    ensures
        clip_prefix(vs, inside, crossing, k).len() <= 2 * k,
    decreases k,
{
    if k > 0 {
        lemma_prefix_len(vs, inside, crossing, k - 1);
    }
}

/// A polygon that lies wholly inside the plane comes through unchanged.
pub proof fn lemma_clip_inside_keeps(vs: Seq<ClipVertex>, inside: Seq<bool>, crossing: Seq<ClipVertex>)
    requires
        vs.len() >= 3,
        inside.len() == vs.len(),
        forall|i: int| 0 <= i < vs.len() ==> inside[i],
    ensures
        clip_polygon(vs, inside, crossing) == vs,
{
    lemma_prefix_all_inside(vs, inside, crossing, vs.len() as int);
    assert(vs.take(vs.len() as int) =~= vs);
}

/// A polygon that lies wholly outside the plane is clipped away.
pub proof fn lemma_clip_outside_empties(vs: Seq<ClipVertex>, inside: Seq<bool>, crossing: Seq<ClipVertex>)
    requires
        inside.len() == vs.len(),
        forall|i: int| 0 <= i < vs.len() ==> !inside[i],
    ensures
        clip_polygon(vs, inside, crossing) == Seq::<ClipVertex>::empty(),
{
    if vs.len() >= 3 {
        lemma_prefix_all_outside(vs, inside, crossing, vs.len() as int);
    }
}

/// Clipping at most doubles the number of vertices.
pub proof fn lemma_clip_at_most_doubles(vs: Seq<ClipVertex>, inside: Seq<bool>, crossing: Seq<ClipVertex>)
    ensures
        clip_polygon(vs, inside, crossing).len() <= 2 * vs.len(),
{
    lemma_prefix_len(vs, inside, crossing, vs.len() as int);
}

/// `s` with its first element moved to the end.
pub open spec fn rotate<T>(s: Seq<T>) -> Seq<T> {
    s.subrange(1, s.len() as int).push(s[0])
}

/// The contributions of vertices `a` up to `b`, `b` excluded.
spec fn clip_steps(vs: Seq<ClipVertex>, inside: Seq<bool>, crossing: Seq<ClipVertex>, a: int, b: int) -> Seq<ClipVertex>
    decreases b - a,
{
    if a >= b {
        Seq::empty()
    } else {
        clip_steps(vs, inside, crossing, a, b - 1) + clip_step(vs, inside, crossing, b - 1)
    }
}

proof fn lemma_prefix_is_steps(vs: Seq<ClipVertex>, inside: Seq<bool>, crossing: Seq<ClipVertex>, k: int)
    requires
        0 <= k,
    ensures
        clip_prefix(vs, inside, crossing, k) == clip_steps(vs, inside, crossing, 0, k),
    decreases k,
{
    if k > 0 {
        lemma_prefix_is_steps(vs, inside, crossing, k - 1);
    }
}

proof fn lemma_steps_split_first(vs: Seq<ClipVertex>, inside: Seq<bool>, crossing: Seq<ClipVertex>, a: int, b: int)
    requires
        a < b,
    ensures
        clip_steps(vs, inside, crossing, a, b) == clip_step(vs, inside, crossing, a) + clip_steps(vs, inside, crossing, a + 1, b),
    decreases b - a,
{
    if a + 1 == b {
        assert(clip_steps(vs, inside, crossing, a, a) =~= Seq::<ClipVertex>::empty());
        assert(clip_steps(vs, inside, crossing, a + 1, b) =~= Seq::<ClipVertex>::empty());
        assert(clip_steps(vs, inside, crossing, a, b) =~= clip_step(vs, inside, crossing, a) + Seq::<ClipVertex>::empty());
    } else {
        lemma_steps_split_first(vs, inside, crossing, a, b - 1);
        assert(clip_steps(vs, inside, crossing, a, b) =~= clip_step(vs, inside, crossing, a) + clip_steps(
            vs,
            inside,
            crossing,
            a + 1,
            b,
        ));
    }
}

proof fn lemma_rotated_step(vs: Seq<ClipVertex>, inside: Seq<bool>, crossing: Seq<ClipVertex>, i: int)
    requires
        vs.len() >= 3,
        inside.len() == vs.len(),
        crossing.len() == vs.len(),
        0 <= i < vs.len(),
    ensures
        clip_step(rotate(vs), rotate(inside), rotate(crossing), i) == clip_step(
            vs,
            inside,
            crossing,
            if i + 1 < vs.len() { i + 1 } else { 0 },
        ),
{
    let n = vs.len() as int;
    let j = if i + 1 < n { i + 1 } else { 0 };
    assert(rotate(vs).len() == n);
    assert((i + n - 1) % n == (if i > 0 { i - 1 } else { n - 1 })) by (nonlinear_arith)
        requires 0 <= i < n;
    assert((j + n - 1) % n == i) by (nonlinear_arith)
        requires 0 <= i < n, j == (if i + 1 < n { i + 1 } else { 0 });
    let p = if i > 0 { i - 1 } else { n - 1 };
    assert(rotate(inside)[i] == inside[j]);
    assert(rotate(inside)[p] == inside[i]);
    assert(rotate(vs)[i] == vs[j]);
    assert(rotate(crossing)[i] == crossing[j]);
}

proof fn lemma_rotated_steps(vs: Seq<ClipVertex>, inside: Seq<bool>, crossing: Seq<ClipVertex>, k: int)
    requires
        vs.len() >= 3,
        inside.len() == vs.len(),
        crossing.len() == vs.len(),
        0 <= k < vs.len(),
    ensures
        clip_steps(rotate(vs), rotate(inside), rotate(crossing), 0, k) == clip_steps(vs, inside, crossing, 1, k + 1),
    decreases k,
{
    if k > 0 {
        lemma_rotated_steps(vs, inside, crossing, k - 1);
        lemma_rotated_step(vs, inside, crossing, k - 1);
    } else {
        assert(clip_steps(vs, inside, crossing, 1, 1) =~= Seq::<ClipVertex>::empty());
    }
}

/// Clipping is cyclic: starting the polygon at its second vertex (moving
/// the first vertex, its flag and its crossing to the end) gives the same
/// clipped polygon, started at another point.
pub proof fn lemma_clip_rotation(vs: Seq<ClipVertex>, inside: Seq<bool>, crossing: Seq<ClipVertex>)
    requires
        vs.len() >= 3,
        inside.len() == vs.len(),
        crossing.len() == vs.len(),
    ensures
        exists|f: int|
            0 <= f <= clip_polygon(vs, inside, crossing).len() && clip_polygon(rotate(vs), rotate(inside), rotate(crossing))
                == clip_polygon(vs, inside, crossing).subrange(f, clip_polygon(vs, inside, crossing).len() as int)
                + clip_polygon(vs, inside, crossing).subrange(0, f),
{
    let n = vs.len() as int;
    let out = clip_polygon(vs, inside, crossing);
    let first = clip_step(vs, inside, crossing, 0);
    let rest = clip_steps(vs, inside, crossing, 1, n);
    lemma_prefix_is_steps(vs, inside, crossing, n);
    lemma_steps_split_first(vs, inside, crossing, 0, n);
    assert(out == first + rest);
    lemma_prefix_is_steps(rotate(vs), rotate(inside), rotate(crossing), n);
    lemma_rotated_steps(vs, inside, crossing, n - 1);
    lemma_rotated_step(vs, inside, crossing, n - 1);
    assert(rotate(vs).len() == n);
    let f = first.len() as int;
    assert(out.subrange(f, out.len() as int) =~= rest);
    assert(out.subrange(0, f) =~= first);
    assert(clip_polygon(rotate(vs), rotate(inside), rotate(crossing)) =~= rest + first);
}

/// The edge from the last vertex back to the first is clipped too: when
/// the first vertex is inside and the last is not, the clipped polygon
/// starts with that edge's crossing, then the first vertex; when the first
/// is outside and the last inside, it starts with that crossing alone.
pub proof fn lemma_clip_closing_edge(vs: Seq<ClipVertex>, inside: Seq<bool>, crossing: Seq<ClipVertex>)
    requires
        vs.len() >= 3,
        inside.len() == vs.len(),
        crossing.len() == vs.len(),
    ensures
        inside[0] && !inside[vs.len() - 1] ==> clip_polygon(vs, inside, crossing).len() >= 2 && clip_polygon(
            vs,
            inside,
            crossing,
        )[0] == crossing[0] && clip_polygon(vs, inside, crossing)[1] == vs[0],
        !inside[0] && inside[vs.len() - 1] ==> clip_polygon(vs, inside, crossing).len() >= 1 && clip_polygon(
            vs,
            inside,
            crossing,
        )[0] == crossing[0],
{
    let n = vs.len() as int;
    lemma_prefix_is_steps(vs, inside, crossing, n);
    lemma_steps_split_first(vs, inside, crossing, 0, n);
    assert((0 + n - 1) % n == n - 1) by (nonlinear_arith)
        requires n >= 3;
}

} // verus!
