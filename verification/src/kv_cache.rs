use vstd::prelude::*;
use crate::shape::{lemma_mul_le, lemma_mul_succ};
use crate::tensor::filled;

verus! {

/// `s` with `v` written over the positions `start .. start + v.len()`.
pub open spec fn splice<T>(s: Seq<T>, start: int, v: Seq<T>) -> Seq<T> {
    s.subrange(0, start) + v + s.subrange(start + v.len(), s.len() as int)
}

/// Where position `pos` of head `h` starts in a `[head][pos][dim]` arena whose
/// head blocks are `stride` elements long.
pub open spec fn slot_offset(h: int, pos: int, stride: int, head_dim: int) -> int {
    h * stride + pos * head_dim
}

/// The first `len` cached positions of head `h`: `len * head_dim` elements
/// from the start of the head's block.
pub open spec fn head_view<T>(data: Seq<T>, h: int, len: int, stride: int, head_dim: int) -> Seq<T> {
    data.subrange(h * stride, slot_offset(h, len, stride, head_dim))
}

/// The `head_dim` elements stored for head `h` at position `pos`.
pub open spec fn head_slot<T>(data: Seq<T>, h: int, pos: int, stride: int, head_dim: int) -> Seq<T> {
    data.subrange(slot_offset(h, pos, stride, head_dim), slot_offset(h, pos, stride, head_dim) + head_dim)
}

/// Key and value vectors of one transformer layer, kept in two flat arenas
/// laid out `[head][pos][dim]`, each head owning `max_seq_len * head_dim`
/// consecutive elements. `current_seq_len` counts the cached positions.
pub struct LayerKVCache<T> {
    pub k_data: Vec<T>,
    pub v_data: Vec<T>,
    pub num_heads: usize,
    pub head_dim: usize,
    pub max_seq_len: usize,
    pub current_seq_len: usize,
}

impl<T: Copy> LayerKVCache<T> {
    /// Elements one head's block spans: `max_seq_len * head_dim`.
    pub open spec fn stride(&self) -> int {
        self.max_seq_len * self.head_dim
    }

    /// Both arenas hold `num_heads * max_seq_len * head_dim` elements and at
    /// most `max_seq_len` positions are cached.
    pub open spec fn wf(&self) -> bool {
        &&& self.num_heads * self.max_seq_len <= usize::MAX
        &&& self.num_heads * self.max_seq_len * self.head_dim <= usize::MAX
        &&& self.k_data@.len() == self.num_heads * self.max_seq_len * self.head_dim
        &&& self.v_data@.len() == self.k_data@.len()
        &&& self.current_seq_len <= self.max_seq_len
    }

    /// The cached keys of head `h`, position after position.
    pub open spec fn k_view(&self, h: int) -> Seq<T> {
        head_view(self.k_data@, h, self.current_seq_len as int, self.stride(), self.head_dim as int)
    }

    /// The cached values of head `h`, position after position.
    pub open spec fn v_view(&self, h: int) -> Seq<T> {
        head_view(self.v_data@, h, self.current_seq_len as int, self.stride(), self.head_dim as int)
    }

    /// Where the next position of head `h` goes.
    pub open spec fn write_offset(&self, h: int) -> int {
        slot_offset(h, self.current_seq_len as int, self.stride(), self.head_dim as int)
    }

    /// An empty cache whose arenas are allocated up front and filled with `fill`.
    pub fn new(num_heads: usize, head_dim: usize, max_seq_len: usize, fill: T) -> (c: Self)
        requires
            num_heads * max_seq_len <= usize::MAX,
            num_heads * max_seq_len * head_dim <= usize::MAX,
        ensures
            c.wf(),
            c.num_heads == num_heads,
            c.head_dim == head_dim,
            c.max_seq_len == max_seq_len,
            c.current_seq_len == 0,
            c.k_data@ == Seq::new((num_heads * max_seq_len * head_dim) as nat, |i: int| fill),
            c.v_data@ == c.k_data@,
    {
        let total_size = num_heads * max_seq_len * head_dim;
        let k_data = filled(fill, total_size);
        let v_data = filled(fill, total_size);
        assert(v_data@ =~= k_data@);
        LayerKVCache { k_data, v_data, num_heads, head_dim, max_seq_len, current_seq_len: 0 }
    }

    /// How many positions are cached.
    pub fn seq_len(&self) -> (n: usize)
        ensures
            n == self.current_seq_len,
    {
        self.current_seq_len
    }

    /// Writes the key vector of head `h` into the slot of the next position,
    /// `h * max_seq_len * head_dim + current_seq_len * head_dim`, in place.
    /// The position count is left alone (see [`Self::increment_seq_len`]).
    pub fn push_k(&mut self, h: usize, vec: &[T])
        requires
            vec@.len() == old(self).head_dim,
            old(self).current_seq_len < old(self).max_seq_len,
            old(self).stride() <= usize::MAX,
            old(self).write_offset(h as int) + old(self).head_dim <= old(self).k_data@.len(),
        ensures
            old(self).wf() ==> final(self).wf(),
            final(self).k_data@ == splice(old(self).k_data@, old(self).write_offset(h as int), vec@),
            final(self).v_data@ == old(self).v_data@,
            final(self).num_heads == old(self).num_heads,
            final(self).head_dim == old(self).head_dim,
            final(self).max_seq_len == old(self).max_seq_len,
            final(self).current_seq_len == old(self).current_seq_len,
    {
        let _len = self.k_data.len();
        let write_start = self.write_start(h);
        write_range(&mut self.k_data, write_start, vec);
    }

    /// Writes the value vector of head `h` into the slot of the next position;
    /// the counterpart of [`Self::push_k`] for the value arena.
    pub fn push_v(&mut self, h: usize, vec: &[T])
        requires
            vec@.len() == old(self).head_dim,
            old(self).current_seq_len < old(self).max_seq_len,
            old(self).stride() <= usize::MAX,
            old(self).write_offset(h as int) + old(self).head_dim <= old(self).v_data@.len(),
        ensures
            old(self).wf() ==> final(self).wf(),
            final(self).v_data@ == splice(old(self).v_data@, old(self).write_offset(h as int), vec@),
            final(self).k_data@ == old(self).k_data@,
            final(self).num_heads == old(self).num_heads,
            final(self).head_dim == old(self).head_dim,
            final(self).max_seq_len == old(self).max_seq_len,
            final(self).current_seq_len == old(self).current_seq_len,
    {
        let _len = self.v_data.len();
        let write_start = self.write_start(h);
        write_range(&mut self.v_data, write_start, vec);
    }

    fn write_start(&self, h: usize) -> (ws: usize)
        requires
            self.stride() <= usize::MAX,
            self.write_offset(h as int) <= usize::MAX,
        ensures
            ws == self.write_offset(h as int),
    {
        proof {
            lemma_offset_parts_nonneg(self.max_seq_len as int, self.head_dim as int, h as int, self.current_seq_len as int);
        }
        let head_offset = h * (self.max_seq_len * self.head_dim);
        head_offset + self.current_seq_len * self.head_dim
    }

    /// Counts one more cached position, unless the cache is already full.
    pub fn increment_seq_len(&mut self)
        ensures
            old(self).wf() ==> final(self).wf(),
            final(self).current_seq_len == if old(self).current_seq_len < old(self).max_seq_len {
                old(self).current_seq_len + 1
            } else {
                old(self).current_seq_len as int
            },
            final(self).k_data@ == old(self).k_data@,
            final(self).v_data@ == old(self).v_data@,
            final(self).num_heads == old(self).num_heads,
            final(self).head_dim == old(self).head_dim,
            final(self).max_seq_len == old(self).max_seq_len,
    {
        if self.current_seq_len < self.max_seq_len {
            self.current_seq_len = self.current_seq_len + 1;
        }
    }

    /// All cached keys of head `h`: `current_seq_len * head_dim` elements.
    pub fn k_slice(&self, h: usize) -> (s: &[T])
        requires
            self.stride() <= usize::MAX,
            slot_offset(h as int, self.current_seq_len as int, self.stride(), self.head_dim as int)
                <= self.k_data@.len(),
        ensures
            s@ == self.k_view(h as int),
    {
        let _len = self.k_data.len();
        let (start, end) = self.active_range(h);
        vstd::slice::slice_subrange(self.k_data.as_slice(), start, end)
    }

    /// All cached values of head `h`: `current_seq_len * head_dim` elements.
    pub fn v_slice(&self, h: usize) -> (s: &[T])
        requires
            self.stride() <= usize::MAX,
            slot_offset(h as int, self.current_seq_len as int, self.stride(), self.head_dim as int)
                <= self.v_data@.len(),
        ensures
            s@ == self.v_view(h as int),
    {
        let _len = self.v_data.len();
        let (start, end) = self.active_range(h);
        vstd::slice::slice_subrange(self.v_data.as_slice(), start, end)
    }

    fn active_range(&self, h: usize) -> (r: (usize, usize))
        requires
            self.stride() <= usize::MAX,
            slot_offset(h as int, self.current_seq_len as int, self.stride(), self.head_dim as int)
                <= usize::MAX,
        ensures
            r.0 == h * self.stride(),
            r.1 == slot_offset(h as int, self.current_seq_len as int, self.stride(), self.head_dim as int),
            r.0 <= r.1,
    {
        proof {
            lemma_offset_parts_nonneg(self.max_seq_len as int, self.head_dim as int, h as int, self.current_seq_len as int);
        }
        let head_offset = h * (self.max_seq_len * self.head_dim);
        let active_length = self.current_seq_len * self.head_dim;
        (head_offset, head_offset + active_length)
    }

    /// Forgets every cached position in O(1); the arenas keep their contents
    /// and are overwritten by later pushes.
    pub fn clear(&mut self)
        ensures
            old(self).wf() ==> final(self).wf(),
            final(self).current_seq_len == 0,
            final(self).k_data@ == old(self).k_data@,
            final(self).v_data@ == old(self).v_data@,
            final(self).num_heads == old(self).num_heads,
            final(self).head_dim == old(self).head_dim,
            final(self).max_seq_len == old(self).max_seq_len,
    {
        self.current_seq_len = 0;
    }
}

/// Copies `vec` over `data[start .. start + vec.len()]`.
fn write_range<T: Copy>(data: &mut Vec<T>, start: usize, vec: &[T])
    requires
        start + vec@.len() <= old(data)@.len(),
    ensures
        final(data)@ == splice(old(data)@, start as int, vec@),
{
    let ghost initial = data@;
    let n = data.len();
    let mut i: usize = 0;
    while i < vec.len()
        invariant
            start + vec@.len() <= initial.len(),
            data@.len() == initial.len(),
            n == initial.len(),
            i <= vec@.len(),
            forall|j: int|
                0 <= j < initial.len() ==> #[trigger] data@[j] == if start <= j < start + i {
                    vec@[j - start]
                } else {
                    initial[j]
                },
        decreases vec@.len() - i,
    {
        data[start + i] = vec[i];
        i = i + 1;
    }
    assert(data@ =~= splice(initial, start as int, vec@));
}

/// A well-formed cache with at least one head has head blocks whose length
/// fits in a `usize`.
pub proof fn lemma_wf_stride_fits<T: Copy>(c: LayerKVCache<T>)
    requires
        c.wf(),
        c.num_heads > 0,
    ensures
        c.stride() <= usize::MAX,
{
    assert(c.max_seq_len * c.head_dim <= c.num_heads * c.max_seq_len * c.head_dim) by (nonlinear_arith)
        requires
            1 <= c.num_heads,
            0 <= c.max_seq_len,
            0 <= c.head_dim,
    ;
}

/// The two terms of a slot's address, `h * (max_seq_len * head_dim)` and
/// `pos * head_dim`, are non-negative.
proof fn lemma_offset_parts_nonneg(max_seq_len: int, head_dim: int, h: int, pos: int)
    requires
        0 <= max_seq_len,
        0 <= head_dim,
        0 <= h,
        0 <= pos,
    ensures
        0 <= max_seq_len * head_dim,
        0 <= h * (max_seq_len * head_dim),
        0 <= pos * head_dim,
{
    assert(0 <= max_seq_len * head_dim && 0 <= h * (max_seq_len * head_dim) && 0 <= pos * head_dim)
        by (nonlinear_arith)
        requires
            0 <= max_seq_len,
            0 <= head_dim,
            0 <= h,
            0 <= pos,
    ;
}

/// The slot of position `pos < max_seq_len` of head `h` lies inside the head's
/// block, so every other head's block is out of its way.
proof fn lemma_slot_within_block(max_seq_len: int, head_dim: int, h: int, g: int, pos: int)
    requires
        0 <= head_dim,
        0 <= pos < max_seq_len,
        0 <= h,
        0 <= g,
    ensures
        0 <= pos * head_dim,
        pos * head_dim + head_dim <= max_seq_len * head_dim,
        0 <= h * (max_seq_len * head_dim),
        h < g ==> h * (max_seq_len * head_dim) + max_seq_len * head_dim <= g * (max_seq_len * head_dim),
        h <= g ==> h * (max_seq_len * head_dim) <= g * (max_seq_len * head_dim),
{
    lemma_mul_succ(pos, head_dim);
    lemma_mul_le(pos + 1, max_seq_len, head_dim);
    let stride = max_seq_len * head_dim;
    assert(0 <= max_seq_len * head_dim) by (nonlinear_arith)
        requires
            0 <= max_seq_len,
            0 <= head_dim,
    ;
    lemma_mul_succ(h, stride);
    lemma_mul_le(0, h, stride);
    if h <= g {
        lemma_mul_le(h, g, stride);
    }
    if h < g {
        lemma_mul_le(h + 1, g, stride);
    }
}

/// The slot of position `pos < max_seq_len` of head `h < num_heads` lies
/// inside an arena of `num_heads * max_seq_len * head_dim` elements.
pub proof fn lemma_slot_in_arena(num_heads: int, max_seq_len: int, head_dim: int, h: int, pos: int)
    requires
        0 <= head_dim,
        0 <= pos < max_seq_len,
        0 <= h < num_heads,
    ensures
        0 <= slot_offset(h, pos, max_seq_len * head_dim, head_dim),
        slot_offset(h, pos, max_seq_len * head_dim, head_dim) + head_dim <= num_heads * max_seq_len * head_dim,
        h * (max_seq_len * head_dim) + (pos + 1) * head_dim <= num_heads * max_seq_len * head_dim,
{
    lemma_slot_within_block(max_seq_len, head_dim, h, num_heads, pos);
    lemma_mul_succ(pos, head_dim);
    assert(num_heads * max_seq_len * head_dim == num_heads * (max_seq_len * head_dim)) by (nonlinear_arith);
}

/// Writing `v` over the slot of position `pos` of head `h` (as `push_k` and
/// `push_v` do) puts `v` in that slot and leaves every head's first `pos`
/// positions, and every other head's slot at `pos`, as they were.
pub proof fn lemma_push_keeps_other_slots<T>(
    data: Seq<T>,
    v: Seq<T>,
    num_heads: int,
    max_seq_len: int,
    head_dim: int,
    pos: int,
    h: int,
)
    requires
        0 <= head_dim,
        0 <= pos < max_seq_len,
        0 <= h < num_heads,
        v.len() == head_dim,
        data.len() == num_heads * max_seq_len * head_dim,
    ensures
        ({
            let stride = max_seq_len * head_dim;
            let new = splice(data, slot_offset(h, pos, stride, head_dim), v);
            &&& new.len() == data.len()
            &&& head_slot(new, h, pos, stride, head_dim) == v
            &&& forall|g: int|
                0 <= g < num_heads ==> #[trigger] head_view(new, g, pos, stride, head_dim) == head_view(
                    data,
                    g,
                    pos,
                    stride,
                    head_dim,
                )
            &&& forall|g: int|
                0 <= g < num_heads && g != h ==> #[trigger] head_slot(new, g, pos, stride, head_dim)
                    == head_slot(data, g, pos, stride, head_dim)
        }),
{
    let stride = max_seq_len * head_dim;
    let ws = slot_offset(h, pos, stride, head_dim);
    lemma_slot_within_block(max_seq_len, head_dim, h, num_heads, pos);
    assert(num_heads * max_seq_len * head_dim == num_heads * (max_seq_len * head_dim)) by (nonlinear_arith);
    let new = splice(data, ws, v);
    assert(new.len() == data.len());
    assert(head_slot(new, h, pos, stride, head_dim) =~= v);
    assert forall|g: int| 0 <= g < num_heads implies #[trigger] head_view(new, g, pos, stride, head_dim)
        == head_view(data, g, pos, stride, head_dim) by {
        lemma_slot_within_block(max_seq_len, head_dim, h, g, pos);
        lemma_slot_within_block(max_seq_len, head_dim, g, h, pos);
        lemma_slot_within_block(max_seq_len, head_dim, g, num_heads, pos);
        assert(head_view(new, g, pos, stride, head_dim) =~= head_view(data, g, pos, stride, head_dim));
    }
    assert forall|g: int| 0 <= g < num_heads && g != h implies #[trigger] head_slot(
        new,
        g,
        pos,
        stride,
        head_dim,
    ) == head_slot(data, g, pos, stride, head_dim) by {
        lemma_slot_within_block(max_seq_len, head_dim, h, g, pos);
        lemma_slot_within_block(max_seq_len, head_dim, g, h, pos);
        lemma_slot_within_block(max_seq_len, head_dim, g, num_heads, pos);
        assert(head_slot(new, g, pos, stride, head_dim) =~= head_slot(data, g, pos, stride, head_dim));
    }
}

/// Counting one more position extends a head's cached sequence by exactly the
/// slot at the old position.
pub proof fn lemma_view_grows_by_slot<T>(data: Seq<T>, g: int, pos: int, max_seq_len: int, head_dim: int)
    requires
        0 <= head_dim,
        0 <= g,
        0 <= pos < max_seq_len,
        g * (max_seq_len * head_dim) + (pos + 1) * head_dim <= data.len(),
    ensures
        head_view(data, g, pos + 1, max_seq_len * head_dim, head_dim) == head_view(
            data,
            g,
            pos,
            max_seq_len * head_dim,
            head_dim,
        ) + head_slot(data, g, pos, max_seq_len * head_dim, head_dim),
{
    lemma_slot_within_block(max_seq_len, head_dim, g, g, pos);
    lemma_mul_succ(pos, head_dim);
    assert(head_view(data, g, pos + 1, max_seq_len * head_dim, head_dim) =~= head_view(
        data,
        g,
        pos,
        max_seq_len * head_dim,
        head_dim,
    ) + head_slot(data, g, pos, max_seq_len * head_dim, head_dim));
}


/// One [`LayerKVCache`] per transformer block.
pub struct KVCache<T> {
    pub layers: Vec<LayerKVCache<T>>,
}

/// `c` is an empty, well-formed layer cache of the given geometry whose
/// arenas hold nothing but `fill`.
pub open spec fn is_fresh_layer<T: Copy>(
    c: LayerKVCache<T>,
    num_heads: usize,
    head_dim: usize,
    max_seq_len: usize,
    fill: T,
) -> bool {
    &&& c.wf()
    &&& c.num_heads == num_heads
    &&& c.head_dim == head_dim
    &&& c.max_seq_len == max_seq_len
    &&& c.current_seq_len == 0
    &&& c.k_data@ == Seq::new((num_heads * max_seq_len * head_dim) as nat, |i: int| fill)
    &&& c.v_data@ == c.k_data@
}

impl<T: Copy> KVCache<T> {
    /// `num_layers` empty layer caches of the same geometry.
    pub fn new(num_layers: usize, num_heads: usize, head_dim: usize, max_seq_len: usize, fill: T) -> (c: Self)
        requires
            num_heads * max_seq_len <= usize::MAX,
            num_heads * max_seq_len * head_dim <= usize::MAX,
        ensures
            c.layers@.len() == num_layers,
            forall|i: int|
                0 <= i < num_layers ==> is_fresh_layer(
                    #[trigger] c.layers@[i],
                    num_heads,
                    head_dim,
                    max_seq_len,
                    fill,
                ),
    {
        let mut layers: Vec<LayerKVCache<T>> = Vec::with_capacity(num_layers);
        let mut i: usize = 0;
        while i < num_layers
            invariant
                num_heads * max_seq_len <= usize::MAX,
                num_heads * max_seq_len * head_dim <= usize::MAX,
                i <= num_layers,
                layers@.len() == i,
                forall|k: int|
                    0 <= k < i ==> is_fresh_layer(#[trigger] layers@[k], num_heads, head_dim, max_seq_len, fill),
            decreases num_layers - i,
        {
            layers.push(LayerKVCache::new(num_heads, head_dim, max_seq_len, fill));
            i = i + 1;
        }
        KVCache { layers }
    }

    /// Clears every layer's cache (see [`LayerKVCache::clear`]).
    pub fn clear(&mut self)
        ensures
            final(self).layers@.len() == old(self).layers@.len(),
            forall|i: int|
                0 <= i < final(self).layers@.len() ==> {
                    let before = old(self).layers@[i];
                    let after = #[trigger] final(self).layers@[i];
                    &&& before.wf() ==> after.wf()
                    &&& after.current_seq_len == 0
                    &&& after.k_data@ == before.k_data@
                    &&& after.v_data@ == before.v_data@
                    &&& after.num_heads == before.num_heads
                    &&& after.head_dim == before.head_dim
                    &&& after.max_seq_len == before.max_seq_len
                },
    {
        let ghost initial = self.layers@;
        let mut i: usize = 0;
        while i < self.layers.len()
            invariant
                self.layers@.len() == initial.len(),
                i <= initial.len(),
                forall|k: int| i <= k < initial.len() ==> #[trigger] self.layers@[k] == initial[k],
                forall|k: int|
                    0 <= k < i ==> {
                        let before = initial[k];
                        let after = #[trigger] self.layers@[k];
                        &&& before.wf() ==> after.wf()
                        &&& after.current_seq_len == 0
                        &&& after.k_data@ == before.k_data@
                        &&& after.v_data@ == before.v_data@
                        &&& after.num_heads == before.num_heads
                        &&& after.head_dim == before.head_dim
                        &&& after.max_seq_len == before.max_seq_len
                    },
            decreases initial.len() - i,
        {
            self.layers[i].clear();
            i = i + 1;
        }
    }
}


/// A cleared cache reads back nothing: with no position counted, every
/// head's cached keys and values are empty, whatever the arenas still hold.
pub proof fn lemma_cleared_views_empty<T: Copy>(c: LayerKVCache<T>, h: int)
    requires
        c.wf(),
        c.current_seq_len == 0,
        0 <= h < c.num_heads,
    ensures
        c.k_view(h) == Seq::<T>::empty(),
        c.v_view(h) == Seq::<T>::empty(),
{
    assert(0 * c.head_dim == 0);
    assert(0 <= c.max_seq_len * c.head_dim) by (nonlinear_arith)
        requires
            0 <= c.max_seq_len,
            0 <= c.head_dim,
    ;
    lemma_mul_le(h, c.num_heads as int, c.stride());
    lemma_mul_le(0, h, c.stride());
    assert(c.num_heads * c.max_seq_len * c.head_dim == c.num_heads * (c.max_seq_len * c.head_dim)) by (nonlinear_arith);
    assert(c.k_view(h) =~= Seq::<T>::empty());
    assert(c.v_view(h) =~= Seq::<T>::empty());
}

} // verus!
