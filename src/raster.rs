//! Depth ordering and the raster write of one frame.
//!
//! A transformed point reaches this module as a [`Sample`]: its screen
//! position rounded down to whole pixels, the IEEE-754 single-precision bit
//! pattern of its normalized depth, and its gray intensity. Points are drawn
//! farthest first (larger depth first, in the IEEE total order), so that a
//! nearer point drawn later at the same pixel overwrites a farther one; there
//! is no depth buffer.
use vstd::prelude::*;
use vstd::seq_lib::lemma_multiset_commutative;

verus! {

broadcast use vstd::seq_lib::group_to_multiset_ensures;

/// Whether the depth bit pattern `b` has its sign bit set.
pub open spec fn sign_set(b: u32) -> bool {
    b >= 0x8000_0000u32
}

/// The IEEE-754 total order on single-precision bit patterns: negative
/// values (sign bit set) come before non-negative ones, a larger magnitude
/// is smaller among negatives and larger among non-negatives.
pub open spec fn total_le(a: u32, b: u32) -> bool {
    if sign_set(a) && sign_set(b) {
        a >= b
    } else if sign_set(a) {
        true
    } else if sign_set(b) {
        false
    } else {
        a <= b
    }
}

pub open spec fn depth_key_spec(b: u32) -> u32 {
    if sign_set(b) {
        !b
    } else {
        b | 0x8000_0000u32
    }
}

/// A key whose unsigned order is the total order of the depth bit patterns.
pub fn depth_key(bits: u32) -> (r: u32)
    ensures
        r == depth_key_spec(bits),
{
    if bits >= 0x8000_0000u32 {
        !bits
    } else {
        bits | 0x8000_0000u32
    }
}

/// Comparing two keys is comparing the two depths in the total order.
pub proof fn lemma_depth_key_order(a: u32, b: u32)
    ensures
        (depth_key_spec(a) <= depth_key_spec(b)) == total_le(a, b),
        (depth_key_spec(a) == depth_key_spec(b)) == (a == b),
{
    assert((a >= 0x8000_0000u32 && b >= 0x8000_0000u32) ==> ((!a <= !b) == (a >= b) && (!a == !b) == (a == b))) by (bit_vector);
    assert((a >= 0x8000_0000u32 && b < 0x8000_0000u32) ==> (!a < (b | 0x8000_0000u32))) by (bit_vector);
    assert((a < 0x8000_0000u32 && b >= 0x8000_0000u32) ==> ((a | 0x8000_0000u32) > !b)) by (bit_vector);
    assert((a < 0x8000_0000u32 && b < 0x8000_0000u32) ==> (((a | 0x8000_0000u32) <= (b | 0x8000_0000u32)) == (a <= b) && ((a | 0x8000_0000u32) == (b | 0x8000_0000u32)) == (a == b))) by (bit_vector);
}

/// The bit patterns of the single-precision values `z` with `0 <= z < 1`:
/// positive zero up to the largest value below one, and negative zero.
pub open spec fn depth_in_range_spec(b: u32) -> bool {
    b < 0x3F80_0000u32 || b == 0x8000_0000u32
}

/// Whether a depth lies in the drawable range `[0, 1)`.
pub fn depth_in_range(bits: u32) -> (r: bool)
    ensures
        r == depth_in_range_spec(bits),
{
    bits < 0x3F80_0000u32 || bits == 0x8000_0000u32
}

/// An opaque gray pixel: the same intensity in the blue, green and red
/// bytes, from the low byte up, and zero in the top byte.
pub open spec fn gray_spec(intensity: u8) -> u32 {
    let i = intensity as u32;
    i | (i << 8u32) | (i << 16u32)
}

pub fn gray(intensity: u8) -> (r: u32)
    ensures
        r == gray_spec(intensity),
        r & 0xFFu32 == intensity as u32,
        (r >> 8u32) & 0xFFu32 == intensity as u32,
        (r >> 16u32) & 0xFFu32 == intensity as u32,
        r >> 24u32 == 0,
{
    let i = intensity as u32;
    let g = i | (i << 8u32) | (i << 16u32);
    assert(i <= 255 ==> (g & 0xFFu32 == i && (g >> 8u32) & 0xFFu32 == i && (g >> 16u32) & 0xFFu32 == i && g >> 24u32 == 0)) by (bit_vector)
        requires g == i | (i << 8u32) | (i << 16u32);
    g
}

/// One transformed point, ready to be drawn.
#[derive(Clone, Copy, Debug, PartialEq, Eq)]
pub struct Sample {
    /// Column, rounded down.
    pub x: i64,
    /// Row, rounded down.
    pub y: i64,
    /// Bit pattern of the normalized depth.
    pub depth: u32,
    /// Gray level written for this point.
    pub intensity: u8,
}

/// Whether `s` is drawn into a `width` by `height` buffer: its pixel lies
/// inside and its depth lies in `[0, 1)`.
pub open spec fn visible(s: Sample, width: int, height: int) -> bool {
    &&& 0 <= s.x < width
    &&& 0 <= s.y < height
    &&& depth_in_range_spec(s.depth)
}

/// The row-major cell of `s`'s pixel.
pub open spec fn cell(s: Sample, width: int) -> int {
    s.y * width + s.x
}

/// The buffer after the samples have been drawn in the order `order`:
/// each visible one overwrites its cell with its gray.
pub open spec fn painted(
    buf: Seq<u32>,
    width: int,
    height: int,
    samples: Seq<Sample>,
    order: Seq<usize>,
) -> Seq<u32>
    decreases order.len(),
{
    if order.len() == 0 {
        buf
    } else {
        let prev = painted(buf, width, height, samples, order.drop_last());
        let s = samples[order.last() as int];
        if visible(s, width, height) {
            prev.update(cell(s, width), gray_spec(s.intensity))
        } else {
            prev
        }
    }
}

/// The indices `lo, lo + 1, .., hi - 1`.
pub open spec fn span(lo: int, hi: int) -> Seq<usize> {
    Seq::new((hi - lo) as nat, |i: int| (lo + i) as usize)
}

/// `order` lists the indices of the keys by key, largest first.
pub open spec fn sorted_by_key_desc(keys: Seq<u32>, order: Seq<usize>) -> bool {
    &&& forall|k: int| 0 <= k < order.len() ==> (#[trigger] order[k]) < keys.len()
    &&& forall|i: int, j: int|
        0 <= i < j < order.len() ==> keys[#[trigger] order[i] as int] >= keys[#[trigger] order[j] as int]
}

/// `order` holds each index below `n` exactly once.
pub open spec fn is_index_permutation(order: Seq<usize>, n: nat) -> bool {
    order.to_multiset() == span(0, n as int).to_multiset()
}

/// A drawing order for keys: every index once, largest key first.
pub open spec fn is_depth_order(keys: Seq<u32>, order: Seq<usize>) -> bool {
    &&& is_index_permutation(order, keys.len())
    &&& sorted_by_key_desc(keys, order)
}

/// Drawing in a depth order visits the samples with depths that never rise
/// in the total order: each sample is drawn after every farther one.
pub proof fn lemma_depth_order_monotonic(samples: Seq<Sample>, order: Seq<usize>)
    requires
        is_depth_order(depth_keys(samples), order),
    ensures
        forall|i: int, j: int|
            0 <= i < j < order.len() ==> total_le(
                samples[#[trigger] order[j] as int].depth,
                samples[#[trigger] order[i] as int].depth,
            ),
{
    let keys = depth_keys(samples);
    assert forall|i: int, j: int| 0 <= i < j < order.len() implies total_le(
        samples[#[trigger] order[j] as int].depth,
        samples[#[trigger] order[i] as int].depth,
    ) by {
        assert(order[i] < keys.len() && order[j] < keys.len());
        assert(keys[order[i] as int] >= keys[order[j] as int]);
        lemma_depth_key_order(samples[order[j] as int].depth, samples[order[i] as int].depth);
    }
}

fn merge(keys: &Vec<u32>, a: Vec<usize>, b: Vec<usize>) -> (r: Vec<usize>)
    requires
        sorted_by_key_desc(keys@, a@),
        sorted_by_key_desc(keys@, b@),
        a@.len() + b@.len() <= usize::MAX,
    ensures
        sorted_by_key_desc(keys@, r@),
        r@.to_multiset() == a@.to_multiset().add(b@.to_multiset()),
        r@.len() == a@.len() + b@.len(),
{
    let mut r: Vec<usize> = Vec::with_capacity(a.len() + b.len());
    let mut i: usize = 0;
    let mut j: usize = 0;
    assert(a@.take(0) =~= Seq::<usize>::empty());
    assert(b@.take(0) =~= Seq::<usize>::empty());
    assert(r@.to_multiset() =~= a@.take(0).to_multiset().add(b@.take(0).to_multiset()));
    while i < a.len() || j < b.len()
        invariant
            i <= a@.len(),
            j <= b@.len(),
            r@.len() == i + j,
            sorted_by_key_desc(keys@, a@),
            sorted_by_key_desc(keys@, b@),
            sorted_by_key_desc(keys@, r@),
            r@.to_multiset() == a@.take(i as int).to_multiset().add(b@.take(j as int).to_multiset()),
            r@.len() > 0 && i < a@.len() ==> keys@[r@.last() as int] >= keys@[a@[i as int] as int],
            r@.len() > 0 && j < b@.len() ==> keys@[r@.last() as int] >= keys@[b@[j as int] as int],
        decreases a@.len() + b@.len() - i - j,
    {
        let take_a = j >= b.len() || (i < a.len() && keys[a[i]] >= keys[b[j]]);
        if take_a {
            let x = a[i];
            assert(a@.take(i + 1) =~= a@.take(i as int).push(x));
            r.push(x);
            i = i + 1;
            assert(r@.to_multiset() =~= a@.take(i as int).to_multiset().add(b@.take(j as int).to_multiset()));
        } else {
            let x = b[j];
            assert(b@.take(j + 1) =~= b@.take(j as int).push(x));
            r.push(x);
            j = j + 1;
            assert(r@.to_multiset() =~= a@.take(i as int).to_multiset().add(b@.take(j as int).to_multiset()));
        }
    }
    assert(a@.take(a@.len() as int) =~= a@);
    assert(b@.take(b@.len() as int) =~= b@);
    r
}

fn sort_span(keys: &Vec<u32>, lo: usize, hi: usize) -> (r: Vec<usize>)
    requires
        lo <= hi <= keys@.len(),
    ensures
        sorted_by_key_desc(keys@, r@),
        r@.to_multiset() == span(lo as int, hi as int).to_multiset(),
        r@.len() == hi - lo,
    decreases hi - lo,
{
    if hi - lo <= 1 {
        let mut r: Vec<usize> = Vec::new();
        if hi > lo {
            r.push(lo);
            assert(r@ =~= span(lo as int, hi as int));
        } else {
            assert(r@ =~= span(lo as int, hi as int));
        }
        r
    } else {
        let mid = lo + (hi - lo) / 2;
        let a = sort_span(keys, lo, mid);
        let b = sort_span(keys, mid, hi);
        proof {
            assert(span(lo as int, mid as int) + span(mid as int, hi as int) =~= span(lo as int, hi as int));
            lemma_multiset_commutative(span(lo as int, mid as int), span(mid as int, hi as int));
        }
        merge(keys, a, b)
    }
}

/// The order in which samples with these depth keys are drawn: every index
/// once, largest key (farthest) first. Equal keys may come in either order.
pub fn depth_order(keys: &Vec<u32>) -> (r: Vec<usize>)
    ensures
        is_depth_order(keys@, r@),
        r@.len() == keys@.len(),
{
    sort_span(keys, 0, keys.len())
}

/// The depth keys of the samples, in sample order.
pub open spec fn depth_keys(samples: Seq<Sample>) -> Seq<u32> {
    samples.map_values(|s: Sample| depth_key_spec(s.depth))
}

/// Whether `s` is drawn at cell `c`.
pub open spec fn lands(s: Sample, c: int, width: int, height: int) -> bool {
    visible(s, width, height) && cell(s, width) == c
}

proof fn lemma_cell_in_buffer(s: Sample, width: int, height: int)
    requires
        visible(s, width, height),
    ensures
        0 <= cell(s, width) < width * height,
{
    assert(0 <= s.y * width + s.x < width * height) by (nonlinear_arith)
        requires 0 <= s.x < width, 0 <= s.y < height;
}

/// Drawing keeps the size of the buffer.
pub proof fn lemma_painted_len(
    buf: Seq<u32>,
    width: int,
    height: int,
    samples: Seq<Sample>,
    order: Seq<usize>,
)
    requires
        buf.len() == width * height,
    ensures
        painted(buf, width, height, samples, order).len() == buf.len(),
    decreases order.len(),
{
    if order.len() > 0 {
        lemma_painted_len(buf, width, height, samples, order.drop_last());
        let s = samples[order.last() as int];
        if visible(s, width, height) {
            lemma_cell_in_buffer(s, width, height);
        }
    }
}

/// A cell that no visible sample lands on keeps its old value.
pub proof fn lemma_untouched_cell(
    buf: Seq<u32>,
    width: int,
    height: int,
    samples: Seq<Sample>,
    order: Seq<usize>,
    c: int,
)
    requires
        buf.len() == width * height,
        0 <= c < buf.len(),
        forall|k: int| 0 <= k < order.len() ==> !lands(samples[#[trigger] order[k] as int], c, width, height),
    ensures
        painted(buf, width, height, samples, order)[c] == buf[c],
    decreases order.len(),
{
    if order.len() > 0 {
        let prev = order.drop_last();
        assert forall|k: int| 0 <= k < prev.len() implies !lands(samples[#[trigger] prev[k] as int], c, width, height) by {
            assert(prev[k] == order[k]);
        }
        lemma_untouched_cell(buf, width, height, samples, prev, c);
        lemma_painted_len(buf, width, height, samples, prev);
        assert(!lands(samples[order[order.len() - 1] as int], c, width, height));
        if visible(samples[order.last() as int], width, height) {
            lemma_cell_in_buffer(samples[order.last() as int], width, height);
        }
    }
}

/// A cell that some visible sample lands on holds the gray of the last such
/// sample in drawing order.
proof fn lemma_last_writer(
    buf: Seq<u32>,
    width: int,
    height: int,
    samples: Seq<Sample>,
    order: Seq<usize>,
    c: int,
    m: int,
)
    requires
        buf.len() == width * height,
        0 <= m < order.len(),
        lands(samples[order[m] as int], c, width, height),
        forall|k: int| m < k < order.len() ==> !lands(samples[#[trigger] order[k] as int], c, width, height),
    ensures
        painted(buf, width, height, samples, order)[c] == gray_spec(samples[order[m] as int].intensity),
    decreases order.len(),
{
    let prev = order.drop_last();
    lemma_painted_len(buf, width, height, samples, prev);
    lemma_cell_in_buffer(samples[order[m] as int], width, height);
    if m < order.len() - 1 {
        assert forall|k: int| m < k < prev.len() implies !lands(samples[#[trigger] prev[k] as int], c, width, height) by {
            assert(prev[k] == order[k]);
        }
        lemma_last_writer(buf, width, height, samples, prev, c, m);
        assert(!lands(samples[order[order.len() - 1] as int], c, width, height));
        if visible(samples[order.last() as int], width, height) {
            lemma_cell_in_buffer(samples[order.last() as int], width, height);
        }
    }
}

/// Painter's order: after drawing in a depth order, a cell that no visible
/// sample lands on is unchanged, and any other cell holds the gray of a
/// visible sample landing there whose depth key is the smallest (the nearest)
/// among all visible samples landing there.
pub proof fn lemma_nearest_wins(
    buf: Seq<u32>,
    width: int,
    height: int,
    samples: Seq<Sample>,
    order: Seq<usize>,
    c: int,
)
    requires
        buf.len() == width * height,
        0 <= c < buf.len(),
        samples.len() <= usize::MAX,
        is_depth_order(depth_keys(samples), order),
    ensures
        (forall|u: int| 0 <= u < samples.len() ==> !lands(#[trigger] samples[u], c, width, height))
            ==> painted(buf, width, height, samples, order)[c] == buf[c],
        (exists|u: int| 0 <= u < samples.len() && lands(#[trigger] samples[u], c, width, height))
            ==> exists|t: int|
            0 <= t < samples.len() && lands(#[trigger] samples[t], c, width, height) && painted(buf, width, height, samples, order)[c]
                == gray_spec(samples[t].intensity) && forall|u: int|
                0 <= u < samples.len() && lands(#[trigger] samples[u], c, width, height) ==> depth_key_spec(samples[t].depth)
                    <= depth_key_spec(samples[u].depth),
{
    let keys = depth_keys(samples);
    if forall|u: int| 0 <= u < samples.len() ==> !lands(#[trigger] samples[u], c, width, height) {
        assert forall|k: int| 0 <= k < order.len() implies !lands(samples[#[trigger] order[k] as int], c, width, height) by {
            assert(order[k] < keys.len());
        }
        lemma_untouched_cell(buf, width, height, samples, order, c);
    }
    if exists|u: int| 0 <= u < samples.len() && lands(#[trigger] samples[u], c, width, height) {
        let u0 = choose|u: int| 0 <= u < samples.len() && lands(#[trigger] samples[u], c, width, height);
        let k0 = lemma_position_of(order, samples.len(), u0);
        let m = lemma_last_landing(samples, order, c, width, height, k0);
        lemma_last_writer(buf, width, height, samples, order, c, m);
        let t = order[m] as int;
        assert(t < keys.len());
        assert forall|u: int| 0 <= u < samples.len() && lands(#[trigger] samples[u], c, width, height) implies depth_key_spec(samples[t].depth)
            <= depth_key_spec(samples[u].depth) by {
            let k = lemma_position_of(order, samples.len(), u);
            if k < m {
                assert(keys[order[k] as int] >= keys[order[m] as int]);
            }
        }
        assert(0 <= t < samples.len() && lands(samples[t], c, width, height));
    }
}

/// Where index `u` stands in a permutation of the indices below `n`.
proof fn lemma_position_of(order: Seq<usize>, n: nat, u: int) -> (k: int)
    requires
        is_index_permutation(order, n),
        0 <= u < n,
        n <= usize::MAX,
    ensures
        0 <= k < order.len(),
        order[k] as int == u,
{
    let sp = span(0, n as int);
    assert(sp[u] == u as usize);
    assert(sp.contains(u as usize));
    assert(sp.to_multiset().count(u as usize) > 0);
    assert(order.to_multiset().count(u as usize) > 0);
    assert(order.contains(u as usize));
    choose|k: int| 0 <= k < order.len() && order[k] == u as usize
}

/// The last position in `order`, at or after `k0`, of a sample landing at `c`.
proof fn lemma_last_landing(samples: Seq<Sample>, order: Seq<usize>, c: int, width: int, height: int, k0: int) -> (m: int)
    requires
        0 <= k0 < order.len(),
        lands(samples[order[k0] as int], c, width, height),
    ensures
        k0 <= m < order.len(),
        lands(samples[order[m] as int], c, width, height),
        forall|k: int| m < k < order.len() ==> !lands(samples[#[trigger] order[k] as int], c, width, height),
    decreases order.len() - k0,
{
    if exists|k: int| k0 < k < order.len() && lands(samples[#[trigger] order[k] as int], c, width, height) {
        let k1 = choose|k: int| k0 < k < order.len() && lands(samples[#[trigger] order[k] as int], c, width, height);
        lemma_last_landing(samples, order, c, width, height, k1)
    } else {
        k0
    }
}

/// Draws the samples in the order `order`: each visible one overwrites its
/// cell with its gray.
pub fn paint(
    buffer: &mut Vec<u32>,
    width: usize,
    height: usize,
    samples: &Vec<Sample>,
    order: &Vec<usize>,
)
    requires
        old(buffer)@.len() == width * height,
        forall|k: int| 0 <= k < order@.len() ==> (#[trigger] order@[k]) < samples@.len(),
    ensures
        final(buffer)@ == painted(old(buffer)@, width as int, height as int, samples@, order@),
{
    let ghost start = buffer@;
    let mut i: usize = 0;
    assert(order@.take(0) =~= Seq::<usize>::empty());
    while i < order.len()
        invariant
            i <= order@.len(),
            start.len() == width * height,
            forall|k: int| 0 <= k < order@.len() ==> (#[trigger] order@[k]) < samples@.len(),
            buffer@ == painted(start, width as int, height as int, samples@, order@.take(i as int)),
        decreases order@.len() - i,
    {
        let ghost pre = order@.take(i as int);
        let ghost next = order@.take(i + 1);
        assert(next.drop_last() =~= pre);
        proof {
            lemma_painted_len(start, width as int, height as int, samples@, pre);
        }
        let s = samples[order[i]];
        if s.x >= 0 && (s.x as i128) < (width as i128) && s.y >= 0 && (s.y as i128) < (height as i128)
            && depth_in_range(s.depth) {
            proof {
                lemma_cell_in_buffer(s, width as int, height as int);
            }
            let x = s.x as usize;
            let y = s.y as usize;
            let len = buffer.len();
            assert(buffer@.len() == width * height);
            assert(y * width + x < len);
            buffer.set(y * width + x, gray(s.intensity));
        }
        i = i + 1;
    }
    assert(order@.take(order@.len() as int) =~= order@);
}

/// Draws one frame's samples into a row-major `width` by `height` buffer,
/// farthest first; cells that no visible sample lands on are left as they
/// were.
pub fn draw_points(buffer: &mut Vec<u32>, width: usize, height: usize, samples: &Vec<Sample>)
    requires
        old(buffer)@.len() == width * height,
    ensures
        exists|order: Seq<usize>|
            is_depth_order(depth_keys(samples@), order) && final(buffer)@ == painted(
                old(buffer)@,
                width as int,
                height as int,
                samples@,
                order,
            ),
{
    let mut keys: Vec<u32> = Vec::with_capacity(samples.len());
    let mut i: usize = 0;
    while i < samples.len()
        invariant
            i <= samples@.len(),
            keys@ == depth_keys(samples@).take(i as int),
        decreases samples@.len() - i,
    {
        keys.push(depth_key(samples[i].depth));
        i = i + 1;
        assert(keys@ =~= depth_keys(samples@).take(i as int));
    }
    assert(keys@ =~= depth_keys(samples@));
    let order = depth_order(&keys);
    paint(buffer, width, height, samples, &order);
}

} // verus!
