//! Morph-weight sampler layout: the per-keyframe stride of a flat weight
//! table, where each keyframe's weights sit in it, how the table is built
//! from per-keyframe rows, and which channel of an animation drives a
//! node property.
//!
//! Weight values themselves are carried opaquely (any `T: Copy`); the
//! accessors answer with index ranges into the flat table.
use vstd::prelude::*;
use crate::ids::{AnimationProperty, Interpolation, NodeId};
use crate::scene::{ChannelShape, ValueKind};
use crate::validate::values_per_keyframe;

verus! {

broadcast use vstd::seq_lib::group_seq_properties;

/// Weights per keyframe element of a `Scalar` sampler: the value count
/// divided by keyframes × values-per-keyframe, when that division is
/// exact and non-zero; `None` for another value kind, no keyframes or an
/// empty or ragged table.
pub open spec fn weight_stride(c: ChannelShape) -> Option<nat> {
    let d: int = c.keyframes * values_per_keyframe(c.interpolation);
    if c.values != ValueKind::Scalar || c.keyframes == 0 || c.value_count == 0 || (c.value_count as int) % d != 0 {
        None
    } else {
        Some(((c.value_count as int) / d) as nat)
    }
}

/// The stored weight vector of keyframe `k` as a half-open range of the
/// flat table: the centre (value) element of a cubic keyframe's
/// `(in_tangent, value, out_tangent)` triple, the only element otherwise.
pub open spec fn frame_range(c: ChannelShape, k: int) -> Option<(int, int)> {
    match weight_stride(c) {
        Some(s) => if 0 <= k < c.keyframes {
            let centre: int = if c.interpolation == Interpolation::CubicSpline { 1 } else { 0 };
            let base = (k * values_per_keyframe(c.interpolation) + centre) * s;
            Some((base, base + s))
        } else {
            None
        },
        None => None,
    }
}

/// The `(in_tangent, value, out_tangent)` ranges of cubic keyframe `k`.
pub open spec fn cubic_frame_ranges(c: ChannelShape, k: int) -> Option<Seq<(int, int)>> {
    match weight_stride(c) {
        Some(s) => if c.interpolation == Interpolation::CubicSpline && 0 <= k < c.keyframes {
            let base = k * 3 * s;
            Some(seq![(base, base + s), (base + s, base + 2 * s), (base + 2 * s, base + 3 * s)])
        } else {
            None
        },
        None => None,
    }
}

/// The keyframe count of `c` times its values per keyframe fits a `usize`.
pub open spec fn layout_fits(c: ChannelShape) -> bool {
    c.keyframes * values_per_keyframe(c.interpolation) <= usize::MAX
}

proof fn lemma_range_inside(k: int, f: int, centre: int, n: int, s: int)
    requires
        0 <= k < n,
        f >= 1,
        0 <= centre < f,
        s >= 0,
    ensures
        0 <= (k * f + centre) * s,
        (k * f + centre) * s + s <= n * f * s,
{
    assert(k * f + centre + 1 <= n * f) by (nonlinear_arith)
        requires
            0 <= k < n,
            f >= 1,
            0 <= centre < f,
    ;
    assert((k * f + centre) * s + s == (k * f + centre + 1) * s) by (nonlinear_arith);
    assert((k * f + centre + 1) * s <= (n * f) * s) by (nonlinear_arith)
        requires
            k * f + centre + 1 <= n * f,
            s >= 0,
    ;
    assert(0 <= (k * f + centre) * s) by (nonlinear_arith)
        requires
            0 <= k,
            f >= 1,
            0 <= centre,
            s >= 0,
    ;
    assert(n * f * s == (n * f) * s) by (nonlinear_arith);
}

impl ChannelShape {
    /// Per-keyframe weight-vector width of a morph-weight sampler (see
    /// [`weight_stride`]).
    pub fn morph_weight_stride(&self) -> (r: Option<usize>)
        requires
            layout_fits(*self),
        ensures
            r matches Some(s) ==> weight_stride(*self) == Some(s as nat),
            r is None ==> weight_stride(*self) is None,
    {
        if self.values != ValueKind::Scalar || self.keyframes == 0 {
            return None;
        }
        let factor: usize = match self.interpolation {
            Interpolation::CubicSpline => 3,
            _ => 1,
        };
        let d = self.keyframes * factor;
        let total = self.value_count;
        if total == 0 || total % d != 0 {
            return None;
        }
        Some(total / d)
    }

    /// Range of the flat weight table that holds the stored weights of
    /// keyframe `k` (no interpolation); `None` when the sampler has no
    /// stride or `k` is out of range.
    pub fn morph_weight_frame(&self, k: usize) -> (r: Option<(usize, usize)>)
        requires
            layout_fits(*self),
        ensures
            r matches Some(p) ==> frame_range(*self, k as int) == Some((p.0 as int, p.1 as int)),
            r is None ==> frame_range(*self, k as int) is None,
    {
        let stride = match self.morph_weight_stride() {
            Some(s) => s,
            None => return None,
        };
        if k >= self.keyframes {
            return None;
        }
        let (factor, centre): (usize, usize) = match self.interpolation {
            Interpolation::CubicSpline => (3, 1),
            _ => (1, 0),
        };
        proof {
            let d: int = self.keyframes * factor;
            assert(self.value_count == d * stride) by (nonlinear_arith)
                requires
                    (self.value_count as int) % d == 0,
                    stride == (self.value_count as int) / d,
                    d > 0,
            ;
            lemma_range_inside(k as int, factor as int, centre as int, self.keyframes as int, stride as int);
            assert(self.keyframes * factor * stride == d * stride);
            assert(k * factor + centre <= self.keyframes * factor) by (nonlinear_arith)
                requires
                    k < self.keyframes,
                    centre < factor,
            ;
        }
        let base = (k * factor + centre) * stride;
        Some((base, base + stride))
    }

    /// The ranges of every keyframe's stored weights, in keyframe order;
    /// `None` when the sampler has no stride.
    pub fn morph_weight_frames(&self) -> (r: Option<Vec<(usize, usize)>>)
        requires
            layout_fits(*self),
        ensures
            r is Some <==> weight_stride(*self) is Some,
            r matches Some(v) ==> v@.len() == self.keyframes && forall|k: int|
                0 <= k < v@.len() ==> frame_range(*self, k) == Some(
                    ((#[trigger] v@[k]).0 as int, v@[k].1 as int),
                ),
    {
        if self.morph_weight_stride().is_none() {
            return None;
        }
        let mut out: Vec<(usize, usize)> = Vec::new();
        let mut k: usize = 0;
        while k < self.keyframes
            invariant
                layout_fits(*self),
                weight_stride(*self) is Some,
                k <= self.keyframes,
                out@.len() == k,
                forall|j: int| 0 <= j < k ==> frame_range(*self, j) == Some(((#[trigger] out@[j]).0 as int, out@[j].1 as int)),
            decreases self.keyframes - k,
        {
            match self.morph_weight_frame(k) {
                Some(p) => out.push(p),
                None => {
                    assert(false);
                },
            }
            k = k + 1;
        }
        Some(out)
    }

    /// The `(in_tangent, value, out_tangent)` ranges stored at keyframe
    /// `k` of a cubic-spline morph-weight sampler; `None` for another
    /// interpolation, no stride, or `k` out of range.
    pub fn morph_weight_cubic_frame(&self, k: usize) -> (r: Option<[(usize, usize); 3]>)
        requires
            layout_fits(*self),
        ensures
            r matches Some(a) ==> cubic_frame_ranges(*self, k as int) == Some(
                seq![
                    (a[0].0 as int, a[0].1 as int),
                    (a[1].0 as int, a[1].1 as int),
                    (a[2].0 as int, a[2].1 as int),
                ],
            ),
            r is None ==> cubic_frame_ranges(*self, k as int) is None,
    {
        if self.interpolation != Interpolation::CubicSpline {
            return None;
        }
        let stride = match self.morph_weight_stride() {
            Some(s) => s,
            None => return None,
        };
        if k >= self.keyframes {
            return None;
        }
        proof {
            let d: int = self.keyframes * 3;
            assert(self.value_count == d * stride) by (nonlinear_arith)
                requires
                    (self.value_count as int) % d == 0,
                    stride == (self.value_count as int) / d,
                    d > 0,
            ;
            lemma_range_inside(k as int, 3, 2, self.keyframes as int, stride as int);
            assert(self.keyframes * 3 * stride == d * stride);
            assert((k * 3 + 2) * stride + stride == k * 3 * stride + 3 * stride) by (nonlinear_arith);
            assert(0 <= k * 3 * stride) by (nonlinear_arith);
            assert(0 <= k * 3 <= self.keyframes * 3);
        }
        let base = k * 3 * stride;
        Some([(base, base + stride), (base + stride, base + 2 * stride), (base + 2 * stride, base + 3 * stride)])
    }
}

/// The shared stride of `tables` (each a list of row lengths): present
/// when there are keyframes, their times rise strictly, every table has
/// one row per keyframe, and every row has the first row's non-zero
/// length.
pub open spec fn uniform_stride_of(keyframes: nat, increasing: bool, tables: Seq<Seq<usize>>) -> Option<nat> {
    if keyframes > 0 && increasing && tables.len() > 0 && tables[0].len() > 0 && tables[0][0] > 0
        && forall|t: int| 0 <= t < tables.len() ==> (#[trigger] tables[t]).len() == keyframes
        && forall|t: int, r: int|
        0 <= t < tables.len() && 0 <= r < tables[t].len() ==> #[trigger] tables[t][r] == tables[0][0] {
        Some(tables[0][0] as nat)
    } else {
        None
    }
}

/// The row-length tables, as sequences.
pub open spec fn table_views(tables: Seq<Vec<usize>>) -> Seq<Seq<usize>> {
    tables.map_values(|t: Vec<usize>| t@)
}

/// The structural gate of the morph-weight constructors: the common
/// non-zero row width of the parallel `tables` (given as row lengths),
/// given `keyframes` keyframe times of which `increasing` says whether
/// they are finite and strictly rising.
pub fn uniform_stride(keyframes: usize, increasing: bool, tables: &Vec<Vec<usize>>) -> (r: Option<usize>)
    ensures
        r matches Some(s) ==> uniform_stride_of(keyframes as nat, increasing, table_views(tables@)) == Some(s as nat),
        r is None ==> uniform_stride_of(keyframes as nat, increasing, table_views(tables@)) is None,
{
    let ghost tv = table_views(tables@);
    if keyframes == 0 || !increasing {
        return None;
    }
    if tables.len() == 0 || tables[0].len() == 0 {
        return None;
    }
    let stride = tables[0][0];
    assert(tv[0][0] == stride);
    if stride == 0 {
        return None;
    }
    let mut t: usize = 0;
    while t < tables.len()
        invariant
            tv == table_views(tables@),
            tv.len() == tables@.len(),
            tables@.len() > 0,
            tv[0].len() > 0,
            stride == tv[0][0],
            t <= tables@.len(),
            forall|u: int| 0 <= u < t ==> (#[trigger] tv[u]).len() == keyframes,
            forall|u: int, r: int| 0 <= u < t && 0 <= r < tv[u].len() ==> #[trigger] tv[u][r] == stride,
        decreases tables@.len() - t,
    {
        if tables[t].len() != keyframes {
            assert(tv[t as int].len() != keyframes);
            return None;
        }
        let mut r: usize = 0;
        while r < tables[t].len()
            invariant
                tv == table_views(tables@),
                tv.len() == tables@.len(),
                stride == tv[0][0],
                t < tables@.len(),
                r <= tables@[t as int]@.len(),
                forall|q: int| 0 <= q < r ==> #[trigger] tv[t as int][q] == stride,
            decreases tables@[t as int]@.len() - r,
        {
            if tables[t][r] != stride {
                assert(tv[t as int][r as int] != stride);
                return None;
            }
            r = r + 1;
        }
        t = t + 1;
    }
    Some(stride)
}

/// The length of each row.
pub open spec fn row_lens<T>(rows: Seq<Seq<T>>) -> Seq<usize> {
    rows.map_values(|x: Seq<T>| x.len() as usize)
}

/// Row lengths of one table of per-keyframe rows.
fn row_lengths<T>(rows: &Vec<Vec<T>>) -> (out: Vec<usize>)
    ensures
        out@ == row_lens(row_seqs(rows@)),
{
    let mut out: Vec<usize> = Vec::new();
    let mut i: usize = 0;
    while i < rows.len()
        invariant
            i <= rows@.len(),
            out@.len() == i,
            forall|j: int| 0 <= j < i ==> #[trigger] out@[j] == rows@[j]@.len(),
        decreases rows@.len() - i,
    {
        out.push(rows[i].len());
        i = i + 1;
    }
    assert(out@ =~= row_lens(row_seqs(rows@)));
    out
}

/// The rows of a table, as sequences.
pub open spec fn row_seqs<T>(rows: Seq<Vec<T>>) -> Seq<Seq<T>> {
    rows.map_values(|r: Vec<T>| r@)
}

/// The common width of `rows`, when it is non-zero and every row has it.
pub open spec fn rows_uniform<T>(rows: Seq<Seq<T>>, s: nat) -> bool {
    &&& s > 0
    &&& forall|i: int| 0 <= i < rows.len() ==> (#[trigger] rows[i]).len() == s
}

/// Append every element of `src` to `out`.
fn extend_from<T: Copy>(out: &mut Vec<T>, src: &Vec<T>)
    ensures
        final(out)@ == old(out)@ + src@,
{
    let mut i: usize = 0;
    while i < src.len()
        invariant
            i <= src@.len(),
            out@ == old(out)@ + src@.take(i as int),
        decreases src@.len() - i,
    {
        out.push(src[i]);
        proof {
            assert(src@.take(i + 1) =~= src@.take(i as int).push(src@[i as int]));
        }
        i = i + 1;
    }
    proof {
        assert(src@.take(src@.len() as int) =~= src@);
    }
}

/// Concatenate the rows of `rows`, in order.
pub fn flatten_rows<T: Copy>(rows: &Vec<Vec<T>>) -> (out: Vec<T>)
    ensures
        out@ == row_seqs(rows@).flatten(),
{
    let mut out: Vec<T> = Vec::new();
    let mut i: usize = 0;
    while i < rows.len()
        invariant
            i <= rows@.len(),
            out@ == row_seqs(rows@.take(i as int)).flatten(),
        decreases rows@.len() - i,
    {
        extend_from(&mut out, &rows[i]);
        proof {
            assert(row_seqs(rows@.take(i + 1)) =~= row_seqs(rows@.take(i as int)).push(rows@[i as int]@));
            row_seqs(rows@.take(i as int)).lemma_flatten_push(rows@[i as int]@);
        }
        i = i + 1;
    }
    proof {
        assert(rows@.take(rows@.len() as int) =~= rows@);
    }
    out
}

/// The weight table of a step or linear morph-weight sampler built from
/// one row per keyframe: the rows concatenated, when they share a
/// non-zero width and there is one per keyframe (see
/// [`uniform_stride_of`]); `None` for a cubic spline or when that gate
/// fails.
pub fn morph_weights<T: Copy>(
    keyframes: usize,
    increasing: bool,
    frames: &Vec<Vec<T>>,
    interpolation: Interpolation,
) -> (r: Option<Vec<T>>)
    ensures
        r is Some <==> interpolation != Interpolation::CubicSpline && uniform_stride_of(
            keyframes as nat,
            increasing,
            seq![row_lens(row_seqs(frames@))],
        ) is Some,
        r matches Some(v) ==> v@ == row_seqs(frames@).flatten(),
{
    if interpolation == Interpolation::CubicSpline {
        return None;
    }
    let lens = row_lengths(frames);
    let ghost l = lens@;
    let tables = vec![lens];
    proof {
        assert(tables@[0]@ == l);
        assert(table_views(tables@) =~= seq![row_lens(row_seqs(frames@))]);
    }
    match uniform_stride(keyframes, increasing, &tables) {
        Some(_) => Some(flatten_rows(frames)),
        None => None,
    }
}

/// Interleave three parallel tables as `[a₀, v₀, b₀, a₁, v₁, b₁, …]`.
pub open spec fn interleave3<T>(a: Seq<Seq<T>>, v: Seq<Seq<T>>, b: Seq<Seq<T>>) -> Seq<Seq<T>> {
    Seq::new(
        3 * a.len(),
        |i: int|
            if i % 3 == 0 {
                a[i / 3]
            } else if i % 3 == 1 {
                v[i / 3]
            } else {
                b[i / 3]
            },
    )
}

/// The weight table of a cubic-spline morph-weight sampler from parallel
/// per-keyframe in-tangent, value and out-tangent rows, interleaved per
/// keyframe; `None` unless all three tables pass [`uniform_stride_of`]
/// together.
pub fn morph_weights_cubic<T: Copy>(
    keyframes: usize,
    increasing: bool,
    in_tangents: &Vec<Vec<T>>,
    values: &Vec<Vec<T>>,
    out_tangents: &Vec<Vec<T>>,
) -> (r: Option<Vec<T>>)
    ensures
        r is Some <==> uniform_stride_of(
            keyframes as nat,
            increasing,
            seq![row_lens(row_seqs(in_tangents@)), row_lens(row_seqs(values@)), row_lens(row_seqs(out_tangents@))],
        ) is Some,
        r matches Some(v) ==> v@ == interleave3(row_seqs(in_tangents@), row_seqs(values@), row_seqs(out_tangents@)).flatten(),
{
    let l0 = row_lengths(in_tangents);
    let l1 = row_lengths(values);
    let l2 = row_lengths(out_tangents);
    let ghost g0 = l0@;
    let ghost g1 = l1@;
    let ghost g2 = l2@;
    let tables = vec![l0, l1, l2];
    let ghost lens = seq![row_lens(row_seqs(in_tangents@)), row_lens(row_seqs(values@)), row_lens(row_seqs(out_tangents@))];
    proof {
        assert(tables@[0]@ == g0 && tables@[1]@ == g1 && tables@[2]@ == g2);
        assert(table_views(tables@) =~= lens);
    }
    if uniform_stride(keyframes, increasing, &tables).is_none() {
        return None;
    }
    proof {
        assert(lens[0].len() == keyframes && lens[1].len() == keyframes && lens[2].len() == keyframes);
    }
    let ghost a = row_seqs(in_tangents@);
    let ghost v = row_seqs(values@);
    let ghost b = row_seqs(out_tangents@);
    let mut flat: Vec<T> = Vec::new();
    let mut k: usize = 0;
    while k < keyframes
        invariant
            a == row_seqs(in_tangents@),
            v == row_seqs(values@),
            b == row_seqs(out_tangents@),
            in_tangents@.len() == keyframes,
            values@.len() == keyframes,
            out_tangents@.len() == keyframes,
            k <= keyframes,
            flat@ == interleave3(a.take(k as int), v.take(k as int), b.take(k as int)).flatten(),
        decreases keyframes - k,
    {
        let ghost before = interleave3(a.take(k as int), v.take(k as int), b.take(k as int));
        extend_from(&mut flat, &in_tangents[k]);
        extend_from(&mut flat, &values[k]);
        extend_from(&mut flat, &out_tangents[k]);
        proof {
            let after = interleave3(a.take(k + 1), v.take(k + 1), b.take(k + 1));
            assert(after =~= before.push(a[k as int]).push(v[k as int]).push(b[k as int])) by {
                assert forall|i: int| 0 <= i < after.len() implies after[i] == before.push(a[k as int]).push(
                    v[k as int],
                ).push(b[k as int])[i] by {
                    if i < 3 * k {
                        assert(i / 3 < k) by (nonlinear_arith)
                            requires
                                0 <= i < 3 * k,
                        ;
                    } else {
                        assert(i / 3 == k) by (nonlinear_arith)
                            requires
                                3 * k <= i < 3 * k + 3,
                        ;
                    }
                }
            }
            before.lemma_flatten_push(a[k as int]);
            before.push(a[k as int]).lemma_flatten_push(v[k as int]);
            before.push(a[k as int]).push(v[k as int]).lemma_flatten_push(b[k as int]);
        }
        k = k + 1;
    }
    proof {
        assert(a.take(keyframes as int) =~= a);
        assert(v.take(keyframes as int) =~= v);
        assert(b.take(keyframes as int) =~= b);
    }
    Some(flat)
}

/// Rows of one common width `s` sit back to back in their concatenation:
/// row `k` occupies `[k·s, k·s + s)`.
pub proof fn lemma_flatten_uniform<T>(rows: Seq<Seq<T>>, s: nat, k: int)
    requires
        forall|i: int| 0 <= i < rows.len() ==> (#[trigger] rows[i]).len() == s,
        0 <= k < rows.len(),
    ensures
        rows.flatten().len() == rows.len() * s,
        rows.flatten().subrange(k * s, k * s + s) == rows[k],
    decreases rows.len(),
{
    let d = rows.drop_last();
    rows.drop_last().lemma_flatten_push(rows.last());
    assert(d.push(rows.last()) =~= rows);
    if rows.len() == 1 {
        assert(d.flatten() =~= Seq::<T>::empty());
    } else {
        if k < rows.len() - 1 {
            lemma_flatten_uniform(d, s, k);
        } else {
            lemma_flatten_uniform(d, s, 0);
        }
    }
    assert(rows.len() * s == (rows.len() - 1) * s + s) by (nonlinear_arith);
    if k < rows.len() - 1 {
        assert(k * s + s <= (rows.len() - 1) * s) by (nonlinear_arith)
            requires
                0 <= k < rows.len() - 1,
        ;
        assert(rows.flatten().subrange(k * s, k * s + s) =~= d.flatten().subrange(k * s, k * s + s));
    } else {
        assert(k * s == (rows.len() - 1) * s);
        assert(rows.flatten().subrange(k * s, k * s + s) =~= rows.last());
    }
}

/// A step or linear morph-weight table built by [`morph_weights`] gives
/// its rows back: with the sampler's keyframe count and table length,
/// keyframe `k`'s range in the table holds exactly `frames[k]`.
pub proof fn law_morph_weights_round_trip<T>(c: ChannelShape, frames: Seq<Seq<T>>, s: nat, k: int)
    requires
        rows_uniform(frames, s),
        frames.len() > 0,
        c.values == ValueKind::Scalar,
        c.interpolation != Interpolation::CubicSpline,
        c.keyframes == frames.len(),
        c.value_count == frames.flatten().len(),
        0 <= k < frames.len(),
    ensures
        weight_stride(c) == Some(s),
        frame_range(c, k) == Some((k * s, k * s + s)),
        frames.flatten().subrange(k * s, k * s + s) == frames[k],
{
    lemma_flatten_uniform(frames, s, k);
    let n: int = frames.len() as int;
    assert(values_per_keyframe(c.interpolation) == 1);
    assert((n * s) % n == 0 && (n * s) / n == s) by (nonlinear_arith)
        requires
            n > 0,
    ;
    assert(n * s > 0) by (nonlinear_arith)
        requires
            n > 0,
            s > 0,
    ;
    assert(k * 1 + 0 == k);
}

/// A cubic-spline morph-weight table built by [`morph_weights_cubic`]
/// gives its rows back: keyframe `k`'s in-tangent, value and out-tangent
/// ranges hold exactly the `k`-th row of each input table.
pub proof fn law_morph_weights_cubic_round_trip<T>(
    c: ChannelShape,
    a: Seq<Seq<T>>,
    v: Seq<Seq<T>>,
    b: Seq<Seq<T>>,
    s: nat,
    k: int,
)
    requires
        rows_uniform(a, s),
        rows_uniform(v, s),
        rows_uniform(b, s),
        a.len() > 0,
        v.len() == a.len(),
        b.len() == a.len(),
        c.values == ValueKind::Scalar,
        c.interpolation == Interpolation::CubicSpline,
        c.keyframes == a.len(),
        c.value_count == interleave3(a, v, b).flatten().len(),
        0 <= k < a.len(),
    ensures
        weight_stride(c) == Some(s),
        cubic_frame_ranges(c, k) == Some(seq![(k * 3 * s, k * 3 * s + s), (k * 3 * s + s, k * 3 * s + 2 * s), (k * 3 * s + 2 * s, k * 3 * s + 3 * s)]),
        frame_range(c, k) == Some((k * 3 * s + s, k * 3 * s + 2 * s)),
        interleave3(a, v, b).flatten().subrange(k * 3 * s, k * 3 * s + s) == a[k],
        interleave3(a, v, b).flatten().subrange(k * 3 * s + s, k * 3 * s + 2 * s) == v[k],
        interleave3(a, v, b).flatten().subrange(k * 3 * s + 2 * s, k * 3 * s + 3 * s) == b[k],
{
    let rows = interleave3(a, v, b);
    let n = a.len();
    assert forall|i: int| 0 <= i < rows.len() implies (#[trigger] rows[i]).len() == s by {
        assert(0 <= i / 3 < n) by (nonlinear_arith)
            requires
                0 <= i < 3 * n,
        ;
    }
    assert((3 * k) / 3 == k && (3 * k) % 3 == 0) by (nonlinear_arith);
    assert((3 * k + 1) / 3 == k && (3 * k + 1) % 3 == 1) by (nonlinear_arith);
    assert((3 * k + 2) / 3 == k && (3 * k + 2) % 3 == 2) by (nonlinear_arith);
    assert(3 * k + 2 < 3 * n);
    lemma_flatten_uniform(rows, s, 3 * k);
    lemma_flatten_uniform(rows, s, 3 * k + 1);
    lemma_flatten_uniform(rows, s, 3 * k + 2);
    assert((3 * k) * s == k * 3 * s) by (nonlinear_arith);
    assert((3 * k + 1) * s == k * 3 * s + s) by (nonlinear_arith);
    assert((3 * k + 2) * s == k * 3 * s + 2 * s) by (nonlinear_arith);
    assert((3 * k + 2) * s + s == k * 3 * s + 3 * s) by (nonlinear_arith);
    assert(values_per_keyframe(c.interpolation) == 3);
    let d: int = (n * 3) as int;
    assert(rows.len() * s == d * s) by (nonlinear_arith)
        requires
            rows.len() == 3 * n,
            d == n * 3,
    ;
    assert((d * s) % d == 0 && (d * s) / d == s) by (nonlinear_arith)
        requires
            d > 0,
    ;
    assert(d * s > 0) by (nonlinear_arith)
        requires
            d > 0,
            s > 0,
    ;
    assert((k * 3 + 1) * s == k * 3 * s + s) by (nonlinear_arith);
}

/// Position of the channel driving `property` of `node`: the last
/// matching one, the same later-channel-wins rule that building a pose
/// applies; `None` when no channel targets that slot.
pub fn channel_for(channels: &Vec<ChannelShape>, node: NodeId, property: AnimationProperty) -> (r: Option<usize>)
    ensures
        r matches Some(i) ==> i < channels@.len() && channels@[i as int].target.node == node
            && channels@[i as int].target.property == property && forall|j: int|
            i < j < channels@.len() ==> !(#[trigger] channels@[j].target.node == node
                && channels@[j].target.property == property),
        r is None ==> forall|j: int|
            0 <= j < channels@.len() ==> !(#[trigger] channels@[j].target.node == node
                && channels@[j].target.property == property),
{
    let mut i = channels.len();
    while i > 0
        invariant
            i <= channels@.len(),
            forall|j: int|
                i <= j < channels@.len() ==> !(#[trigger] channels@[j].target.node == node
                    && channels@[j].target.property == property),
        decreases i,
    {
        i = i - 1;
        if channels[i].target.node == node && channels[i].target.property == property {
            return Some(i);
        }
    }
    None
}

} // verus!
