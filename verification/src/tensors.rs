//! Four-dimensional tensors and the parts of tensor code that lay out and move
//! elements, whatever the element type.
use vstd::arithmetic::div_mod::{
    lemma_div_pos_is_pos, lemma_fundamental_div_mod, lemma_fundamental_div_mod_converse,
    lemma_mod_pos_bound,
};
use vstd::prelude::*;

verus! {

/// A tensor of four dimensions (x, y, z, w): `sizes` holds the extent of each
/// dimension and `strides` the distance in `data` between neighbours along it.
#[derive(Debug)]
pub struct Tensor<T> {
    pub data: Vec<T>,
    pub sizes: [usize; 4],
    pub strides: [usize; 4],
}

/// The strides of a tensor of the given sizes whose elements lie densely,
/// x fastest, then y, z and w.
pub open spec fn dense_strides(sizes: [usize; 4]) -> Seq<int> {
    seq![1int, sizes[0] as int, sizes[1] * sizes[0], sizes[2] * sizes[1] * sizes[0]]
}

/// The number of elements of a tensor of the given sizes.
pub open spec fn element_count(sizes: [usize; 4]) -> int {
    sizes[2] * sizes[1] * sizes[0] * sizes[3]
}

/// Every product that laying out a dense tensor of these sizes computes fits in a `usize`.
pub open spec fn dense_layout_fits(sizes: [usize; 4]) -> bool {
    &&& sizes[1] * sizes[0] <= usize::MAX
    &&& sizes[2] * sizes[1] <= usize::MAX
    &&& sizes[2] * sizes[1] * sizes[0] <= usize::MAX
    &&& sizes[2] * sizes[1] * sizes[0] * sizes[3] <= usize::MAX
}

/// The tensor lies densely: its strides are the dense strides of its sizes and
/// its data holds one element for each position.
pub open spec fn is_dense<T>(t: &Tensor<T>) -> bool {
    &&& t.strides@.map_values(|s: usize| s as int) == dense_strides(t.sizes)
    &&& t.data@.len() == element_count(t.sizes)
}

impl<T: Copy> Tensor<T> {
    /// A dense tensor of the given sizes with every element equal to `value`.
    pub fn filled(sizes: [usize; 4], value: T) -> (out: Tensor<T>)
        requires
            dense_layout_fits(sizes),
        ensures
            out.sizes == sizes,
            is_dense(&out),
            out.strides@ == seq![
                1usize,
                sizes[0],
                (sizes[1] * sizes[0]) as usize,
                (sizes[2] * sizes[1] * sizes[0]) as usize,
            ],
            out.data@.len() == sizes[2] * sizes[1] * sizes[0] * sizes[3],
            forall|i: int| 0 <= i < out.data@.len() ==> #[trigger] out.data@[i] == value,
    {
        let strides: [usize; 4] = [1, sizes[0], sizes[1] * sizes[0], sizes[2] * sizes[1] * sizes[0]];
        let count: usize = strides[3] * sizes[3];
        let mut data: Vec<T> = Vec::new();
        for i in 0..count
            invariant
                data@.len() == i,
                forall|j: int| 0 <= j < i ==> #[trigger] data@[j] == value,
        {
            data.push(value);
        }
        let out = Tensor { data, sizes, strides };
        assert(out.strides@.map_values(|s: usize| s as int) =~= dense_strides(sizes));
        assert(out.strides@ =~= seq![
            1usize,
            sizes[0],
            (sizes[1] * sizes[0]) as usize,
            (sizes[2] * sizes[1] * sizes[0]) as usize,
        ]);
        out
    }
}

/// The sizes of the product of `a` and `b`, batch by batch over z and w, when
/// the width of `a` is the height of `b` and both have the same z and w extents.
pub open spec fn spec_product_sizes(a: [usize; 4], b: [usize; 4]) -> Option<[usize; 4]> {
    if a[0] != b[1] || a[2] != b[2] || a[3] != b[3] {
        None
    } else {
        Some([b[0], a[1], a[2], a[3]])
    }
}

/// The sizes of the matrix product of tensors of sizes `a` and `b`: `None` when
/// they cannot be multiplied, else the width of `b`, the height of `a` and their
/// common z and w extents.
pub fn product_sizes(a: [usize; 4], b: [usize; 4]) -> (out: Option<[usize; 4]>)
    ensures
        out == spec_product_sizes(a, b),
        out is Some <==> (a[0] == b[1] && a[2] == b[2] && a[3] == b[3]),
        out matches Some(s) ==> s@ == seq![b[0], a[1], a[2], a[3]],
{
    if a[0] != b[1] || a[2] != b[2] || a[3] != b[3] {
        return None;
    }
    Some([b[0], a[1], a[2], a[3]])
}

/// Two tensors can be multiplied exactly when the width of the first is the
/// height of the second and their z and w extents agree; the product is as wide
/// as the second, as high as the first, and keeps their z and w extents.
pub proof fn lemma_product_sizes(a: [usize; 4], b: [usize; 4])
    ensures
        spec_product_sizes(a, b) is Some <==> (a[0] == b[1] && a[2] == b[2] && a[3] == b[3]),
        a[0] != b[1] ==> spec_product_sizes(a, b) is None,
        a[2] != b[2] ==> spec_product_sizes(a, b) is None,
        a[3] != b[3] ==> spec_product_sizes(a, b) is None,
        spec_product_sizes(a, b) matches Some(s) ==> s@ == seq![b[0], a[1], a[2], a[3]],
{
    if let Some(s) = spec_product_sizes(a, b) {
        assert(s@ =~= seq![b[0], a[1], a[2], a[3]]);
    }
}

/// The rows of `data` picked by `ids` one after the other, each row `row_len`
/// elements long and the row of id `k` starting at `k * row_len`.
pub open spec fn gathered_rows<T>(data: Seq<T>, ids: Seq<u8>, row_len: int) -> Seq<T>
    decreases ids.len(),
{
    if ids.len() == 0 {
        Seq::empty()
    } else {
        let start = ids.last() * row_len;
        gathered_rows(data, ids.drop_last(), row_len) + data.subrange(start, start + row_len)
    }
}

/// The embedding of a sequence of ids: for each id, in order, the row of
/// `embedding_tensor` at that id. The result has the embedding width as x extent
/// and one row per id.
pub fn embed_text<T: Copy>(ids: &Vec<u8>, embedding_tensor: &Tensor<T>) -> (out: Tensor<T>)
    requires
        ids@.len() * embedding_tensor.sizes[0] <= usize::MAX,
        forall|i: int|
            0 <= i < ids@.len() ==> #[trigger] ids@[i] * embedding_tensor.strides[1]
                + embedding_tensor.strides[1] <= embedding_tensor.data@.len(),
    ensures
        out.sizes@ == seq![embedding_tensor.sizes[0], ids@.len() as usize, 1usize, 1usize],
        out.strides@ == seq![
            1usize,
            embedding_tensor.sizes[0],
            (ids@.len() * embedding_tensor.sizes[0]) as usize,
            (ids@.len() * embedding_tensor.sizes[0]) as usize,
        ],
        out.data@ == gathered_rows(embedding_tensor.data@, ids@, embedding_tensor.strides[1] as int),
        out.data@.len() == ids@.len() * embedding_tensor.strides[1],
        forall|k: int, c: int|
            0 <= k < ids@.len() && 0 <= c < embedding_tensor.strides[1] ==> #[trigger] out.data@[k
                * embedding_tensor.strides[1] + c] == embedding_tensor.data@[ids@[k]
                * embedding_tensor.strides[1] + c],
{
    let width: usize = embedding_tensor.sizes[0];
    let row_len: usize = embedding_tensor.strides[1];
    let out_sizes: [usize; 4] = [width, ids.len(), 1, 1];
    let out_strides: [usize; 4] = [1, out_sizes[0], out_sizes[1] * out_sizes[0], out_sizes[1] * out_sizes[0]];
    let total: usize = embedding_tensor.data.len();
    let mut data: Vec<T> = Vec::new();
    for k in 0..ids.len()
        invariant
            row_len == embedding_tensor.strides[1],
            total == embedding_tensor.data@.len(),
            forall|i: int|
                0 <= i < ids@.len() ==> #[trigger] ids@[i] * embedding_tensor.strides[1]
                    + embedding_tensor.strides[1] <= embedding_tensor.data@.len(),
            data@ == gathered_rows(embedding_tensor.data@, ids@.take(k as int), row_len as int),
    {
        let id: u8 = ids[k];
        assert(ids@[k as int] == id);
        assert(id as int * row_len + row_len <= embedding_tensor.data@.len());
        let start: usize = id as usize * row_len;
        let end: usize = start + row_len;
        let ghost before = data@;
        for j in start..end
            invariant
                start == id * row_len,
                end == start + row_len,
                end <= embedding_tensor.data@.len(),
                data@ == before + embedding_tensor.data@.subrange(start as int, j as int),
        {
            data.push(embedding_tensor.data[j]);
            assert(data@ =~= before + embedding_tensor.data@.subrange(start as int, j + 1));
        }
        assert(ids@.take(k + 1).drop_last() =~= ids@.take(k as int));
        assert(ids@.take(k + 1).last() == id);
    }
    assert(ids@.take(ids@.len() as int) =~= ids@);
    proof {
        lemma_gathered_rows_len(embedding_tensor.data@, ids@, row_len as int);
        assert forall|k: int, c: int|
            0 <= k < ids@.len() && 0 <= c < row_len implies #[trigger] data@[k * row_len + c]
                == embedding_tensor.data@[ids@[k] * row_len + c] by {
            lemma_gathered_rows_index(embedding_tensor.data@, ids@, row_len as int, k, c);
        }
    }
    let out = Tensor { data, sizes: out_sizes, strides: out_strides };
    assert(out.sizes@ =~= seq![embedding_tensor.sizes[0], ids@.len() as usize, 1usize, 1usize]);
    assert(out.strides@ =~= seq![
        1usize,
        embedding_tensor.sizes[0],
        (ids@.len() * embedding_tensor.sizes[0]) as usize,
        (ids@.len() * embedding_tensor.sizes[0]) as usize,
    ]);
    out
}

/// The logits of the last token: the last `vocab_size` elements of the data of
/// `logits`, as a column vector of that length.
pub fn last_token_logits<T: Copy>(logits: &Tensor<T>, vocab_size: usize) -> (out: Tensor<T>)
    requires
        vocab_size <= logits.data@.len(),
    ensures
        out.sizes@ == seq![vocab_size, 1usize, 1usize, 1usize],
        out.strides@ == seq![1usize, vocab_size, vocab_size, vocab_size],
        out.data@ == logits.data@.subrange(logits.data@.len() - vocab_size, logits.data@.len() as int),
{
    let total_len: usize = logits.data.len();
    let start: usize = total_len - vocab_size;
    let mut data: Vec<T> = Vec::new();
    for j in start..total_len
        invariant
            total_len == logits.data@.len(),
            start == total_len - vocab_size,
            data@ == logits.data@.subrange(start as int, j as int),
    {
        data.push(logits.data[j]);
        assert(data@ =~= logits.data@.subrange(start as int, j + 1));
    }
    let out = Tensor {
        data,
        sizes: [vocab_size, 1, 1, 1],
        strides: [1, vocab_size, vocab_size, vocab_size],
    };
    assert(out.sizes@ =~= seq![vocab_size, 1usize, 1usize, 1usize]);
    assert(out.strides@ =~= seq![1usize, vocab_size, vocab_size, vocab_size]);
    out
}

/// The position in a dense tensor of matrices `width` wide and `height` high of
/// the element that the transposed tensor holds at position `j`.
pub open spec fn transpose_source(j: int, width: int, height: int) -> int {
    let plane = width * height;
    let within = j % plane;
    (j / plane) * plane + within / height + (within % height) * width
}

/// The data of a dense tensor of matrices `width` wide and `height` high once
/// every matrix is transposed.
pub open spec fn transposed_data<T>(data: Seq<T>, width: int, height: int) -> Seq<T> {
    Seq::new(data.len(), |j: int| data[transpose_source(j, width, height)])
}

/// In each matrix of the transposed tensor, the element at column `x` and row
/// `y` comes from column `y` and row `x` of the same matrix of the original.
pub proof fn lemma_transpose_source(width: int, height: int, r: int, y: int, x: int)
    requires
        0 <= r,
        0 <= y < width,
        0 <= x < height,
    ensures
        transpose_source(x + y * height + r * (width * height), width, height)
            == y + x * width + r * (width * height),
{
    let plane = width * height;
    let within = x + y * height;
    assert(within < plane) by (nonlinear_arith)
        requires
            0 <= y < width,
            0 <= x < height,
            within == x + y * height,
            plane == width * height,
    ;
    lemma_fundamental_div_mod_converse(within + r * plane, plane, r, within);
    lemma_fundamental_div_mod_converse(within, height, y, x);
}

/// The place of the element at position `j` of a dense tensor of `total`
/// elements, when transposed, lies inside the tensor.
proof fn lemma_transpose_source_bound(j: int, width: int, height: int, total: int)
    requires
        0 < width,
        0 < height,
        0 <= j < total,
        total % (width * height) == 0,
    ensures
        0 <= transpose_source(j, width, height) < total,
{
    let plane = width * height;
    assert(plane > 0) by (nonlinear_arith)
        requires
            0 < width,
            0 < height,
            plane == width * height,
    ;
    let r = j / plane;
    let within = j % plane;
    lemma_fundamental_div_mod(j, plane);
    lemma_mod_pos_bound(j, plane);
    lemma_div_pos_is_pos(j, plane);
    let y = within / height;
    let x = within % height;
    lemma_fundamental_div_mod(within, height);
    lemma_mod_pos_bound(within, height);
    lemma_div_pos_is_pos(within, height);
    lemma_fundamental_div_mod(total, plane);
    let batches = total / plane;
    assert(0 <= y < width) by (nonlinear_arith)
        requires
            within == height * y + x,
            0 <= x < height,
            0 <= within < plane,
            plane == width * height,
            0 <= y,
    ;
    assert(y + x * width < plane) by (nonlinear_arith)
        requires
            0 <= y < width,
            0 <= x < height,
            plane == width * height,
    ;
    assert(r < batches) by (nonlinear_arith)
        requires
            j == plane * r + within,
            0 <= within,
            j < total,
            total == plane * batches + 0,
            plane > 0,
    ;
    assert(r * plane + plane <= total) by (nonlinear_arith)
        requires
            r < batches,
            total == plane * batches + 0,
            plane > 0,
    ;
    assert(0 <= r * plane) by (nonlinear_arith)
        requires
            0 <= r,
            plane > 0,
    ;
    assert(0 <= y + x * width) by (nonlinear_arith)
        requires
            0 <= y,
            0 <= x,
            0 < width,
    ;
}

/// Transposes every matrix of a dense tensor: x and y trade places, in sizes and
/// in data, and the tensor stays dense.
pub fn transpose<T: Copy>(t: &mut Tensor<T>)
    requires
        is_dense(old(t)),
    ensures
        final(t).sizes@ == seq![old(t).sizes[1], old(t).sizes[0], old(t).sizes[2], old(t).sizes[3]],
        is_dense(final(t)),
        final(t).data@ == transposed_data(old(t).data@, old(t).sizes[0] as int, old(t).sizes[1] as int),
        forall|r: int, y: int, x: int|
            0 <= r < old(t).sizes[2] * old(t).sizes[3] && 0 <= y < old(t).sizes[0] && 0 <= x < old(t).sizes[1]
                ==> #[trigger] final(t).data@[x + y * old(t).sizes[1] + r * (old(t).sizes[0] * old(t).sizes[1])]
                == old(t).data@[y + x * old(t).sizes[0] + r * (old(t).sizes[0] * old(t).sizes[1])],
{
    let width: usize = t.sizes[0];
    let height: usize = t.sizes[1];
    let plane: usize = t.strides[2];
    let total: usize = t.data.len();
    let ghost old_sizes = t.sizes;
    let ghost old_data = t.data@;
    assert(t.strides@.map_values(|s: usize| s as int)[2] == dense_strides(old_sizes)[2]);
    assert(t.strides@.map_values(|s: usize| s as int)[3] == dense_strides(old_sizes)[3]);
    assert(plane == height * width);
    assert(plane as int == width as int * height as int) by (nonlinear_arith)
        requires
            plane == height * width,
    ;
    assert(total as int == plane * (old_sizes[2] * old_sizes[3])) by (nonlinear_arith)
        requires
            total == old_sizes[2] * old_sizes[1] * old_sizes[0] * old_sizes[3],
            plane == old_sizes[1] * old_sizes[0],
    ;
    let mut data: Vec<T> = Vec::new();
    if plane > 0 {
        proof {
            vstd::arithmetic::div_mod::lemma_mod_multiples_basic(
                (old_sizes[2] * old_sizes[3]) as int,
                plane as int,
            );
            assert(total as int % (width as int * height as int) == 0) by (nonlinear_arith)
                requires
                    total as int == plane * (old_sizes[2] * old_sizes[3]),
                    plane as int == width as int * height as int,
                    ((old_sizes[2] * old_sizes[3]) * plane) % (plane as int) == 0,
            ;
            assert(width > 0 && height > 0) by (nonlinear_arith)
                requires
                    plane as int == width as int * height as int,
                    plane > 0,
            ;
        }
        let mut j: usize = 0;
        while j < total
            invariant
                0 < plane,
                0 < width,
                0 < height,
                plane as int == width as int * height as int,
                total == old_data.len(),
                total as int % (width as int * height as int) == 0,
                old_data == t.data@,
                j <= total,
                data@ == Seq::new(j as nat, |k: int| old_data[transpose_source(k, width as int, height as int)]),
            decreases total - j,
        {
            let r: usize = j / plane;
            let within: usize = j % plane;
            let y: usize = within / height;
            let x: usize = within % height;
            proof {
                lemma_transpose_source_bound(j as int, width as int, height as int, total as int);
            }
            let source: usize = r * plane + y + x * width;
            data.push(t.data[source]);
            j = j + 1;
            assert(data@ =~= Seq::new(j as nat, |k: int| old_data[transpose_source(k, width as int, height as int)]));
        }
    }
    assert(data@ =~= Seq::new(old_data.len(), |k: int| old_data[transpose_source(k, width as int, height as int)]));
    let new_strides: [usize; 4] = [1, height, plane, t.strides[3]];
    t.sizes = [height, width, t.sizes[2], t.sizes[3]];
    t.strides = new_strides;
    t.data = data;
    proof {
        assert(t.sizes@ =~= seq![old_sizes[1], old_sizes[0], old_sizes[2], old_sizes[3]]);
        assert(t.strides@.map_values(|s: usize| s as int) =~= dense_strides(t.sizes)) by {
            assert(new_strides[3] == old_sizes[2] * old_sizes[1] * old_sizes[0]);
            assert(old_sizes[2] * old_sizes[1] * old_sizes[0] == old_sizes[2] * old_sizes[0] * old_sizes[1])
                by (nonlinear_arith);
        }
        assert(element_count(t.sizes) == element_count(old_sizes)) by {
            assert(old_sizes[2] * old_sizes[0] * old_sizes[1] * old_sizes[3]
                == old_sizes[2] * old_sizes[1] * old_sizes[0] * old_sizes[3]) by (nonlinear_arith);
        }
        assert forall|r: int, y: int, x: int|
            0 <= r < old_sizes[2] * old_sizes[3] && 0 <= y < old_sizes[0] && 0 <= x < old_sizes[1]
            implies #[trigger] t.data@[x + y * old_sizes[1] + r * (old_sizes[0] * old_sizes[1])]
                == old_data[y + x * old_sizes[0] + r * (old_sizes[0] * old_sizes[1])] by {
            lemma_transpose_source(width as int, height as int, r, y, x);
            assert(x + y * old_sizes[1] + r * (old_sizes[0] * old_sizes[1]) < total) by (nonlinear_arith)
                requires
                    0 <= r < old_sizes[2] * old_sizes[3],
                    0 <= y < old_sizes[0],
                    0 <= x < old_sizes[1],
                    total as int == (old_sizes[0] * old_sizes[1]) * (old_sizes[2] * old_sizes[3]),
            ;
            assert(0 <= x + y * old_sizes[1] + r * (old_sizes[0] * old_sizes[1])) by (nonlinear_arith)
                requires
                    0 <= r,
                    0 <= y,
                    0 <= x,
            ;
        }
    }
}

/// Transposing twice gives back the data of a dense tensor: the second
/// transpose, of matrices with width and height swapped, undoes the first.
pub proof fn lemma_transpose_twice<T>(t: Tensor<T>)
    requires
        is_dense(&t),
    ensures
        transposed_data(
            transposed_data(t.data@, t.sizes[0] as int, t.sizes[1] as int),
            t.sizes[1] as int,
            t.sizes[0] as int,
        ) == t.data@,
{
    let width = t.sizes[0] as int;
    let height = t.sizes[1] as int;
    let data = t.data@;
    let once = transposed_data(data, width, height);
    let twice = transposed_data(once, height, width);
    assert(data.len() == (width * height) * (t.sizes[2] * t.sizes[3])) by (nonlinear_arith)
        requires
            data.len() == t.sizes[2] * t.sizes[1] * t.sizes[0] * t.sizes[3],
            width == t.sizes[0],
            height == t.sizes[1],
    ;
    assert(width * height == height * width) by (nonlinear_arith);
    if width > 0 && height > 0 {
        let plane = width * height;
        assert(plane > 0) by (nonlinear_arith)
            requires
                width > 0,
                height > 0,
                plane == width * height,
        ;
        vstd::arithmetic::div_mod::lemma_mod_multiples_basic(t.sizes[2] * t.sizes[3], plane);
        assert((data.len() as int) % plane == 0) by {
            assert((t.sizes[2] * t.sizes[3]) * plane == plane * (t.sizes[2] * t.sizes[3])) by (nonlinear_arith);
        }
        assert forall|j: int| 0 <= j < data.len() implies #[trigger] twice[j] == data[j] by {
            let r = j / plane;
            let w = j % plane;
            lemma_fundamental_div_mod(j, plane);
            lemma_mod_pos_bound(j, plane);
            lemma_div_pos_is_pos(j, plane);
            let y = w / width;
            let x = w % width;
            lemma_fundamental_div_mod(w, width);
            lemma_mod_pos_bound(w, width);
            lemma_div_pos_is_pos(w, width);
            assert(0 <= y < height) by (nonlinear_arith)
                requires
                    w == width * y + x,
                    0 <= x < width,
                    0 <= w < plane,
                    plane == width * height,
                    0 <= y,
            ;
            assert(j == x + y * width + r * (height * width)) by (nonlinear_arith)
                requires
                    j == plane * r + w,
                    w == width * y + x,
                    plane == width * height,
            ;
            lemma_transpose_source(height, width, r, y, x);
            lemma_transpose_source(width, height, r, x, y);
            lemma_transpose_source_bound(j, height, width, data.len() as int);
        }
        assert(twice =~= data);
    } else {
        assert(data.len() == 0) by (nonlinear_arith)
            requires
                data.len() == (width * height) * (t.sizes[2] * t.sizes[3]),
                !(width > 0 && height > 0),
                width >= 0,
                height >= 0,
        ;
        assert(twice =~= data);
    }
}

/// Row `k` of an embedding is the row of the embedding table at the id
/// `ids[k]`: the element at column `c` of it is the element at position
/// `ids[k] * row_len + c` of the table.
pub proof fn lemma_gathered_rows_index<T>(data: Seq<T>, ids: Seq<u8>, row_len: int, k: int, c: int)
    requires
        0 <= row_len,
        0 <= k < ids.len(),
        0 <= c < row_len,
        forall|i: int| 0 <= i < ids.len() ==> #[trigger] ids[i] * row_len + row_len <= data.len(),
    ensures
        gathered_rows(data, ids, row_len).len() == ids.len() * row_len,
        gathered_rows(data, ids, row_len)[k * row_len + c] == data[ids[k] * row_len + c],
    decreases ids.len(),
{
    let rest = ids.drop_last();
    let last = ids.len() - 1;
    assert(ids[last] * row_len + row_len <= data.len());
    assert(0 <= ids[last] * row_len) by (nonlinear_arith)
        requires
            0 <= row_len,
            0 <= ids[last],
    ;
    if k < last {
        lemma_gathered_rows_index(data, rest, row_len, k, c);
        assert(rest[k] == ids[k]);
        assert(k * row_len + c < rest.len() * row_len) by (nonlinear_arith)
            requires
                0 <= k < rest.len(),
                0 <= c < row_len,
        ;
    } else {
        if rest.len() > 0 {
            lemma_gathered_rows_index(data, rest, row_len, 0, 0);
        } else {
            lemma_gathered_rows_len(data, rest, row_len);
        }
        assert(k * row_len == rest.len() * row_len);
    }
    assert(ids.len() * row_len == rest.len() * row_len + row_len) by (nonlinear_arith)
        requires
            ids.len() == rest.len() + 1,
    ;
}

/// The rows gathered for `ids` hold `row_len` elements per id.
proof fn lemma_gathered_rows_len<T>(data: Seq<T>, ids: Seq<u8>, row_len: int)
    requires
        0 <= row_len,
        forall|i: int| 0 <= i < ids.len() ==> #[trigger] ids[i] * row_len + row_len <= data.len(),
    ensures
        gathered_rows(data, ids, row_len).len() == ids.len() * row_len,
    decreases ids.len(),
{
    if ids.len() > 0 {
        let rest = ids.drop_last();
        let last = ids.len() - 1;
        assert(ids[last] * row_len + row_len <= data.len());
        assert(0 <= ids[last] * row_len) by (nonlinear_arith)
            requires
                0 <= row_len,
                0 <= ids[last],
        ;
        assert forall|i: int| 0 <= i < rest.len() implies #[trigger] rest[i] * row_len + row_len <= data.len() by {
            assert(rest[i] == ids[i]);
        }
        lemma_gathered_rows_len(data, rest, row_len);
        assert(ids.len() * row_len == rest.len() * row_len + row_len) by (nonlinear_arith)
            requires
                ids.len() == rest.len() + 1,
        ;
    }
}

/// The position in the data of the element at column `x` and row `y` of the
/// first matrix of a tensor whose rows are `row_stride` apart.
pub open spec fn flat_index(x: int, y: int, row_stride: int) -> int {
    x + y * row_stride
}

/// `j` is the position of an element above the diagonal (column greater than
/// row) of the first matrix of a tensor, among those whose row is before `y`,
/// or is `y` with a column before `x`; the matrix has `width` columns and rows
/// `row_stride` apart.
pub open spec fn masked_before(j: int, width: int, row_stride: int, y: int, x: int) -> bool {
    exists|xx: int, yy: int|
        #![trigger flat_index(xx, yy, row_stride)]
        0 <= yy < xx < width && (yy < y || (yy == y && xx < x)) && j == flat_index(xx, yy, row_stride)
}

/// `j` is the position of an element above the diagonal of the first matrix of
/// a tensor with `width` columns, `height` rows and rows `row_stride` apart.
pub open spec fn is_masked(j: int, width: int, height: int, row_stride: int) -> bool {
    masked_before(j, width, row_stride, height, 0)
}

/// Hides the future from attention scores: every element of the first matrix of
/// `scores` whose column is greater than its row becomes `fill`; every other
/// element stays as it was.
pub fn mask_future<T: Copy>(scores: &mut Tensor<T>, fill: T)
    requires
        forall|x: int, y: int|
            0 <= y < old(scores).sizes[1] && y < x < old(scores).sizes[0] ==> #[trigger] flat_index(
                x,
                y,
                old(scores).strides[1] as int,
            ) < old(scores).data@.len(),
    ensures
        final(scores).sizes == old(scores).sizes,
        final(scores).strides == old(scores).strides,
        final(scores).data@.len() == old(scores).data@.len(),
        forall|x: int, y: int|
            0 <= y < old(scores).sizes[1] && y < x < old(scores).sizes[0] ==> #[trigger] final(scores).data@[x
                + y * old(scores).strides[1]] == fill,
        0 < old(scores).strides[1] && old(scores).sizes[0] <= old(scores).strides[1] ==> forall|j: int|
            0 <= j < old(scores).data@.len() && !(j / (old(scores).strides[1] as int)
                < old(scores).sizes[1] && j % (old(scores).strides[1] as int) < old(scores).sizes[0]
                && j / (old(scores).strides[1] as int) < j % (old(scores).strides[1] as int))
                ==> #[trigger] final(scores).data@[j] == old(scores).data@[j],
        forall|j: int|
            0 <= j < final(scores).data@.len() ==> #[trigger] final(scores).data@[j] == if is_masked(
                j,
                old(scores).sizes[0] as int,
                old(scores).sizes[1] as int,
                old(scores).strides[1] as int,
            ) {
                fill
            } else {
                old(scores).data@[j]
            },
{
    let width: usize = scores.sizes[0];
    let height: usize = scores.sizes[1];
    let row_stride: usize = scores.strides[1];
    let total: usize = scores.data.len();
    let ghost original = scores.data@;
    for y in 0..height
        invariant
            total == original.len(),
            width == scores.sizes[0],
            height == scores.sizes[1],
            row_stride == scores.strides[1],
            scores.sizes == old(scores).sizes,
            scores.strides == old(scores).strides,
            original == old(scores).data@,
            scores.data@.len() == original.len(),
            forall|x: int, y: int|
                0 <= y < height && y < x < width ==> #[trigger] flat_index(x, y, row_stride as int)
                    < original.len(),
            forall|j: int|
                0 <= j < original.len() ==> #[trigger] scores.data@[j] == if masked_before(
                    j,
                    width as int,
                    row_stride as int,
                    y as int,
                    0,
                ) {
                    fill
                } else {
                    original[j]
                },
    {
        for x in 0..width
            invariant
                width == scores.sizes[0],
                height == scores.sizes[1],
                row_stride == scores.strides[1],
                scores.sizes == old(scores).sizes,
                scores.strides == old(scores).strides,
                y < height,
                total == original.len(),
                scores.data@.len() == original.len(),
                forall|x: int, y: int|
                    0 <= y < height && y < x < width ==> #[trigger] flat_index(x, y, row_stride as int)
                        < original.len(),
                forall|j: int|
                    0 <= j < original.len() ==> #[trigger] scores.data@[j] == if masked_before(
                        j,
                        width as int,
                        row_stride as int,
                        y as int,
                        x as int,
                    ) {
                        fill
                    } else {
                        original[j]
                    },
        {
            let ghost before = scores.data@;
            if x > y {
                assert(flat_index(x as int, y as int, row_stride as int) < original.len());
                let p: usize = x + y * row_stride;
                scores.data.set(p, fill);
                assert forall|j: int| 0 <= j < original.len() implies #[trigger] scores.data@[j] == if masked_before(
                    j,
                    width as int,
                    row_stride as int,
                    y as int,
                    x + 1,
                ) {
                    fill
                } else {
                    original[j]
                } by {
                    if j == p {
                        assert(flat_index(x as int, y as int, row_stride as int) == j);
                    } else {
                        lemma_masked_before_step(j, width as int, row_stride as int, y as int, x as int);
                    }
                }
            } else {
                assert forall|j: int| 0 <= j < original.len() implies #[trigger] scores.data@[j] == if masked_before(
                    j,
                    width as int,
                    row_stride as int,
                    y as int,
                    x + 1,
                ) {
                    fill
                } else {
                    original[j]
                } by {
                    lemma_masked_before_step(j, width as int, row_stride as int, y as int, x as int);
                }
            }
        }
        assert forall|j: int| 0 <= j < original.len() implies #[trigger] scores.data@[j] == if masked_before(
            j,
            width as int,
            row_stride as int,
            y + 1,
            0,
        ) {
            fill
        } else {
            original[j]
        } by {
            lemma_masked_before_next_row(j, width as int, row_stride as int, y as int);
        }
    }
    if 0 < row_stride && width <= row_stride {
        assert forall|j: int|
            0 <= j < original.len() && !(j / (row_stride as int) < height && j % (row_stride as int)
                < width && j / (row_stride as int) < j % (row_stride as int))
            implies #[trigger] scores.data@[j] == original[j] by {
            lemma_mask_exact(j, width as int, height as int, row_stride as int);
        }
    }
    assert forall|x: int, y: int|
        0 <= y < height && y < x < width implies #[trigger] scores.data@[x + y * row_stride] == fill by {
        lemma_mask_covers_future(x, y, width as int, height as int, row_stride as int);
        assert(flat_index(x, y, row_stride as int) < original.len());
        assert(0 <= x + y * row_stride) by (nonlinear_arith)
            requires
                0 <= x,
                0 <= y,
        ;
    }
}

/// Every element above the diagonal is masked: the element at column `x` and
/// row `y`, for any row inside the matrix and any column to the right of it.
pub proof fn lemma_mask_covers_future(x: int, y: int, width: int, height: int, row_stride: int)
    requires
        0 <= y < height,
        y < x < width,
    ensures
        is_masked(x + y * row_stride, width, height, row_stride),
{
    assert(flat_index(x, y, row_stride) == x + y * row_stride);
}

/// When rows do not overlap (the row stride is at least the width), the masked
/// positions are exactly those whose row, `j / row_stride`, lies in the matrix
/// and whose column, `j % row_stride`, lies in the matrix and is greater than
/// the row: nothing on or below the diagonal, and nothing outside the matrix, is
/// masked.
pub proof fn lemma_mask_exact(j: int, width: int, height: int, row_stride: int)
    requires
        0 <= j,
        0 <= width <= row_stride,
        0 < row_stride,
    ensures
        is_masked(j, width, height, row_stride) <==> (j / row_stride < height && j % row_stride
            < width && j / row_stride < j % row_stride),
{
    lemma_fundamental_div_mod(j, row_stride);
    lemma_mod_pos_bound(j, row_stride);
    lemma_div_pos_is_pos(j, row_stride);
    if is_masked(j, width, height, row_stride) {
        let (xx, yy) = choose|xx: int, yy: int|
            #![trigger flat_index(xx, yy, row_stride)]
            0 <= yy < xx < width && (yy < height || (yy == height && xx < 0)) && j == flat_index(xx, yy, row_stride);
        assert(j == yy * row_stride + xx);
        lemma_fundamental_div_mod_converse(j, row_stride, yy, xx);
    }
    let y = j / row_stride;
    let x = j % row_stride;
    if y < height && x < width && y < x {
        assert(j == flat_index(x, y, row_stride)) by (nonlinear_arith)
            requires
                j == row_stride * y + x,
        ;
        assert(masked_before(j, width, row_stride, height, 0));
    }
}

/// Moving one column further along a row adds at most the element at that column.
proof fn lemma_masked_before_step(j: int, width: int, row_stride: int, y: int, x: int)
    requires
        0 <= y,
        0 <= x < width,
    ensures
        masked_before(j, width, row_stride, y, x + 1) <==> (masked_before(j, width, row_stride, y, x)
            || (y < x && j == flat_index(x, y, row_stride))),
{
    if masked_before(j, width, row_stride, y, x + 1) {
        let (xx, yy) = choose|xx: int, yy: int|
            #![trigger flat_index(xx, yy, row_stride)]
            0 <= yy < xx < width && (yy < y || (yy == y && xx < x + 1)) && j == flat_index(xx, yy, row_stride);
        if !(yy == y && xx == x) {
            assert(masked_before(j, width, row_stride, y, x));
        }
    }
    if masked_before(j, width, row_stride, y, x) {
        let (xx, yy) = choose|xx: int, yy: int|
            #![trigger flat_index(xx, yy, row_stride)]
            0 <= yy < xx < width && (yy < y || (yy == y && xx < x)) && j == flat_index(xx, yy, row_stride);
        assert(masked_before(j, width, row_stride, y, x + 1));
    }
    if y < x && j == flat_index(x, y, row_stride) {
        assert(masked_before(j, width, row_stride, y, x + 1));
    }
}

/// A whole row done is the same as the next row not yet begun.
proof fn lemma_masked_before_next_row(j: int, width: int, row_stride: int, y: int)
    requires
        0 <= y,
        0 <= width,
    ensures
        masked_before(j, width, row_stride, y, width) <==> masked_before(j, width, row_stride, y + 1, 0),
{
    if masked_before(j, width, row_stride, y, width) {
        let (xx, yy) = choose|xx: int, yy: int|
            #![trigger flat_index(xx, yy, row_stride)]
            0 <= yy < xx < width && (yy < y || (yy == y && xx < width)) && j == flat_index(xx, yy, row_stride);
        assert(masked_before(j, width, row_stride, y + 1, 0));
    }
    if masked_before(j, width, row_stride, y + 1, 0) {
        let (xx, yy) = choose|xx: int, yy: int|
            #![trigger flat_index(xx, yy, row_stride)]
            0 <= yy < xx < width && (yy < y + 1 || (yy == y + 1 && xx < 0)) && j == flat_index(xx, yy, row_stride);
        assert(masked_before(j, width, row_stride, y, width));
    }
}

} // verus!
