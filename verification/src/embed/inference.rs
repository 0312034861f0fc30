//! The integer side of running the embedding model: which model output is
//! read, whether the model takes token types, how texts are batched, how
//! the token rows of a batch are padded into the model's input, and which
//! part of the output belongs to each text.
//!
//! Tokenizing, inference and the floating-point pooling and normalising are
//! the caller's part; they are handed the shapes and ranges decided here.
use vstd::prelude::*;

use crate::embed::{EmbedError, Pooling};
use crate::text::{append_str, push_usize, str_eq, string_of, string_views};

verus! {

/// Texts are embedded in batches of at most this many.
pub const BATCH_LIMIT: usize = 32;

/// The output read from the model: `sentence_embedding` (already pooled)
/// when there is one, else `last_hidden_state`, else the first output;
/// `None` when the model has no output.
pub open spec fn output_choice(names: Seq<Seq<char>>) -> Option<Seq<char>> {
    if names.contains("sentence_embedding"@) {
        Some("sentence_embedding"@)
    } else if names.contains("last_hidden_state"@) {
        Some("last_hidden_state"@)
    } else if names.len() > 0 {
        Some(names[0])
    } else {
        None
    }
}

/// Whether `names` holds `name`.
fn has_name(names: &[String], name: &str) -> (r: bool)
    ensures
        r == string_views(names@).contains(name@),
{
    let ghost v = string_views(names@);
    let mut i: usize = 0;
    while i < names.len()
        invariant
            i <= names.len(),
            v == string_views(names@),
            forall|k: int| 0 <= k < i ==> #[trigger] v[k] != name@,
        decreases names.len() - i,
    {
        proof {
            assert(v[i as int] == names@[i as int]@);
        }
        if str_eq(names[i].as_str(), name) {
            proof {
                assert(v.contains(name@));
            }
            return true;
        }
        i = i + 1;
    }
    proof {
        if v.contains(name@) {
            let k = choose|k: int| 0 <= k < v.len() && v[k] == name@;
            assert(v[k] != name@);
        }
    }
    false
}

/// Picks the output to read from the model's output names (see
/// `output_choice`); a model without outputs is refused.
pub fn pick_output_name(names: &[String]) -> (r: Result<String, EmbedError>)
    ensures
        match output_choice(string_views(names@)) {
            Some(n) => r matches Ok(s) && s@ == n,
            None => r matches Err(EmbedError::BadOutput(m)) && m@ == "模型没有任何输出"@,
        },
{
    if has_name(names, "sentence_embedding") {
        Ok("sentence_embedding".to_string())
    } else if has_name(names, "last_hidden_state") {
        Ok("last_hidden_state".to_string())
    } else if names.len() > 0 {
        proof {
            assert(string_views(names@)[0] == names@[0]@);
        }
        Ok(names[0].clone())
    } else {
        Err(EmbedError::BadOutput("模型没有任何输出".to_string()))
    }
}

/// Whether the model takes a `token_type_ids` input.
pub fn needs_token_type_ids(input_names: &[String]) -> (r: bool)
    ensures
        r == string_views(input_names@).contains("token_type_ids"@),
{
    has_name(input_names, "token_type_ids")
}

/// The batches of `n` texts: consecutive ranges of at most `BATCH_LIMIT`,
/// in order.
pub open spec fn batch_ranges(n: nat) -> Seq<(int, int)>
    decreases n,
{
    if n == 0 {
        Seq::empty()
    } else {
        let last = ((n - 1) / (BATCH_LIMIT as int)) * (BATCH_LIMIT as int);
        batch_ranges(last as nat).push((last, n as int))
    }
}

/// The batches of `n` texts as `(start, end)` ranges (see `batch_ranges`).
pub fn batches(n: usize) -> (r: Vec<(usize, usize)>)
    ensures
        r@.map_values(|p: (usize, usize)| (p.0 as int, p.1 as int)) == batch_ranges(n as nat),
{
    let mut r: Vec<(usize, usize)> = Vec::new();
    let mut start: usize = 0;
    proof {
        assert(r@.map_values(|p: (usize, usize)| (p.0 as int, p.1 as int)) =~= batch_ranges(0));
    }
    while start < n
        invariant
            start <= n,
            start == n || start % BATCH_LIMIT == 0,
            r@.map_values(|p: (usize, usize)| (p.0 as int, p.1 as int)) == batch_ranges(start as nat),
        decreases n - start,
    {
        let end = if n - start > BATCH_LIMIT {
            start + BATCH_LIMIT
        } else {
            n
        };
        let ghost before = r@.map_values(|p: (usize, usize)| (p.0 as int, p.1 as int));
        r.push((start, end));
        proof {
            assert(((end - 1) / (BATCH_LIMIT as int)) * (BATCH_LIMIT as int) == start) by (nonlinear_arith)
                requires
                    start % 32 == 0,
                    start < end <= start + 32,
                    BATCH_LIMIT == 32,
            ;
            assert(r@.map_values(|p: (usize, usize)| (p.0 as int, p.1 as int)) =~= before.push(
                (start as int, end as int),
            ));
            if end < n {
                assert(end % BATCH_LIMIT == 0) by (nonlinear_arith)
                    requires
                        start % 32 == 0,
                        end == start + 32,
                        BATCH_LIMIT == 32,
                ;
            }
        }
        start = end;
    }
    r
}

/// The token rows of a batch, by content.
pub open spec fn rows_view(rows: Seq<Vec<u32>>) -> Seq<Seq<u32>> {
    rows.map_values(|r: Vec<u32>| r@)
}

/// The length of the longest row.
pub open spec fn longest(rows: Seq<Seq<u32>>) -> nat
    decreases rows.len(),
{
    if rows.len() == 0 {
        0
    } else {
        let p = longest(rows.drop_last());
        if rows.last().len() > p {
            rows.last().len()
        } else {
            p
        }
    }
}

/// The width of a batch: the longest row, at least one.
pub open spec fn batch_width(rows: Seq<Seq<u32>>) -> nat {
    if longest(rows) == 0 {
        1
    } else {
        longest(rows)
    }
}

/// A row padded with zeros to `width`.
pub open spec fn padded_row(row: Seq<u32>, width: nat) -> Seq<i64> {
    Seq::new(width, |j: int| if j < row.len() { row[j] as i64 } else { 0i64 })
}

/// No row is longer than the longest.
proof fn lemma_longest(rows: Seq<Seq<u32>>, i: int)
    requires
        0 <= i < rows.len(),
    ensures
        rows[i].len() <= longest(rows),
    decreases rows.len(),
{
    if i < rows.len() - 1 {
        lemma_longest(rows.drop_last(), i);
    }
}

/// The model input of a batch: token ids, attention mask and token types,
/// one row per text, each `width` long.
pub struct BatchInputs {
    /// The common row length.
    pub width: usize,
    /// Token ids, zero-padded.
    pub ids: Vec<Vec<i64>>,
    /// Attention mask, zero-padded.
    pub mask: Vec<Vec<i64>>,
    /// Token types, zero-padded; all zero when the model takes none.
    pub types: Vec<Vec<i64>>,
}

/// `row` up to `n` entries, zero-padded to `width`.
fn pad_row(row: &Vec<u32>, n: usize, width: usize) -> (r: Vec<i64>)
    requires
        n <= row.len(),
        n <= width,
    ensures
        r@ == padded_row(row@.take(n as int), width as nat),
{
    let mut r: Vec<i64> = Vec::new();
    let mut j: usize = 0;
    while j < width
        invariant
            j <= width,
            n <= row.len(),
            n <= width,
            r@ == padded_row(row@.take(n as int), width as nat).take(j as int),
        decreases width - j,
    {
        let v: i64 = if j < n {
            row[j] as i64
        } else {
            0
        };
        r.push(v);
        proof {
            assert(r@ =~= padded_row(row@.take(n as int), width as nat).take(j + 1));
        }
        j = j + 1;
    }
    proof {
        assert(padded_row(row@.take(n as int), width as nat).take(j as int) =~= padded_row(
            row@.take(n as int),
            width as nat,
        ));
    }
    r
}

/// Lays the tokenized texts of a batch out as the model's input: the width
/// is the longest row (at least one); each row holds the token ids, the
/// attention mask and (when `with_types`) the token types of its text for as
/// many positions as the text has tokens, and zeros after them.
pub fn batch_inputs(ids: &[Vec<u32>], masks: &[Vec<u32>], types: &[Vec<u32>], with_types: bool) -> (r: BatchInputs)
    requires
        masks.len() == ids.len(),
        types.len() == ids.len(),
        forall|i: int| 0 <= i < ids.len() ==> (#[trigger] masks[i]).len() >= ids[i].len(),
        with_types ==> forall|i: int| 0 <= i < ids.len() ==> (#[trigger] types[i]).len() >= ids[i].len(),
    ensures
        r.width == batch_width(rows_view(ids@)),
        r.ids.len() == ids.len() && r.mask.len() == ids.len() && r.types.len() == ids.len(),
        forall|i: int| 0 <= i < ids.len() ==> (#[trigger] r.ids[i])@ == padded_row(ids[i]@, r.width as nat),
        forall|i: int|
            0 <= i < ids.len() ==> (#[trigger] r.mask[i])@ == padded_row(masks[i]@.take(ids[i].len() as int), r.width as nat),
        forall|i: int|
            0 <= i < ids.len() ==> (#[trigger] r.types[i])@ == if with_types {
                padded_row(types[i]@.take(ids[i].len() as int), r.width as nat)
            } else {
                padded_row(Seq::empty(), r.width as nat)
            },
{
    let ghost rv = rows_view(ids@);
    let mut longest_len: usize = 0;
    let mut k: usize = 0;
    while k < ids.len()
        invariant
            k <= ids.len(),
            rv == rows_view(ids@),
            longest_len == longest(rv.take(k as int)),
        decreases ids.len() - k,
    {
        proof {
            assert(rv.take(k + 1).drop_last() =~= rv.take(k as int));
            assert(rv.take(k + 1).last() == ids@[k as int]@);
        }
        if ids[k].len() > longest_len {
            longest_len = ids[k].len();
        }
        k = k + 1;
    }
    proof {
        assert(rv.take(k as int) =~= rv);
    }
    let width = if longest_len == 0 {
        1
    } else {
        longest_len
    };
    let empty: Vec<u32> = Vec::new();
    let mut out_ids: Vec<Vec<i64>> = Vec::new();
    let mut out_mask: Vec<Vec<i64>> = Vec::new();
    let mut out_types: Vec<Vec<i64>> = Vec::new();
    let mut i: usize = 0;
    while i < ids.len()
        invariant
            i <= ids.len(),
            masks.len() == ids.len(),
            types.len() == ids.len(),
            forall|q: int| 0 <= q < ids.len() ==> (#[trigger] masks[q]).len() >= ids[q].len(),
            with_types ==> forall|q: int| 0 <= q < ids.len() ==> (#[trigger] types[q]).len() >= ids[q].len(),
            rv == rows_view(ids@),
            width == batch_width(rv),
            longest_len == longest(rv),
            empty@.len() == 0,
            out_ids.len() == i && out_mask.len() == i && out_types.len() == i,
            forall|q: int| 0 <= q < i ==> (#[trigger] out_ids[q])@ == padded_row(ids[q]@, width as nat),
            forall|q: int|
                0 <= q < i ==> (#[trigger] out_mask[q])@ == padded_row(masks[q]@.take(ids[q].len() as int), width as nat),
            forall|q: int|
                0 <= q < i ==> (#[trigger] out_types[q])@ == if with_types {
                    padded_row(types[q]@.take(ids[q].len() as int), width as nat)
                } else {
                    padded_row(Seq::empty(), width as nat)
                },
        decreases ids.len() - i,
    {
        let n = ids[i].len();
        proof {
            assert(rv[i as int] == ids@[i as int]@);
            lemma_longest(rv, i as int);
            assert(ids[i as int]@.take(n as int) =~= ids[i as int]@);
            assert(empty@.take(0) =~= Seq::<u32>::empty());
        }
        out_ids.push(pad_row(&ids[i], n, width));
        out_mask.push(pad_row(&masks[i], n, width));
        if with_types {
            out_types.push(pad_row(&types[i], n, width));
        } else {
            out_types.push(pad_row(&empty, 0, width));
        }
        i = i + 1;
    }
    BatchInputs { width, ids: out_ids, mask: out_mask, types: out_types }
}

/// The rank of an output the model may return, as refused otherwise.
pub open spec fn rank_error_text(name: Seq<char>, rank: nat) -> Seq<char> {
    "输出 `"@ + name + "` 的秩为 "@ + crate::text::decimal(rank) + "，期望 2（已池化）或 3（逐 token）"@
}

/// How the output tensor is laid out: `(tokens per text, dimension)`. A
/// rank-2 output `[batch, dim]` is already pooled (one row per text); a
/// rank-3 output `[batch, tokens, dim]` has a row per token.
pub open spec fn layout_of(shape: Seq<i64>) -> Option<(usize, usize)> {
    if shape.len() == 2 {
        Some((1usize, shape[1] as usize))
    } else if shape.len() == 3 {
        Some((shape[1] as usize, shape[2] as usize))
    } else {
        None
    }
}

/// Reads the layout of the output `name` from its shape (see `layout_of`);
/// any other rank is refused.
pub fn output_layout(shape: &[i64], name: &str) -> (r: Result<(usize, usize), EmbedError>)
    ensures
        match layout_of(shape@) {
            Some(l) => r matches Ok(x) && x == l,
            None => r matches Err(EmbedError::BadOutput(m)) && m@ == rank_error_text(name@, shape@.len()),
        },
{
    if shape.len() == 2 {
        Ok((1, shape[1] as usize))
    } else if shape.len() == 3 {
        Ok((shape[1] as usize, shape[2] as usize))
    } else {
        let mut buf: Vec<char> = Vec::new();
        append_str(&mut buf, "输出 `");
        append_str(&mut buf, name);
        append_str(&mut buf, "` 的秩为 ");
        push_usize(shape.len(), &mut buf);
        append_str(&mut buf, "，期望 2（已池化）或 3（逐 token）");
        Err(EmbedError::BadOutput(string_of(buf.as_slice())))
    }
}

/// Where the output of text `i` lies in the flat output data: the `seq`
/// rows of `dim` values that start at `i * seq * dim`; an output too short
/// for it is refused.
pub fn text_block(i: usize, seq: usize, dim: usize, data_len: usize, name: &str) -> (r: Result<(usize, usize), EmbedError>)
    requires
        (i + 1) * seq * dim <= usize::MAX,
    ensures
        (i + 1) * seq * dim <= data_len ==> (r matches Ok(b) && b.0 == i * seq * dim && b.1 == (i + 1) * seq * dim),
        (i + 1) * seq * dim > data_len ==> (r matches Err(EmbedError::BadOutput(m)) && m@ == "输出 `"@ + name@
            + "` 数据长度不足"@),
{
    proof {
        assert(i * seq * dim + seq * dim == (i + 1) * seq * dim) by (nonlinear_arith);
        assert(0 <= i * seq * dim <= (i + 1) * seq * dim) by (nonlinear_arith);
        assert(0 <= seq * dim <= (i + 1) * seq * dim) by (nonlinear_arith);
    }
    proof {
        assert(i * (seq * dim) == i * seq * dim) by (nonlinear_arith);
    }
    let block = seq * dim;
    let start = i * block;
    let end = start + block;
    if end <= data_len {
        Ok((start, end))
    } else {
        let mut buf: Vec<char> = Vec::new();
        append_str(&mut buf, "输出 `");
        append_str(&mut buf, name);
        append_str(&mut buf, "` 数据长度不足");
        Err(EmbedError::BadOutput(string_of(buf.as_slice())))
    }
}

/// Which part of a text's output block makes its vector.
#[derive(Debug, Clone, Copy, PartialEq, Eq, Structural)]
pub enum RowSource {
    /// The whole block (a pooled output).
    Whole,
    /// The first `dim` values: the `[CLS]` token's row.
    FirstToken,
    /// The mean of the token rows the attention mask keeps.
    MaskedMean,
}

/// A pooled output is taken whole; a per-token output is pooled as the
/// model directory says.
pub fn row_source(rank: usize, pooling: Pooling) -> (r: RowSource)
    ensures
        rank == 2 ==> r == RowSource::Whole,
        rank != 2 && pooling == Pooling::Cls ==> r == RowSource::FirstToken,
        rank != 2 && pooling == Pooling::Mean ==> r == RowSource::MaskedMean,
{
    if rank == 2 {
        RowSource::Whole
    } else {
        match pooling {
            Pooling::Cls => RowSource::FirstToken,
            Pooling::Mean => RowSource::MaskedMean,
        }
    }
}

} // verus!
