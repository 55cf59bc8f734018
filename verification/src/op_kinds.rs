//! Best-effort mapping from MLX shader function names to canonical op kinds.
//!
//! The kinds are meant for display. The table is MLX-version-sensitive and
//! meant to evolve as MLX adds or renames shaders.

use crate::text::{
    begins, chars_of, ends_with, find_from, finishes, position, starts_with,
};
use vstd::prelude::*;

verus! {

broadcast use vstd::string::group_string_axioms;

/// Name prefixes and their kinds. Earlier entries take priority.
///
/// MLX mostly glues the element type straight onto the base name
/// (`layer_normbfloat16`), so prefixes deliberately omit a trailing
/// underscore.
pub open spec fn kind_table() -> Seq<(Seq<char>, Seq<char>)> {
    seq![
        ("quantized_matmul"@, "QuantizedMatmul"@),
        ("affine_qmm"@, "QuantizedMatmul"@),
        ("qmv"@, "QuantizedMatmul"@),
        ("qvm"@, "QuantizedMatmul"@),
        ("qmm"@, "QuantizedMatmul"@),
        ("steel_gemm"@, "Matmul"@),
        ("gemm"@, "Matmul"@),
        ("gemv"@, "Matmul"@),
        ("steel_attention"@, "ScaledDotProductAttention"@),
        ("sdpa"@, "ScaledDotProductAttention"@),
        ("block_softmax"@, "Softmax"@),
        ("softmax"@, "Softmax"@),
        ("rms_norm"@, "RMSNorm"@),
        ("layer_norm"@, "LayerNorm"@),
        ("gelu"@, "GeLU"@),
        ("silu"@, "SiLU"@),
        ("rope"@, "RoPE"@),
        ("implicit_gemm_conv"@, "Conv"@),
        ("winograd_conv"@, "Conv"@),
        ("conv2d"@, "Conv2d"@),
        ("conv"@, "Conv"@),
        ("all_reduce"@, "Reduce"@),
        ("row_reduce"@, "Reduce"@),
        ("col_reduce"@, "Reduce"@),
        ("reduce"@, "Reduce"@),
        ("contig_scan"@, "Scan"@),
        ("scan"@, "Scan"@),
        ("sort"@, "Sort"@),
        ("gather"@, "Gather"@),
        ("scatter"@, "Scatter"@),
        ("arange"@, "Arange"@),
        ("rbits"@, "Random"@),
        ("copy"@, "Copy"@),
        ("affine_quantize"@, "Quantize"@),
        ("quantize"@, "Quantize"@),
        ("dequantize"@, "Dequantize"@),
    ]
}

/// The kind of the first entry of the table, at or behind `i`, whose prefix
/// `symbol` has.
pub open spec fn table_kind(symbol: Seq<char>, i: int) -> Option<Seq<char>>
    decreases kind_table().len() - i,
{
    if i < 0 || i >= kind_table().len() {
        None
    } else if starts_with(symbol, kind_table()[i].0) {
        Some(kind_table()[i].1)
    } else {
        table_kind(symbol, i + 1)
    }
}

/// A letter or digit of a layout code.
pub open spec fn is_layout_char(c: char) -> bool {
    c == 'g' || c == 's' || c == 'v' || c == 'n' || '0' <= c <= '9'
}

/// `s` looks like a layout code of an elementwise or copy kernel: `g`, `g2`,
/// `vvn`, `gn1` and the like.
pub open spec fn is_layout(s: Seq<char>) -> bool {
    s.len() > 0 && forall|k: int| 0 <= k < s.len() ==> is_layout_char(#[trigger] s[k])
}

/// `symbol` is `<layout>_copy` and an element type.
pub open spec fn is_copy(symbol: Seq<char>) -> bool {
    match position(symbol, "_copy"@) {
        Some(i) => is_layout(symbol.take(i)),
        None => false,
    }
}

/// `symbol` is `<layout>_` and a name in camel case.
pub open spec fn is_elementwise(symbol: Seq<char>) -> bool {
    match position(symbol, "_"@) {
        Some(i) => is_layout(symbol.take(i)) && i + 1 < symbol.len() && 'A' <= symbol[i + 1]
            <= 'Z',
        None => false,
    }
}

/// The kind of a shader function name.
pub open spec fn kind_of(symbol: Seq<char>) -> Option<Seq<char>> {
    if table_kind(symbol, 0) is Some {
        table_kind(symbol, 0)
    } else if is_copy(symbol) {
        Some("Copy"@)
    } else if is_elementwise(symbol) {
        Some("Elementwise"@)
    } else if ends_with(symbol, "_contiguous"@) || ends_with(symbol, "_strided"@) {
        Some("FusedElementwise"@)
    } else {
        None
    }
}

/// The table of prefixes and kinds.
pub fn table() -> (t: Vec<(&'static str, &'static str)>)
    ensures
        t@.len() == kind_table().len(),
        forall|i: int|
            0 <= i < t@.len() ==> (#[trigger] t@[i]).0@ == kind_table()[i].0 && t@[i].1@
                == kind_table()[i].1,
{
    vec![
        ("quantized_matmul", "QuantizedMatmul"),
        ("affine_qmm", "QuantizedMatmul"),
        ("qmv", "QuantizedMatmul"),
        ("qvm", "QuantizedMatmul"),
        ("qmm", "QuantizedMatmul"),
        ("steel_gemm", "Matmul"),
        ("gemm", "Matmul"),
        ("gemv", "Matmul"),
        ("steel_attention", "ScaledDotProductAttention"),
        ("sdpa", "ScaledDotProductAttention"),
        ("block_softmax", "Softmax"),
        ("softmax", "Softmax"),
        ("rms_norm", "RMSNorm"),
        ("layer_norm", "LayerNorm"),
        ("gelu", "GeLU"),
        ("silu", "SiLU"),
        ("rope", "RoPE"),
        ("implicit_gemm_conv", "Conv"),
        ("winograd_conv", "Conv"),
        ("conv2d", "Conv2d"),
        ("conv", "Conv"),
        ("all_reduce", "Reduce"),
        ("row_reduce", "Reduce"),
        ("col_reduce", "Reduce"),
        ("reduce", "Reduce"),
        ("contig_scan", "Scan"),
        ("scan", "Scan"),
        ("sort", "Sort"),
        ("gather", "Gather"),
        ("scatter", "Scatter"),
        ("arange", "Arange"),
        ("rbits", "Random"),
        ("copy", "Copy"),
        ("affine_quantize", "Quantize"),
        ("quantize", "Quantize"),
        ("dequantize", "Dequantize"),
    ]
}

/// Is the start of `v`, up to `end`, a layout code?
fn is_layout_prefix(v: &Vec<char>, end: usize) -> (r: bool)
    requires
        end <= v@.len(),
    ensures
        r == is_layout(v@.take(end as int)),
{
    if end == 0 {
        return false;
    }
    let mut k: usize = 0;
    while k < end
        invariant
            k <= end <= v@.len(),
            forall|m: int| 0 <= m < k ==> is_layout_char(#[trigger] v@[m]),
        decreases end - k,
    {
        let c: char = v[k];
        if !(c == 'g' || c == 's' || c == 'v' || c == 'n' || ('0' <= c && c <= '9')) {
            assert(v@.take(end as int)[k as int] == c);
            return false;
        }
        k = k + 1;
    }
    true
}

/// Maps an MLX shader function name to a canonical op kind. Returns `None` if
/// no pattern matches.
pub fn resolve_kind(symbol: &str) -> (r: Option<&'static str>)
    ensures
        match r {
            Some(k) => kind_of(symbol@) == Some(k@),
            None => kind_of(symbol@) is None,
        },
{
    let t = table();
    let mut i: usize = 0;
    while i < t.len()
        invariant
            i <= t@.len() == kind_table().len(),
            forall|i: int|
                0 <= i < t@.len() ==> (#[trigger] t@[i]).0@ == kind_table()[i].0 && t@[i].1@
                    == kind_table()[i].1,
            table_kind(symbol@, 0) == table_kind(symbol@, i as int),
        decreases t@.len() - i,
    {
        let (prefix, kind) = t[i];
        if begins(symbol, prefix) {
            return Some(kind);
        }
        i = i + 1;
    }
    proof {
        reveal_strlit("_copy");
        reveal_strlit("_");
    }
    let v = chars_of(symbol);
    // Copy family: g1_copy, gg2_copy, vn_copy, s_copy and the like.
    if let Some(at) = find_from(&v, &chars_of("_copy"), 0) {
        if is_layout_prefix(&v, at) {
            return Some("Copy");
        }
    }
    // Elementwise family: g2_Addbfloat16, vvn_Multiply, vsn_GreaterEqual.
    if let Some(at) = find_from(&v, &chars_of("_"), 0) {
        if is_layout_prefix(&v, at) && v.len() - at > 1 && 'A' <= v[at + 1] && v[at + 1] <= 'Z' {
            return Some("Elementwise");
        }
    }
    // Fused kernels: a mangled op chain, a digest and a layout suffix.
    if finishes(symbol, "_contiguous") || finishes(symbol, "_strided") {
        return Some("FusedElementwise");
    }
    None
}

/// No entry is shadowed: the prefix of an entry never begins with that of an
/// earlier one.
pub proof fn table_puts_specific_before_generic(i: int, j: int)
    requires
        0 <= i < j < kind_table().len(),
    ensures
        !starts_with(kind_table()[j].0, kind_table()[i].0),
{
    reveal_strlit("quantized_matmul");
    reveal_strlit("affine_qmm");
    reveal_strlit("qmv");
    reveal_strlit("qvm");
    reveal_strlit("qmm");
    reveal_strlit("steel_gemm");
    reveal_strlit("gemm");
    reveal_strlit("gemv");
    reveal_strlit("steel_attention");
    reveal_strlit("sdpa");
    reveal_strlit("block_softmax");
    reveal_strlit("softmax");
    reveal_strlit("rms_norm");
    reveal_strlit("layer_norm");
    reveal_strlit("gelu");
    reveal_strlit("silu");
    reveal_strlit("rope");
    reveal_strlit("implicit_gemm_conv");
    reveal_strlit("winograd_conv");
    reveal_strlit("conv2d");
    reveal_strlit("conv");
    reveal_strlit("all_reduce");
    reveal_strlit("row_reduce");
    reveal_strlit("col_reduce");
    reveal_strlit("reduce");
    reveal_strlit("contig_scan");
    reveal_strlit("scan");
    reveal_strlit("sort");
    reveal_strlit("gather");
    reveal_strlit("scatter");
    reveal_strlit("arange");
    reveal_strlit("rbits");
    reveal_strlit("copy");
    reveal_strlit("affine_quantize");
    reveal_strlit("quantize");
    reveal_strlit("dequantize");
    let (a, b) = (kind_table()[i].0, kind_table()[j].0);
    if starts_with(b, a) {
        let t = b.take(a.len() as int);
        assert(a.len() >= 3);
        assert(t[0] == b[0] && t[1] == b[1] && t[2] == b[2]);
        assert(a[0] == b[0] && a[1] == b[1] && a[2] == b[2]);
        if a.len() > 3 {
            assert(t[3] == b[3]);
            assert(a[3] == b[3]);
        }
        if a.len() > 8 {
            assert(t[8] == b[8]);
            assert(a[8] == b[8]);
        }
        assert(false);
    }
}

} // verus!
