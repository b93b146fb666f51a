//! The table of ggml tensor types: bytes and elements per block, and names.

use vstd::prelude::*;

use crate::text::{dec, push_dec};

verus! {

/// Bytes per block and elements per block of a ggml type. `None` for an id that is not known
/// or that the format has retired.
pub open spec fn block_of(id: u32) -> Option<(u64, u64)> {
    if id == 0 {
        Some((4, 1))
    } else if id == 1 {
        Some((2, 1))
    } else if id == 2 {
        Some((18, 32))
    } else if id == 3 {
        Some((20, 32))
    } else if id == 6 {
        Some((22, 32))
    } else if id == 7 {
        Some((24, 32))
    } else if id == 8 {
        Some((34, 32))
    } else if id == 9 {
        Some((36, 32))
    } else if id == 10 {
        Some((84, 256))
    } else if id == 11 {
        Some((110, 256))
    } else if id == 12 {
        Some((144, 256))
    } else if id == 13 {
        Some((176, 256))
    } else if id == 14 {
        Some((210, 256))
    } else if id == 15 {
        Some((292, 256))
    } else if id == 16 {
        Some((66, 256))
    } else if id == 17 {
        Some((74, 256))
    } else if id == 18 {
        Some((98, 256))
    } else if id == 19 {
        Some((50, 256))
    } else if id == 20 {
        Some((18, 32))
    } else if id == 21 {
        Some((110, 256))
    } else if id == 22 {
        Some((82, 256))
    } else if id == 23 {
        Some((136, 256))
    } else if id == 24 {
        Some((1, 1))
    } else if id == 25 {
        Some((2, 1))
    } else if id == 26 {
        Some((4, 1))
    } else if id == 27 {
        Some((8, 1))
    } else if id == 28 {
        Some((8, 1))
    } else if id == 29 {
        Some((56, 256))
    } else if id == 30 {
        Some((2, 1))
    } else if id == 34 {
        Some((54, 256))
    } else if id == 35 {
        Some((66, 256))
    } else if id == 39 {
        Some((17, 32))
    } else if id == 40 {
        Some((36, 64))
    } else if id == 41 {
        Some((18, 128))
    } else {
        None
    }
}

/// The name of a ggml type in reports.
pub open spec fn type_label(id: u32) -> Seq<char> {
    if id == 0 {
        "F32"@
    } else if id == 1 {
        "F16"@
    } else if id == 2 {
        "Q4_0"@
    } else if id == 3 {
        "Q4_1"@
    } else if id == 4 || id == 5 {
        "retired(Q4_2/Q4_3)"@
    } else if id == 6 {
        "Q5_0"@
    } else if id == 7 {
        "Q5_1"@
    } else if id == 8 {
        "Q8_0"@
    } else if id == 9 {
        "Q8_1"@
    } else if id == 10 {
        "Q2_K"@
    } else if id == 11 {
        "Q3_K"@
    } else if id == 12 {
        "Q4_K"@
    } else if id == 13 {
        "Q5_K"@
    } else if id == 14 {
        "Q6_K"@
    } else if id == 15 {
        "Q8_K"@
    } else if id == 16 {
        "IQ2_XXS"@
    } else if id == 17 {
        "IQ2_XS"@
    } else if id == 18 {
        "IQ3_XXS"@
    } else if id == 19 {
        "IQ1_S"@
    } else if id == 20 {
        "IQ4_NL"@
    } else if id == 21 {
        "IQ3_S"@
    } else if id == 22 {
        "IQ2_S"@
    } else if id == 23 {
        "IQ4_XS"@
    } else if id == 24 {
        "I8"@
    } else if id == 25 {
        "I16"@
    } else if id == 26 {
        "I32"@
    } else if id == 27 {
        "I64"@
    } else if id == 28 {
        "F64"@
    } else if id == 29 {
        "IQ1_M"@
    } else if id == 30 {
        "BF16"@
    } else if (31 <= id && id <= 33) || (36 <= id && id <= 38) {
        "retired"@
    } else if id == 34 {
        "TQ1_0"@
    } else if id == 35 {
        "TQ2_0"@
    } else if id == 39 {
        "MXFP4"@
    } else if id == 40 {
        "NVFP4"@
    } else if id == 41 {
        "Q1_0"@
    } else {
        "unknown("@ + dec(id as nat) + ")"@
    }
}

/// Bytes per block and elements per block of a ggml type.
pub fn ggml_type_blocksize(id: u32) -> (res: Option<(u64, u64)>)
    ensures
        res == block_of(id),
        res matches Some((bytes, elems)) ==> 1 <= bytes <= 292 && 1 <= elems <= 256,
{
    match id {
        0 => Some((4, 1)),
        1 => Some((2, 1)),
        2 => Some((18, 32)),
        3 => Some((20, 32)),
        4 | 5 => None,
        6 => Some((22, 32)),
        7 => Some((24, 32)),
        8 => Some((34, 32)),
        9 => Some((36, 32)),
        10 => Some((84, 256)),
        11 => Some((110, 256)),
        12 => Some((144, 256)),
        13 => Some((176, 256)),
        14 => Some((210, 256)),
        15 => Some((292, 256)),
        16 => Some((66, 256)),
        17 => Some((74, 256)),
        18 => Some((98, 256)),
        19 => Some((50, 256)),
        20 => Some((18, 32)),
        21 => Some((110, 256)),
        22 => Some((82, 256)),
        23 => Some((136, 256)),
        24 => Some((1, 1)),
        25 => Some((2, 1)),
        26 => Some((4, 1)),
        27 => Some((8, 1)),
        28 => Some((8, 1)),
        29 => Some((56, 256)),
        30 => Some((2, 1)),
        34 => Some((54, 256)),
        35 => Some((66, 256)),
        39 => Some((17, 32)),
        40 => Some((36, 64)),
        41 => Some((18, 128)),
        _ => None,
    }
}

/// The name of a ggml type in reports.
pub fn ggml_type_name(id: u32) -> (res: String)
    ensures
        res@ == type_label(id),
{
    let name = match id {
        0 => "F32",
        1 => "F16",
        2 => "Q4_0",
        3 => "Q4_1",
        4 | 5 => "retired(Q4_2/Q4_3)",
        6 => "Q5_0",
        7 => "Q5_1",
        8 => "Q8_0",
        9 => "Q8_1",
        10 => "Q2_K",
        11 => "Q3_K",
        12 => "Q4_K",
        13 => "Q5_K",
        14 => "Q6_K",
        15 => "Q8_K",
        16 => "IQ2_XXS",
        17 => "IQ2_XS",
        18 => "IQ3_XXS",
        19 => "IQ1_S",
        20 => "IQ4_NL",
        21 => "IQ3_S",
        22 => "IQ2_S",
        23 => "IQ4_XS",
        24 => "I8",
        25 => "I16",
        26 => "I32",
        27 => "I64",
        28 => "F64",
        29 => "IQ1_M",
        30 => "BF16",
        31 | 32 | 33 | 36 | 37 | 38 => "retired",
        34 => "TQ1_0",
        35 => "TQ2_0",
        39 => "MXFP4",
        40 => "NVFP4",
        41 => "Q1_0",
        _ => {
            let mut s = String::from_str("unknown(");
            push_dec(&mut s, id as u64);
            s.append(")");
            return s;
        },
    };
    String::from_str(name)
}

/// The bytes of `elements` elements of a ggml type: whole blocks, the last one filled up.
pub open spec fn bytes_for(id: u32, elements: u64) -> Option<int> {
    match block_of(id) {
        None => None,
        Some((bytes, elems)) => Some((elements + elems - 1) / (elems as int) * bytes),
    }
}

/// A block of the type has `elems` elements of `bits` bits each, and `extra` bytes beside them.
pub open spec fn block_is(id: u32, elems: int, bits: int, extra: int) -> bool {
    block_of(id) matches Some((b, n)) && n == elems && b == elems * bits / 8 + extra
}

/// The sizes of blocks by their parts: the bits of the elements, and the bytes of scales, minima,
/// signs and sums beside them.
pub proof fn law_blocks_by_their_parts()
    ensures
        block_is(0, 1, 32, 0),
        block_is(1, 1, 16, 0),
        block_is(2, 32, 4, 2),
        block_is(3, 32, 4, 4),
        block_is(6, 32, 5, 2),
        block_is(7, 32, 5, 4),
        block_is(8, 32, 8, 2),
        block_is(9, 32, 8, 4),
        block_is(10, 256, 2, 20),
        block_is(11, 256, 3, 14),
        block_is(12, 256, 4, 16),
        block_is(13, 256, 5, 16),
        block_is(14, 256, 6, 18),
        block_is(15, 256, 8, 36),
        block_is(16, 256, 2, 2),
        block_is(17, 256, 2, 10),
        block_is(18, 256, 3, 2),
        block_is(19, 256, 1, 18),
        block_is(20, 32, 4, 2),
        block_is(21, 256, 3, 14),
        block_is(22, 256, 2, 18),
        block_is(23, 256, 4, 8),
        block_is(24, 1, 8, 0),
        block_is(25, 1, 16, 0),
        block_is(26, 1, 32, 0),
        block_is(27, 1, 64, 0),
        block_is(28, 1, 64, 0),
        block_is(29, 256, 1, 24),
        block_is(30, 1, 16, 0),
        block_is(35, 256, 2, 2),
        block_is(39, 32, 4, 1),
        block_is(40, 64, 4, 4),
        block_is(41, 128, 1, 2),
        block_of(34) == Some((54u64, 256u64)),
        forall|id: u32|
            id == 4 || id == 5 || 31 <= id <= 33 || 36 <= id <= 38 || id >= 42
                ==> #[trigger] block_of(id) is None,
{
}

} // verus!
