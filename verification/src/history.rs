//! The rows of the transaction history table the node prints for an account.
use vstd::prelude::*;
use vstd::string::{StringExecFns, StringSliceAdditionalSpecFns};
use vstd::utf8::{decode_utf8, encode_utf8, is_char_boundary, group_utf8_lib};
use crate::format::{
    CIL_PER_LOS, decimal, format_u128, get_short_addr, group_thousands, push_char, short_addr,
    short_addr_defined,
};
use crate::ledger::{Block, BlockType};
use crate::endpoints::chars_of;

verus! {

/// Column widths of the history table, in characters.
pub const KIND_WIDTH: usize = 14;
pub const AMOUNT_WIDTH: usize = 14;
pub const DETAIL_WIDTH: usize = 24;
pub const HASH_WIDTH: usize = 22;

/// One row of the history table, column by column.
#[derive(Clone, Debug)]
pub struct HistoryRow {
    pub kind: String,
    pub amount: String,
    pub detail: String,
    pub hash: String,
}

/// The smaller of `a` and `b`.
pub open spec fn min_len(a: int, b: int) -> int {
    if a <= b {
        a
    } else {
        b
    }
}

/// The characters of the first `n` bytes of the UTF-8 encoding of `s` (all
/// of it when it is shorter).
pub open spec fn byte_head(s: Seq<char>, n: int) -> Seq<char> {
    let b = encode_utf8(s);
    decode_utf8(b.subrange(0, min_len(n, b.len() as int)))
}

/// The first `n` bytes of `s` (or all of it) end at a character boundary.
pub open spec fn head_defined(s: Seq<char>, n: int) -> bool {
    let b = encode_utf8(s);
    is_char_boundary(b, min_len(n, b.len() as int))
}

/// The label of a block type.
pub open spec fn kind_label(t: BlockType) -> Seq<char> {
    match t {
        BlockType::Mint => "🔥 MINT"@,
        BlockType::Send => "📤 SEND"@,
        BlockType::Receive => "📥 RECEIVE"@,
        BlockType::Change => "🔄 CHANGE"@,
        BlockType::Slash => "⚖️ SLASH"@,
        BlockType::ContractDeploy => "📦 DEPLOY"@,
        BlockType::ContractCall => "⚙️ CALL"@,
    }
}

/// The amount column: whole LOS grouped by thousands, signed by the
/// direction of the block ("0" for a representative change).
pub open spec fn amount_text(b: Block) -> Seq<char> {
    let digits = group_thousands(decimal((b.amount / CIL_PER_LOS) as nat));
    match b.block_type {
        BlockType::Mint | BlockType::Receive => seq!['+'] + digits,
        BlockType::Change => seq!['0'],
        _ => seq!['-'] + digits,
    }
}

/// The detail column: what the link of the block names.
pub open spec fn detail_text(b: Block) -> Seq<char> {
    let l = b.link@;
    match b.block_type {
        BlockType::Mint => "Src: "@ + byte_head(l, 10),
        BlockType::Send => "To: "@ + short_addr(l),
        BlockType::Receive => "From Hash: "@ + byte_head(l, 8),
        BlockType::Change => "Rep: "@ + short_addr(l),
        BlockType::Slash => "Evidence: "@ + byte_head(l, 10),
        BlockType::ContractDeploy => "Code: "@ + byte_head(l, 16),
        BlockType::ContractCall => "Contract: "@ + byte_head(l, 16),
    }
}

/// The link of the block can be cut as its detail column needs.
pub open spec fn detail_defined(b: Block) -> bool {
    let l = b.link@;
    match b.block_type {
        BlockType::Mint | BlockType::Slash => head_defined(l, 10),
        BlockType::Send | BlockType::Change => short_addr_defined(l),
        BlockType::Receive => head_defined(l, 8),
        BlockType::ContractDeploy | BlockType::ContractCall => head_defined(l, 16),
    }
}

/// The hash column: "..." and the first eight bytes of a hash longer than
/// eight bytes, else "-".
pub open spec fn hash_text(h: Seq<char>) -> Seq<char> {
    if encode_utf8(h).len() > 8 {
        "..."@ + byte_head(h, 8)
    } else {
        "-"@
    }
}

/// A hash longer than eight bytes has a character boundary at byte eight.
pub open spec fn hash_defined(h: Seq<char>) -> bool {
    encode_utf8(h).len() > 8 ==> head_defined(h, 8)
}

/// `s` padded with spaces on the right to `width` characters.
pub open spec fn pad_right(s: Seq<char>, width: nat) -> Seq<char> {
    if s.len() < width {
        s + Seq::new((width - s.len()) as nat, |i: int| ' ')
    } else {
        s
    }
}

/// A table line: the four columns padded to their widths, between bars.
pub open spec fn row_text(a: Seq<char>, b: Seq<char>, c: Seq<char>, d: Seq<char>) -> Seq<char> {
    "| "@ + pad_right(a, KIND_WIDTH as nat) + " | "@ + pad_right(b, AMOUNT_WIDTH as nat) + " | "@
        + pad_right(c, DETAIL_WIDTH as nat) + " | "@ + pad_right(d, HASH_WIDTH as nat) + " |"@
}

/// The characters of the first `n` bytes of `s` (all of `s` when shorter).
fn head(s: &str, n: usize) -> (r: &str)
    requires
        head_defined(s@, n as int),
    ensures
        r@ == byte_head(s@, n as int),
{
    broadcast use group_utf8_lib;

    assert(s.spec_bytes() == encode_utf8(s@));
    let len = s.as_bytes().len();
    let k = if n < len {
        n
    } else {
        len
    };
    let (h, _) = s.split_at(k);
    proof {
        assert(h.spec_bytes() =~= s.spec_bytes().subrange(0, k as int));
    }
    h
}

/// Whether the first `n` bytes of `s` (or all of it) end at a character
/// boundary (see `head_defined`).
fn head_cuttable(s: &str, n: usize) -> (r: bool)
    ensures
        r == head_defined(s@, n as int),
{
    assert(s.spec_bytes() == encode_utf8(s@));
    let len = s.as_bytes().len();
    let k = if n < len {
        n
    } else {
        len
    };
    s.is_char_boundary(k)
}

/// Whether the short form of `a` can be cut out (see `short_addr_defined`).
fn short_addr_cuttable(a: &str) -> (r: bool)
    ensures
        r == short_addr_defined(a@),
{
    assert(a.spec_bytes() == encode_utf8(a@));
    a.as_bytes().len() < 12 || (a.is_char_boundary(3) && a.is_char_boundary(11))
}

/// Whether `history_row` can cut the columns of `block` and of its hash
/// `hash` (the conditions of its `requires`).
pub fn history_row_defined(block: &Block, hash: &str) -> (r: bool)
    ensures
        r == (detail_defined(*block) && hash_defined(hash@)),
{
    let l = block.link.as_str();
    let detail_ok = match block.block_type {
        BlockType::Mint | BlockType::Slash => head_cuttable(l, 10),
        BlockType::Send | BlockType::Change => short_addr_cuttable(l),
        BlockType::Receive => head_cuttable(l, 8),
        BlockType::ContractDeploy | BlockType::ContractCall => head_cuttable(l, 16),
    };
    assert(hash.spec_bytes() == encode_utf8(hash@));
    detail_ok && (hash.as_bytes().len() <= 8 || head_cuttable(hash, 8))
}

/// The label of a block type (see `kind_label`).
pub fn kind_text(t: BlockType) -> (r: String)
    ensures
        r@ == kind_label(t),
{
    match t {
        BlockType::Mint => String::from_str("🔥 MINT"),
        BlockType::Send => String::from_str("📤 SEND"),
        BlockType::Receive => String::from_str("📥 RECEIVE"),
        BlockType::Change => String::from_str("🔄 CHANGE"),
        BlockType::Slash => String::from_str("⚖️ SLASH"),
        BlockType::ContractDeploy => String::from_str("📦 DEPLOY"),
        BlockType::ContractCall => String::from_str("⚙️ CALL"),
    }
}

/// The row of `block`, whose hash is `hash`, in the history table.
pub fn history_row(block: &Block, hash: &str) -> (r: HistoryRow)
    requires
        detail_defined(*block),
        hash_defined(hash@),
    ensures
        r.kind@ == kind_label(block.block_type),
        r.amount@ == amount_text(*block),
        r.detail@ == detail_text(*block),
        r.hash@ == hash_text(hash@),
{
    let digits = format_u128(block.amount / CIL_PER_LOS);
    let amount = match block.block_type {
        BlockType::Mint | BlockType::Receive => {
            let mut s = String::from_str("+");
            s.append(digits.as_str());
            s
        },
        BlockType::Change => String::from_str("0"),
        _ => {
            let mut s = String::from_str("-");
            s.append(digits.as_str());
            s
        },
    };
    let l = block.link.as_str();
    let (label, tail): (&str, String) = match block.block_type {
        BlockType::Mint => ("Src: ", head(l, 10).to_owned()),
        BlockType::Send => ("To: ", get_short_addr(l)),
        BlockType::Receive => ("From Hash: ", head(l, 8).to_owned()),
        BlockType::Change => ("Rep: ", get_short_addr(l)),
        BlockType::Slash => ("Evidence: ", head(l, 10).to_owned()),
        BlockType::ContractDeploy => ("Code: ", head(l, 16).to_owned()),
        BlockType::ContractCall => ("Contract: ", head(l, 16).to_owned()),
    };
    let mut detail = String::from_str(label);
    detail.append(tail.as_str());
    assert(hash.spec_bytes() == encode_utf8(hash@));
    let hash_col = if hash.as_bytes().len() > 8 {
        let mut s = String::from_str("...");
        s.append(head(hash, 8));
        s
    } else {
        String::from_str("-")
    };
    proof {
        reveal_strlit("+");
        reveal_strlit("-");
        reveal_strlit("0");
        assert(amount@ == amount_text(*block));
    }
    HistoryRow { kind: kind_text(block.block_type), amount, detail, hash: hash_col }
}

/// Appends `s` padded with spaces to `width` characters.
fn push_padded(out: &mut String, s: &str, width: usize)
    ensures
        final(out)@ == old(out)@ + pad_right(s@, width as nat),
{
    let n = chars_of(s).len();
    out.append(s);
    let ghost base = out@;
    let missing: usize = if n < width {
        width - n
    } else {
        0
    };
    let mut count: usize = 0;
    while count < missing
        invariant
            count <= missing,
            out@ == base + Seq::new(count as nat, |i: int| ' '),
        decreases missing - count,
    {
        push_char(out, ' ');
        proof {
            assert(out@ =~= base + Seq::new((count + 1) as nat, |i: int| ' '));
        }
        count += 1;
    }
    proof {
        assert(out@ =~= old(out)@ + pad_right(s@, width as nat));
    }
}

/// A line of the history table with the four given columns (see `row_text`).
pub fn table_row(a: &str, b: &str, c: &str, d: &str) -> (r: String)
    ensures
        r@ == row_text(a@, b@, c@, d@),
{
    let mut s = String::from_str("| ");
    push_padded(&mut s, a, KIND_WIDTH);
    s.append(" | ");
    push_padded(&mut s, b, AMOUNT_WIDTH);
    s.append(" | ");
    push_padded(&mut s, c, DETAIL_WIDTH);
    s.append(" | ");
    push_padded(&mut s, d, HASH_WIDTH);
    s.append(" |");
    proof {
        assert(s@ =~= row_text(a@, b@, c@, d@));
    }
    s
}

/// The line of `block`, whose hash is `hash`, in the history table.
pub fn history_line(block: &Block, hash: &str) -> (r: String)
    requires
        detail_defined(*block),
        hash_defined(hash@),
    ensures
        r@ == row_text(
            kind_label(block.block_type),
            amount_text(*block),
            detail_text(*block),
            hash_text(hash@),
        ),
{
    let row = history_row(block, hash);
    table_row(row.kind.as_str(), row.amount.as_str(), row.detail.as_str(), row.hash.as_str())
}

} // verus!
