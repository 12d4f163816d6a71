//! The line that reports how far the writing of the pages has come.

use vstd::prelude::*;
use vstd::string::*;
use crate::text::{append_bytes, append_decimal, decimal};

verus! {

/// The glyphs that take turns at the end of the line.
pub const LOADING_CHARS: &'static str = "|/-\\";

/// The glyph for page `index`.
pub open spec fn loading_glyph(index: nat) -> u8 {
    LOADING_CHARS.spec_bytes()[(index % 4) as int]
}

/// The line for page `index` of `count`: a carriage return, the number of
/// the page counted from one, the number of pages, and the glyph.
pub open spec fn progress_text(index: nat, count: nat) -> Seq<u8> {
    "\rCreating slice ".spec_bytes() + decimal(index + 1) + "/".spec_bytes() + decimal(count)
        + " ".spec_bytes() + seq![loading_glyph(index)]
}

/// The glyphs are `|`, `/`, `-` and `\`, in this order.
pub proof fn lemma_loading_glyphs()
    ensures
        LOADING_CHARS.spec_bytes() == seq![124u8, 47u8, 45u8, 92u8],
{
    reveal_strlit("|/-\\");
    assert(is_ascii(LOADING_CHARS));
    is_ascii_spec_bytes(LOADING_CHARS);
    assert(LOADING_CHARS.spec_bytes() =~= seq![124u8, 47u8, 45u8, 92u8]);
}

/// Gives the line that reports work on page `index` of `count`.
pub fn progress_line(index: usize, count: usize) -> (line: Vec<u8>)
    ensures
        line@ == progress_text(index as nat, count as nat),
{
    let glyphs: &[u8] = LOADING_CHARS.as_bytes();
    proof {
        lemma_loading_glyphs();
    }
    let glyph: u8 = glyphs[index % 4];
    let mut line: Vec<u8> = Vec::new();
    append_bytes(&mut line, "\rCreating slice ".as_bytes());
    append_decimal(&mut line, index as u128 + 1);
    append_bytes(&mut line, "/".as_bytes());
    append_decimal(&mut line, count as u128);
    append_bytes(&mut line, " ".as_bytes());
    line.push(glyph);
    assert(line@ =~= progress_text(index as nat, count as nat));
    line
}

} // verus!
