//! Text helpers for the regression report tables.

use vstd::prelude::*;
use vstd::string::{StrSliceExecFns, StringExecFns};

verus! {

/// The ellipsis character that marks a shortened cell.
pub open spec fn ellipsis() -> char {
    '\u{2026}'
}

/// The text of a cell: a string of at most `width` bytes is kept whole; a
/// longer one keeps its first `width - 1` characters (all of them, if it has
/// fewer) followed by an ellipsis.
pub open spec fn truncated(chars: Seq<char>, byte_len: nat, width: nat) -> Seq<char> {
    if byte_len <= width {
        chars
    } else {
        let keep = if width - 1 < chars.len() {
            (width - 1) as int
        } else {
            chars.len() as int
        };
        chars.take(keep).push(ellipsis())
    }
}

/// Shorten `s` to fit a report column of width `n`.
pub fn truncate(s: &str, n: usize) -> (out: String)
    requires
        s.len() > n ==> n >= 1,
    ensures
        out@ == truncated(s@, s.len() as nat, n as nat),
{
    if s.len() <= n {
        s.to_owned()
    } else {
        let count = s.unicode_len();
        let keep = if n - 1 < count {
            n - 1
        } else {
            count
        };
        let prefix = s.substring_char(0, keep);
        let mut out = prefix.to_owned();
        let mark = "\u{2026}";
        proof {
            reveal_strlit("\u{2026}");
        }
        out.append(mark);
        assert(out@ =~= s@.take(keep as int).push(ellipsis()));
        out
    }
}


/// A cell that fits its column is kept whole; a longer one keeps a prefix of
/// its characters, as many as fit beside the ellipsis, and ends with the
/// ellipsis.
pub proof fn lemma_truncated_keeps_a_prefix(chars: Seq<char>, byte_len: nat, width: nat)
    requires
        byte_len > width ==> width >= 1,
    ensures
        byte_len <= width ==> truncated(chars, byte_len, width) == chars,
        byte_len > width ==> {
            let out = truncated(chars, byte_len, width);
            &&& out.len() == 1 + (if width - 1 < chars.len() {
                width - 1
            } else {
                chars.len() as int
            })
            &&& forall|i: int| 0 <= i < out.len() - 1 ==> #[trigger] out[i] == chars[i]
            &&& out[out.len() - 1] == '\u{2026}'
        },
{
}

/// A shortened cell never holds more than `width` characters.
pub proof fn lemma_truncated_fits(chars: Seq<char>, byte_len: nat, width: nat)
    requires
        byte_len > width,
        width >= 1,
    ensures
        truncated(chars, byte_len, width).len() <= width,
        truncated(chars, byte_len, width).last() == ellipsis(),
{
}

} // verus!
