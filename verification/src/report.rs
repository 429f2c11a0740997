//! The text a listing tool hands back: its head-truncated body and the
//! bracketed notices that say where it stopped short.

use vstd::prelude::*;
use vstd::utf8::*;
use crate::text::{cat, join_strings, join_texts, signed_decimal, signed_decimal_string, texts_of};
use crate::truncate::{
    fits_limits, head_bytes, is_head_truncation, truncate_head, TruncationResult,
    DEFAULT_MAX_BYTES,
};
use crate::units::{format_size, size_text};

verus! {

/// What complete-line head truncation to 50 KiB keeps of `t`.
pub open spec fn head_text(t: Seq<char>) -> Seq<char> {
    decode_utf8(head_bytes(encode_utf8(t), usize::MAX as nat, DEFAULT_MAX_BYTES as nat))
}

/// Whether head truncation to 50 KiB cuts `t` short.
pub open spec fn head_truncated(t: Seq<char>) -> bool {
    !fits_limits(encode_utf8(t), usize::MAX as nat, DEFAULT_MAX_BYTES as nat)
}

/// Head-truncates `text` to 50 KiB of complete lines.
pub fn truncate_listing(text: &str) -> (r: TruncationResult)
    ensures
        is_head_truncation(text@, usize::MAX, DEFAULT_MAX_BYTES, r),
        r.content@ == head_text(text@),
        r.truncated == head_truncated(text@),
{
    let r = truncate_head(text, usize::MAX, DEFAULT_MAX_BYTES);
    proof {
        encode_utf8_decode_utf8(r.content@);
    }
    r
}

/// `text` followed by the notices in brackets, separated by `. `, when
/// there are any.
pub open spec fn with_notices(text: Seq<char>, notices: Seq<Seq<char>>) -> Seq<char> {
    if notices.len() == 0 {
        text
    } else {
        text + "\n\n["@ + join_texts(notices, ". "@) + "]"@
    }
}

/// Appends the notices, as [`with_notices`] says.
pub fn append_notices(text: String, notices: &Vec<String>) -> (r: String)
    ensures
        r@ == with_notices(text@, texts_of(notices@)),
{
    if notices.len() == 0 {
        return text;
    }
    let joined = join_strings(notices, ". ");
    let opened = cat(text.as_str(), "\n\n[");
    let body = cat(opened.as_str(), joined.as_str());
    cat(body.as_str(), "]")
}

/// `n` doubled, saturating at `i64::MAX`.
pub open spec fn doubled(n: i64) -> int {
    if n > i64::MAX / 2 {
        i64::MAX as int
    } else {
        2 * n
    }
}

/// The notice for a result limit, naming what was counted.
pub open spec fn limit_reached_notice(limit: i64, counted: Seq<char>) -> Seq<char> {
    signed_decimal(limit as int) + " "@ + counted + " limit reached. Use limit="@ + signed_decimal(
        doubled(limit),
    ) + " for more, or refine pattern"@
}

/// Builds [`limit_reached_notice`].
pub fn limit_reached_text(limit: i64, counted: &str) -> (r: String)
    requires
        limit >= 0,
    ensures
        r@ == limit_reached_notice(limit, counted@),
{
    let twice: i64 = if limit > i64::MAX / 2 {
        i64::MAX
    } else {
        2 * limit
    };
    let a = cat(signed_decimal_string(limit as i128).as_str(), " ");
    let b = cat(a.as_str(), counted);
    let c = cat(b.as_str(), " limit reached. Use limit=");
    let d = cat(c.as_str(), signed_decimal_string(twice as i128).as_str());
    cat(d.as_str(), " for more, or refine pattern")
}

/// The notice for output cut at 50 KiB.
pub open spec fn size_notice() -> Seq<char> {
    size_text(DEFAULT_MAX_BYTES as nat) + " limit reached"@
}

/// Builds [`size_notice`].
pub fn size_notice_text() -> (r: String)
    ensures
        r@ == size_notice(),
{
    cat(format_size(DEFAULT_MAX_BYTES).as_str(), " limit reached")
}

} // verus!
