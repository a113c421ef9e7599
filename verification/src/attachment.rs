//! Attachments: files as base64 text, and when an image is scaled down
//! before it is sent.

use vstd::prelude::*;

verus! {

/// The 64 digits of base64, in the order of their values.
pub open spec fn alphabet() -> Seq<char> {
    "ABCDEFGHIJKLMNOPQRSTUVWXYZabcdefghijklmnopqrstuvwxyz0123456789+/"@
}

/// The digit that writes `v`, a number below 64.
pub open spec fn digit(v: int) -> char {
    alphabet()[v]
}

/// The standard base64 text of `bytes`: four digits for every three bytes,
/// and a last group filled up with `=` where one or two bytes are left.
pub open spec fn base64_text(bytes: Seq<u8>) -> Seq<char>
    decreases bytes.len(),
{
    if bytes.len() == 0 {
        Seq::empty()
    } else if bytes.len() == 1 {
        seq![digit(bytes[0] as int / 4), digit(bytes[0] as int % 4 * 16), '=', '=']
    } else if bytes.len() == 2 {
        seq![
            digit(bytes[0] as int / 4),
            digit(bytes[0] as int % 4 * 16 + bytes[1] as int / 16),
            digit(bytes[1] as int % 16 * 4),
            '=',
        ]
    } else {
        seq![
            digit(bytes[0] as int / 4),
            digit(bytes[0] as int % 4 * 16 + bytes[1] as int / 16),
            digit(bytes[1] as int % 16 * 4 + bytes[2] as int / 64),
            digit(bytes[2] as int % 64),
        ] + base64_text(bytes.skip(3))
    }
}

/// How long the base64 text of `len` bytes is.
pub open spec fn base64_len(len: nat) -> nat {
    (len + 2) / 3 * 4
}

/// The base64 text of `len` bytes has `base64_len(len)` characters.
pub proof fn lemma_base64_len(bytes: Seq<u8>)
    ensures
        base64_text(bytes).len() == base64_len(bytes.len()),
    decreases bytes.len(),
{
    if bytes.len() > 2 {
        lemma_base64_len(bytes.skip(3));
    }
}

/// `base64::Engine::encode` on `base64::engine::general_purpose::STANDARD`:
/// the standard alphabet, with padding. The contract states the text that
/// this encoding is defined to give. The call panics where the length of
/// the text does not fit a `usize`; `requires` leaves those inputs out.
#[verifier::external_body]
fn standard_encode(bytes: &[u8]) -> (text: String)
    requires
        base64_len(bytes@.len()) <= usize::MAX,
    ensures
        text@ == base64_text(bytes@),
{
    base64::Engine::encode(&base64::engine::general_purpose::STANDARD, bytes)
}

/// Whether a file of `len` bytes can be encoded: its text must not be
/// longer than a `usize` can say.
pub fn can_encode(len: usize) -> (fits: bool)
    ensures
        fits == (base64_len(len as nat) <= usize::MAX),
{
    let groups = if len % 3 == 0 {
        len / 3
    } else {
        len / 3 + 1
    };
    assert(groups == (len + 2) / 3);
    groups <= usize::MAX / 4
}

/// The content of a file as base64 text.
pub fn encode_file(bytes: &[u8]) -> (text: String)
    requires
        base64_len(bytes@.len()) <= usize::MAX,
    ensures
        text@ == base64_text(bytes@),
        text@.len() == base64_len(bytes@.len()),
{
    proof {
        lemma_base64_len(bytes@);
    }
    standard_encode(bytes)
}

/// The longer side of an image that was scaled.
pub const MAX_DIMENSION: u32 = 1536;

/// An image with no side longer than this is sent as it is.
pub const MIN_RESIZE_THRESHOLD: u32 = 1200;

/// An image with no side longer than this counts as small.
pub const SMALL_IMAGE_THRESHOLD: u32 = 800;

/// The quality with which an image is encoded again.
pub const JPEG_QUALITY: u8 = 85;

/// What is done to an image before it is sent.
#[derive(Debug, Clone, Copy, PartialEq, Eq, Structural)]
pub enum ResizePlan {
    /// It is sent in its own size.
    Keep,
    /// It is scaled so that its width is `MAX_DIMENSION`.
    FitWidth,
    /// It is scaled so that its height is `MAX_DIMENSION`.
    FitHeight,
}

/// An image is kept where neither side is longer than
/// `MIN_RESIZE_THRESHOLD`; else its longer side is brought to
/// `MAX_DIMENSION`, the height where the sides are equal.
pub open spec fn plan_for(width: u32, height: u32) -> ResizePlan {
    if width <= MIN_RESIZE_THRESHOLD && height <= MIN_RESIZE_THRESHOLD {
        ResizePlan::Keep
    } else if width > height {
        ResizePlan::FitWidth
    } else {
        ResizePlan::FitHeight
    }
}

/// Decides what is done to an image of the given size.
pub fn optimize_image(width: u32, height: u32) -> (plan: ResizePlan)
    ensures
        plan == plan_for(width, height),
{
    if width <= SMALL_IMAGE_THRESHOLD && height <= SMALL_IMAGE_THRESHOLD {
        return ResizePlan::Keep;
    }
    if width <= MIN_RESIZE_THRESHOLD && height <= MIN_RESIZE_THRESHOLD {
        return ResizePlan::Keep;
    }
    if width > height {
        ResizePlan::FitWidth
    } else {
        ResizePlan::FitHeight
    }
}

} // verus!
