//! Delimiter rewrite at math emit time.
//!
//! Downstream renderers (`KaTeX`, `MathJax`) typeset the math; this pass
//! only decides the shape of each region's bytes in the output.

use std::borrow::Cow;
use std::ops::Range;
use vstd::prelude::*;
use vstd::utf8::*;
use crate::config::MathRender;
use crate::math::pretty::{push_trimmed, trim_chars};
use crate::math::span::{body_bytes, piece, MathSpan};
use crate::text::{cow_str, str_slice_or_empty, utf8_of};

verus! {

/// The characters of a span's clean body.
pub open spec fn body_chars(span: MathSpan, s: Seq<char>) -> Seq<char> {
    decode_utf8(body_bytes(crate::math::span::span_body(span), s))
}

/// Rewrites the bytes of a math region (`range`, delimiters included)
/// for the renderer `mode`. `Passthrough` and `CommonmarkKatex` borrow
/// the source unchanged; `Dollar` writes inline spans as `$body$` and
/// display spans as `$$ body $$` (body trimmed) and leaves environments
/// alone.
pub fn convert_for_renderer<'a>(source: &'a str, range: &Range<usize>, span: &MathSpan, mode: MathRender) -> (r: Cow<'a, str>)
    ensures
        (mode != MathRender::Dollar || span is Environment) ==> r is Borrowed && utf8_of(r@) == piece(
            source@,
            range.start as int,
            range.end as int,
        ),
        (mode == MathRender::Dollar && span is Display) ==> r@ == "$$ "@ + trim_chars(body_chars(*span, source@)) + " $$"@,
        (mode == MathRender::Dollar && span is Inline) ==> r@ == "$"@ + trim_chars(body_chars(*span, source@)) + "$"@,
{
    match mode {
        MathRender::Passthrough | MathRender::CommonmarkKatex => Cow::Borrowed(
            str_slice_or_empty(source, range.start, range.end),
        ),
        MathRender::Dollar => match span {
            MathSpan::Environment { .. } => Cow::Borrowed(str_slice_or_empty(source, range.start, range.end)),
            MathSpan::Display { body, .. } => {
                let b = body.as_str(source);
                proof {
                    encode_utf8_decode_utf8(b@);
                }
                let mut out = String::new();
                out.push_str("$$ ");
                push_trimmed(&mut out, cow_str(&b));
                out.push_str(" $$");
                Cow::Owned(out)
            },
            MathSpan::Inline { body, .. } => {
                let b = body.as_str(source);
                proof {
                    encode_utf8_decode_utf8(b@);
                }
                let mut out = String::new();
                out.push_str("$");
                push_trimmed(&mut out, cow_str(&b));
                out.push_str("$");
                Cow::Owned(out)
            },
        },
    }
}

} // verus!
