//! Inline-text escape policy.
//!
//! Minimum-necessary escaping: a backslash is inserted before a byte
//! only when the `CommonMark` tokenizer would otherwise read that byte
//! as syntax. Every decision is made on the UTF-8 bytes of the run:
//!
//! | Byte    | Escaped when                                             |
//! |---------|----------------------------------------------------------|
//! | `\`     | the next byte is ASCII punctuation or a newline          |
//! | `*`     | it can open (close) emphasis and a later (earlier) `*` can close (open) |
//! | `_`     | as `*`, under the stricter intraword rule                |
//! | `` ` `` | always                                                   |
//! | `[`     | inside link text, or it opens a `[..](` / `[..][` shape  |
//! | `]`     | inside link text                                         |
//! | `<`     | the next byte is an ASCII letter, `/`, `!` or `?`        |
//! | `&`     | it starts a well-formed entity reference                 |
//! | `\|`    | inside a table cell                                      |
//!
//! Every escaped byte is ASCII, so an escape never lands inside a
//! multi-byte scalar and the output stays valid UTF-8.

use std::borrow::Cow;
use vstd::prelude::*;
use vstd::utf8::*;
use crate::text::{
    flags_on_ascii, insert_backslashes, lemma_insert_keeps_utf8, lemma_insert_none, lemma_insert_push,
    lemma_utf8_of_valid, string_of_valid, string_or_empty, utf8_of,
};

verus! {

/// Non-local context the escape policy needs.
#[derive(Clone, Copy, Debug, PartialEq, Eq)]
pub struct EscapeScope {
    /// Emitting the text of a link or image label: every bracket is escaped.
    pub in_link_text: bool,
    /// Emitting the content of a table cell: every pipe is escaped.
    pub in_table_cell: bool,
    /// Emitting heading content. The byte policy does not read it; run
    /// construction uses it to write hard breaks as `<br/>`.
    pub in_heading: bool,
}

impl Default for EscapeScope {
    fn default() -> (s: Self)
        ensures
            !s.in_link_text,
            !s.in_table_cell,
            !s.in_heading,
    {
        EscapeScope { in_link_text: false, in_table_cell: false, in_heading: false }
    }
}

// ----------------------------------------------------------------------
// Byte classes
// ----------------------------------------------------------------------

/// The ASCII punctuation bytes (`CommonMark` backslash-escapable set).
pub open spec fn is_cm_punct(c: u8) -> bool {
    (0x21 <= c <= 0x2F) || (0x3A <= c <= 0x40) || (0x5B <= c <= 0x60) || (0x7B <= c <= 0x7E)
}

/// ASCII whitespace: space, tab, newline, carriage return, form feed.
pub open spec fn is_ws_byte(c: u8) -> bool {
    c == 0x20 || c == 0x09 || c == 0x0A || c == 0x0D || c == 0x0C
}

pub open spec fn is_ascii_alpha(c: u8) -> bool {
    (0x41 <= c <= 0x5A) || (0x61 <= c <= 0x7A)
}

pub open spec fn is_ascii_digit(c: u8) -> bool {
    0x30 <= c <= 0x39
}

pub open spec fn is_ascii_alnum(c: u8) -> bool {
    is_ascii_alpha(c) || is_ascii_digit(c)
}

pub open spec fn is_ascii_hex(c: u8) -> bool {
    is_ascii_digit(c) || (0x41 <= c <= 0x46) || (0x61 <= c <= 0x66)
}

/// `CommonMark` ASCII punctuation test.
pub fn is_cm_punct_byte(c: u8) -> (r: bool)
    ensures
        r == is_cm_punct(c),
{
    (0x21 <= c && c <= 0x2F) || (0x3A <= c && c <= 0x40) || (0x5B <= c && c <= 0x60) || (0x7B
        <= c && c <= 0x7E)
}

fn is_ws(c: u8) -> (r: bool)
    ensures
        r == is_ws_byte(c),
{
    c == 0x20 || c == 0x09 || c == 0x0A || c == 0x0D || c == 0x0C
}

pub fn is_alpha_byte(c: u8) -> (r: bool)
    ensures
        r == is_ascii_alpha(c),
{
    (0x41 <= c && c <= 0x5A) || (0x61 <= c && c <= 0x7A)
}

pub fn is_digit_byte(c: u8) -> (r: bool)
    ensures
        r == is_ascii_digit(c),
{
    0x30 <= c && c <= 0x39
}

fn is_hex_byte(c: u8) -> (r: bool)
    ensures
        r == is_ascii_hex(c),
{
    is_digit_byte(c) || (0x41 <= c && c <= 0x46) || (0x61 <= c && c <= 0x66)
}

// ----------------------------------------------------------------------
// Emphasis flanking
// ----------------------------------------------------------------------

/// A missing neighbour (run boundary) counts as whitespace.
pub open spec fn ws_or_edge(o: Option<u8>) -> bool {
    match o {
        None => true,
        Some(c) => is_ws_byte(c),
    }
}

pub open spec fn punct_opt(o: Option<u8>) -> bool {
    match o {
        None => false,
        Some(c) => is_cm_punct(c),
    }
}

pub open spec fn left_flanking(l: Option<u8>, r: Option<u8>) -> bool {
    !ws_or_edge(r) && (!punct_opt(r) || ws_or_edge(l) || punct_opt(l))
}

pub open spec fn right_flanking(l: Option<u8>, r: Option<u8>) -> bool {
    !ws_or_edge(l) && (!punct_opt(l) || ws_or_edge(r) || punct_opt(r))
}

/// Whether a delimiter byte `d` between neighbours `l` and `r` can open
/// emphasis; `_` adds the intraword exclusion.
pub open spec fn can_open(d: u8, l: Option<u8>, r: Option<u8>) -> bool {
    if d == 0x5F {
        left_flanking(l, r) && (!right_flanking(l, r) || punct_opt(l))
    } else {
        left_flanking(l, r)
    }
}

pub open spec fn can_close(d: u8, l: Option<u8>, r: Option<u8>) -> bool {
    if d == 0x5F {
        right_flanking(l, r) && (!left_flanking(l, r) || punct_opt(r))
    } else {
        right_flanking(l, r)
    }
}

pub open spec fn byte_before(b: Seq<u8>, i: int) -> Option<u8> {
    if 1 <= i <= b.len() {
        Some(b[i - 1])
    } else {
        None
    }
}

pub open spec fn byte_after(b: Seq<u8>, i: int) -> Option<u8> {
    if 0 <= i + 1 < b.len() {
        Some(b[i + 1])
    } else {
        None
    }
}

pub open spec fn opener_at(b: Seq<u8>, j: int, d: u8) -> bool {
    0 <= j < b.len() && b[j] == d && can_open(d, byte_before(b, j), byte_after(b, j))
}

pub open spec fn closer_at(b: Seq<u8>, j: int, d: u8) -> bool {
    0 <= j < b.len() && b[j] == d && can_close(d, byte_before(b, j), byte_after(b, j))
}

/// The delimiter at `i` would pair: it can open and a later one can
/// close, or it can close and an earlier one can open.
pub open spec fn emphasis_pairs(b: Seq<u8>, i: int, d: u8) -> bool {
    (can_open(d, byte_before(b, i), byte_after(b, i)) && exists|j: int|
        i < j && #[trigger] closer_at(b, j, d)) || (can_close(d, byte_before(b, i), byte_after(b, i))
        && exists|j: int| j < i && #[trigger] opener_at(b, j, d))
}

fn ws_or_edge_opt(o: Option<u8>) -> (r: bool)
    ensures
        r == ws_or_edge(o),
{
    match o {
        None => true,
        Some(c) => is_ws(c),
    }
}

fn punct_opt_exec(o: Option<u8>) -> (r: bool)
    ensures
        r == punct_opt(o),
{
    match o {
        None => false,
        Some(c) => is_cm_punct_byte(c),
    }
}

fn left_flanking_exec(l: Option<u8>, r: Option<u8>) -> (res: bool)
    ensures
        res == left_flanking(l, r),
{
    !ws_or_edge_opt(r) && (!punct_opt_exec(r) || ws_or_edge_opt(l) || punct_opt_exec(l))
}

fn right_flanking_exec(l: Option<u8>, r: Option<u8>) -> (res: bool)
    ensures
        res == right_flanking(l, r),
{
    !ws_or_edge_opt(l) && (!punct_opt_exec(l) || ws_or_edge_opt(r) || punct_opt_exec(r))
}

fn can_open_exec(d: u8, l: Option<u8>, r: Option<u8>) -> (res: bool)
    ensures
        res == can_open(d, l, r),
{
    if d == 0x5F {
        left_flanking_exec(l, r) && (!right_flanking_exec(l, r) || punct_opt_exec(l))
    } else {
        left_flanking_exec(l, r)
    }
}

fn can_close_exec(d: u8, l: Option<u8>, r: Option<u8>) -> (res: bool)
    ensures
        res == can_close(d, l, r),
{
    if d == 0x5F {
        right_flanking_exec(l, r) && (!left_flanking_exec(l, r) || punct_opt_exec(r))
    } else {
        right_flanking_exec(l, r)
    }
}

fn neighbours_at(b: &[u8], i: usize) -> (r: (Option<u8>, Option<u8>))
    ensures
        r.0 == byte_before(b@, i as int),
        r.1 == byte_after(b@, i as int),
{
    let left = if i >= 1 && i - 1 < b.len() {
        Some(b[i - 1])
    } else {
        None
    };
    let right = if i < b.len() && i + 1 < b.len() {
        Some(b[i + 1])
    } else {
        None
    };
    (left, right)
}

fn needs_emphasis_escape(b: &[u8], i: usize, d: u8) -> (r: bool)
    requires
        i < b@.len(),
    ensures
        r == emphasis_pairs(b@, i as int, d),
{
    let n = b.len();
    let (l, rt) = neighbours_at(b, i);
    let opens = can_open_exec(d, l, rt);
    let closes = can_close_exec(d, l, rt);
    if !opens && !closes {
        return false;
    }
    if opens {
        let mut j = i + 1;
        while j < n
            invariant
                n == b@.len(),
                i < j <= b@.len(),
                can_open(d, byte_before(b@, i as int), byte_after(b@, i as int)),
                forall|k: int| i < k < j ==> !#[trigger] closer_at(b@, k, d),
            decreases b@.len() - j,
        {
            if b[j] == d {
                let (jl, jr) = neighbours_at(b, j);
                if can_close_exec(d, jl, jr) {
                    assert(closer_at(b@, j as int, d));
                    return true;
                }
            }
            j = j + 1;
        }
    }
    if closes {
        let mut j: usize = 0;
        while j < i
            invariant
                j <= i < b@.len(),
                can_close(d, byte_before(b@, i as int), byte_after(b@, i as int)),
                forall|k: int| k < j ==> !#[trigger] opener_at(b@, k, d),
            decreases i - j,
        {
            if b[j] == d {
                let (jl, jr) = neighbours_at(b, j);
                if can_open_exec(d, jl, jr) {
                    assert(opener_at(b@, j as int, d));
                    return true;
                }
            }
            j = j + 1;
        }
    }
    false
}

// ----------------------------------------------------------------------
// Entities and link openers
// ----------------------------------------------------------------------

/// Byte class of an entity body: 0 decimal digits, 1 hex digits,
/// otherwise ASCII alphanumerics.
pub open spec fn in_class(kind: u8, c: u8) -> bool {
    if kind == 0 {
        is_ascii_digit(c)
    } else if kind == 1 {
        is_ascii_hex(c)
    } else {
        is_ascii_alnum(c)
    }
}

pub open spec fn class_run(b: Seq<u8>, start: int, k: int, kind: u8) -> bool {
    forall|m: int| start <= m < k ==> in_class(kind, #[trigger] b[m])
}

/// A non-empty run of `kind` bytes starting at `start`, then `;`.
pub open spec fn run_then_semicolon(b: Seq<u8>, start: int, kind: u8) -> bool {
    exists|k: int| start < k < b.len() && b[k] == 0x3B && #[trigger] class_run(b, start, k, kind)
}

/// `&` at `i` starts `&#digits;`, `&#xhex;` or `&name;`.
pub open spec fn entity_at(b: Seq<u8>, i: int) -> bool {
    0 <= i && i + 1 < b.len() && if b[i + 1] == 0x23 {
        if i + 2 < b.len() && (b[i + 2] == 0x78 || b[i + 2] == 0x58) {
            run_then_semicolon(b, i + 3, 1)
        } else {
            run_then_semicolon(b, i + 2, 0)
        }
    } else {
        is_ascii_alpha(b[i + 1]) && run_then_semicolon(b, i + 1, 2)
    }
}

/// Scanning from `j` with `depth` brackets open (a backslash skips the
/// next byte), the bracket that closes the first `[` is directly
/// followed by `(` or `[`.
pub open spec fn link_close_follows(b: Seq<u8>, j: int, depth: u32) -> bool
    decreases b.len() - j,
{
    if j < 0 || j >= b.len() {
        false
    } else if b[j] == 0x5C {
        if j + 2 < b.len() {
            link_close_follows(b, j + 2, depth)
        } else {
            false
        }
    } else if b[j] == 0x5B {
        link_close_follows(b, j + 1, if depth < u32::MAX { (depth + 1) as u32 } else { depth })
    } else if b[j] == 0x5D {
        let d: u32 = if depth > 0 { (depth - 1) as u32 } else { 0 };
        if d == 0 {
            j + 1 < b.len() && (b[j + 1] == 0x28 || b[j + 1] == 0x5B)
        } else {
            link_close_follows(b, j + 1, d)
        }
    } else {
        link_close_follows(b, j + 1, depth)
    }
}

pub open spec fn html_continuation(c: u8) -> bool {
    is_ascii_alpha(c) || c == 0x2F || c == 0x21 || c == 0x3F
}

fn in_class_exec(kind: u8, c: u8) -> (r: bool)
    ensures
        r == in_class(kind, c),
{
    if kind == 0 {
        is_digit_byte(c)
    } else if kind == 1 {
        is_hex_byte(c)
    } else {
        is_alpha_byte(c) || is_digit_byte(c)
    }
}

fn scan_class(b: &[u8], start: usize, kind: u8) -> (r: bool)
    requires
        start <= b@.len(),
    ensures
        r == run_then_semicolon(b@, start as int, kind),
{
    let mut j = start;
    while j < b.len() && in_class_exec(kind, b[j])
        invariant
            start <= j <= b@.len(),
            class_run(b@, start as int, j as int, kind),
        decreases b@.len() - j,
    {
        j = j + 1;
    }
    let found = j > start && j < b.len() && b[j] == 0x3B;
    proof {
        if found {
            assert(class_run(b@, start as int, j as int, kind));
        } else {
            assert forall|k: int|
                start < k < b@.len() && b@[k] == 0x3B implies !#[trigger] class_run(
                b@,
                start as int,
                k,
                kind,
            ) by {
                if class_run(b@, start as int, k, kind) {
                    if k < j {
                        assert(in_class(kind, b@[k]));
                    } else if k > j {
                        assert(in_class(kind, b@[j as int]));
                    }
                }
            }
        }
    }
    found
}

fn looks_like_entity(b: &[u8], i: usize) -> (r: bool)
    requires
        i < b@.len(),
    ensures
        r == entity_at(b@, i as int),
{
    let n = b.len();
    if i + 1 >= n {
        return false;
    }
    let first = b[i + 1];
    if first == 0x23 {
        if i + 2 < b.len() && (b[i + 2] == 0x78 || b[i + 2] == 0x58) {
            scan_class(b, i + 3, 1)
        } else {
            scan_class(b, i + 2, 0)
        }
    } else if is_alpha_byte(first) {
        scan_class(b, i + 1, 2)
    } else {
        false
    }
}

fn looks_like_link_open(b: &[u8], i: usize) -> (r: bool)
    requires
        i < b@.len(),
    ensures
        r == link_close_follows(b@, i + 1, 1),
{
    let n = b.len();
    let mut j = i + 1;
    let mut depth: u32 = 1;
    while j < b.len()
        invariant
            i < j <= b@.len(),
            link_close_follows(b@, j as int, depth) == link_close_follows(b@, i + 1, 1),
        decreases b@.len() - j,
    {
        let c = b[j];
        if c == 0x5C {
            if b.len() - j <= 2 {
                return false;
            }
            j = j + 2;
        } else if c == 0x5B {
            if depth < u32::MAX {
                depth = depth + 1;
            }
            j = j + 1;
        } else if c == 0x5D {
            if depth > 0 {
                depth = depth - 1;
            }
            if depth == 0 {
                return j + 1 < b.len() && (b[j + 1] == 0x28 || b[j + 1] == 0x5B);
            }
            j = j + 1;
        } else {
            j = j + 1;
        }
    }
    false
}

// ----------------------------------------------------------------------
// The per-byte decision
// ----------------------------------------------------------------------

/// Whether byte `i` of `b` must be preceded by a backslash.
pub open spec fn needs_escape(b: Seq<u8>, i: int, scope: EscapeScope) -> bool {
    0 <= i < b.len() && {
        let c = b[i];
        if c == 0x5C {
            i + 1 < b.len() && (is_cm_punct(b[i + 1]) || b[i + 1] == 0x0A)
        } else if c == 0x2A || c == 0x5F {
            emphasis_pairs(b, i, c)
        } else if c == 0x60 {
            true
        } else if c == 0x5B {
            scope.in_link_text || link_close_follows(b, i + 1, 1)
        } else if c == 0x5D {
            scope.in_link_text
        } else if c == 0x3C {
            i + 1 < b.len() && html_continuation(b[i + 1])
        } else if c == 0x26 {
            entity_at(b, i)
        } else if c == 0x7C {
            scope.in_table_cell
        } else {
            false
        }
    }
}

/// The escape flag of each byte: forced by the caller, or required by
/// the policy.
pub open spec fn escape_flags(b: Seq<u8>, forced: Seq<bool>, scope: EscapeScope) -> Seq<bool> {
    Seq::new(b.len(), |i: int| (i < forced.len() && forced[i]) || needs_escape(b, i, scope))
}

/// The policy's flags alone.
pub open spec fn policy_flags(b: Seq<u8>, scope: EscapeScope) -> Seq<bool> {
    escape_flags(b, Seq::empty(), scope)
}

/// What escaping `text` emits under `scope`, as bytes.
pub open spec fn escaped_bytes(b: Seq<u8>, scope: EscapeScope) -> Seq<u8> {
    insert_backslashes(b, policy_flags(b, scope))
}

/// Only ASCII bytes are ever escaped by the policy.
pub proof fn lemma_policy_escapes_ascii_only(b: Seq<u8>, i: int, scope: EscapeScope)
    requires
        needs_escape(b, i, scope),
    ensures
        b[i] < 0x80,
{
}

/// Per-byte escape decision.
pub fn needs_escape_at(b: &[u8], i: usize, scope: EscapeScope) -> (r: bool)
    ensures
        r == needs_escape(b@, i as int, scope),
{
    if i >= b.len() {
        return false;
    }
    let c = b[i];
    if c == 0x5C {
        i + 1 < b.len() && (is_cm_punct_byte(b[i + 1]) || b[i + 1] == 0x0A)
    } else if c == 0x2A || c == 0x5F {
        needs_emphasis_escape(b, i, c)
    } else if c == 0x60 {
        true
    } else if c == 0x5B {
        if scope.in_link_text {
            true
        } else {
            looks_like_link_open(b, i)
        }
    } else if c == 0x5D {
        scope.in_link_text
    } else if c == 0x3C {
        i + 1 < b.len() && (is_alpha_byte(b[i + 1]) || b[i + 1] == 0x2F || b[i + 1] == 0x21 || b[i
            + 1] == 0x3F)
    } else if c == 0x26 {
        looks_like_entity(b, i)
    } else if c == 0x7C {
        scope.in_table_cell
    } else {
        false
    }
}

/// Escapes `buf` for inline emission; `forced[i]` additionally forces a
/// backslash before byte `i`. The result is empty when a forced escape
/// would split a multi-byte scalar (the bytes are then not UTF-8).
pub fn escape_buffer(buf: &str, forced: &[bool], scope: EscapeScope) -> (out: String)
    ensures
        valid_utf8(insert_backslashes(utf8_of(buf@), escape_flags(utf8_of(buf@), forced@, scope)))
            ==> utf8_of(out@) == insert_backslashes(
            utf8_of(buf@),
            escape_flags(utf8_of(buf@), forced@, scope),
        ),
        !valid_utf8(
            insert_backslashes(utf8_of(buf@), escape_flags(utf8_of(buf@), forced@, scope)),
        ) ==> out@.len() == 0,
{
    let bytes = buf.as_bytes();
    let ghost b = bytes@;
    let ghost flags = escape_flags(b, forced@, scope);
    let mut out: Vec<u8> = Vec::new();
    let mut i: usize = 0;
    while i < bytes.len()
        invariant
            b == bytes@,
            flags == escape_flags(b, forced@, scope),
            i <= b.len(),
            out@ == insert_backslashes(b.take(i as int), flags.take(i as int)),
        decreases b.len() - i,
    {
        let need = (i < forced.len() && forced[i]) || needs_escape_at(bytes, i, scope);
        proof {
            lemma_insert_push(b, flags, i as int);
        }
        if need {
            out.push(0x5C);
        }
        out.push(bytes[i]);
        i = i + 1;
    }
    proof {
        assert(b.take(b.len() as int) =~= b);
        assert(flags.take(b.len() as int) =~= flags);
    }
    string_or_empty(out)
}

/// The policy never flags a non-ASCII byte, so escaping with no forced
/// positions always yields well-formed UTF-8.
pub proof fn lemma_escaped_is_utf8(s: Seq<char>, forced: Seq<bool>, scope: EscapeScope)
    requires
        forall|i: int|
            0 <= i < utf8_of(s).len() && i < forced.len() && #[trigger] forced[i] ==> utf8_of(
                s,
            )[i] < 0x80,
    ensures
        valid_utf8(insert_backslashes(utf8_of(s), escape_flags(utf8_of(s), forced, scope))),
{
    let b = utf8_of(s);
    let f = escape_flags(b, forced, scope);
    lemma_utf8_of_valid(s);
    assert(flags_on_ascii(b, f)) by {
        assert forall|i: int| 0 <= i < b.len() && i < f.len() && #[trigger] f[i] implies b[i]
            < 0x80 by {
            if !(i < forced.len() && forced[i]) {
                lemma_policy_escapes_ascii_only(b, i, scope);
            }
        }
    }
    lemma_insert_keeps_utf8(b, f);
}

/// Escapes `text` for emission as inline text. Borrows the input when
/// no byte needs an escape.
pub fn escape_text<'a>(text: &'a str, scope: EscapeScope) -> (out: Cow<'a, str>)
    ensures
        utf8_of(out@) == escaped_bytes(utf8_of(text@), scope),
        out is Borrowed <==> (forall|i: int|
            0 <= i < utf8_of(text@).len() ==> !#[trigger] needs_escape(utf8_of(text@), i, scope)),
{
    let bytes = text.as_bytes();
    let ghost b = bytes@;
    let ghost flags = policy_flags(b, scope);
    assert(b == utf8_of(text@));
    if !any_byte_needs_escape(text, scope) {
        proof {
            assert forall|i: int| 0 <= i < b.len() implies !#[trigger] flags[i] by {
                assert(!needs_escape(b, i, scope));
            }
            lemma_insert_none(b, flags);
        }
        return Cow::Borrowed(text);
    }
    let mut out: Vec<u8> = Vec::new();
    let mut i: usize = 0;
    while i < bytes.len()
        invariant
            b == bytes@,
            flags == policy_flags(b, scope),
            i <= b.len(),
            out@ == insert_backslashes(b.take(i as int), flags.take(i as int)),
        decreases b.len() - i,
    {
        let need = needs_escape_at(bytes, i, scope);
        proof {
            lemma_insert_push(b, flags, i as int);
        }
        if need {
            out.push(0x5C);
        }
        out.push(bytes[i]);
        i = i + 1;
    }
    proof {
        assert(b.take(b.len() as int) =~= b);
        assert(flags.take(b.len() as int) =~= flags);
        lemma_escaped_is_utf8(text@, Seq::empty(), scope);
    }
    let s = string_of_valid(out);
    Cow::Owned(s)
}

/// Whether any byte of `text` needs an escape under `scope`.
pub fn any_byte_needs_escape(text: &str, scope: EscapeScope) -> (r: bool)
    ensures
        r == exists|i: int| 0 <= i < utf8_of(text@).len() && #[trigger] needs_escape(
            utf8_of(text@),
            i,
            scope,
        ),
{
    let bytes = text.as_bytes();
    let mut k: usize = 0;
    while k < bytes.len()
        invariant
            k <= bytes@.len(),
            bytes@ == utf8_of(text@),
            forall|m: int| 0 <= m < k ==> !#[trigger] needs_escape(bytes@, m, scope),
        decreases bytes@.len() - k,
    {
        if needs_escape_at(bytes, k, scope) {
            return true;
        }
        k = k + 1;
    }
    false
}

/// Escaping a buffer with no forced position is escaping its text.
pub proof fn law_unforced_buffer_is_text_escape(s: Seq<char>, n: nat, scope: EscapeScope)
    requires
        n == utf8_of(s).len(),
    ensures
        insert_backslashes(utf8_of(s), escape_flags(utf8_of(s), Seq::new(n, |i: int| false), scope))
            == escaped_bytes(utf8_of(s), scope),
        valid_utf8(escaped_bytes(utf8_of(s), scope)),
{
    let b = utf8_of(s);
    assert(escape_flags(b, Seq::new(n, |i: int| false), scope) =~= policy_flags(b, scope));
    lemma_escaped_is_utf8(s, Seq::empty(), scope);
}

/// A `<` is escaped exactly when the byte after it could open an HTML tag,
/// comment, declaration or processing instruction: an ASCII letter, `/`,
/// `!` or `?`. Left bare, such a `<` would start raw HTML and the text
/// behind it would leave the prose.
pub proof fn law_html_opener_escaped(b: Seq<u8>, i: int, scope: EscapeScope)
    requires
        0 <= i < b.len(),
        b[i] == 0x3Cu8,
    ensures
        needs_escape(b, i, scope) <==> (i + 1 < b.len() && {
            let c = b[i + 1];
            ||| 0x41u8 <= c <= 0x5Au8
            ||| 0x61u8 <= c <= 0x7Au8
            ||| c == 0x2Fu8
            ||| c == 0x21u8
            ||| c == 0x3Fu8
        }),
{
}

/// The bytes whose escape depends on at most the next byte: a backtick is
/// always escaped, a backslash exactly when ASCII punctuation or a
/// newline follows it (it would escape that byte), `[` always inside
/// link text, `]` exactly inside link text, `|` exactly
/// inside a table cell, and a byte that is no Markdown punctuation the
/// policy reads (a letter, a digit, a space, a newline, any non-ASCII
/// byte) never.
pub proof fn law_context_free_escapes(b: Seq<u8>, i: int, scope: EscapeScope)
    requires
        0 <= i < b.len(),
    ensures
        b[i] == 0x60u8 ==> needs_escape(b, i, scope),
        b[i] == 0x5Cu8 ==> (needs_escape(b, i, scope) <==> (i + 1 < b.len() && {
            let c = b[i + 1];
            ||| 0x21u8 <= c <= 0x2Fu8
            ||| 0x3Au8 <= c <= 0x40u8
            ||| 0x5Bu8 <= c <= 0x60u8
            ||| 0x7Bu8 <= c <= 0x7Eu8
            ||| c == 0x0Au8
        })),
        b[i] == 0x5Du8 ==> (needs_escape(b, i, scope) <==> scope.in_link_text),
        (b[i] == 0x5Bu8 && scope.in_link_text) ==> needs_escape(b, i, scope),
        b[i] == 0x7Cu8 ==> (needs_escape(b, i, scope) <==> scope.in_table_cell),
        (0x30u8 <= b[i] <= 0x39u8 || 0x41u8 <= b[i] <= 0x5Au8 || 0x61u8 <= b[i] <= 0x7Au8 || b[i] == 0x20u8
            || b[i] == 0x0Au8 || b[i] >= 0x80u8) ==> !needs_escape(b, i, scope),
{
}

} // verus!
