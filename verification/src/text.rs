//! Byte-level text helpers shared by the escape policies and emitters.
//!
//! Markdown syntax decisions in this crate are made on UTF-8 bytes:
//! every syntax byte is ASCII, so decisions never split a multi-byte
//! scalar. Emitters build their output as a byte vector and convert it
//! back to a `String` at the end; [`lemma_insert_keeps_utf8`] is the
//! reason that conversion cannot fail when only ASCII bytes receive a
//! backslash.

use vstd::prelude::*;
use vstd::utf8::*;
use vstd::std_specs::iter::IteratorSpec;

verus! {

/// The UTF-8 bytes of a character sequence.
pub open spec fn utf8_of(s: Seq<char>) -> Seq<u8> {
    encode_utf8(s)
}

/// `bytes` with a backslash inserted before every byte whose flag is set.
pub open spec fn insert_backslashes(bytes: Seq<u8>, flags: Seq<bool>) -> Seq<u8>
    decreases bytes.len(),
{
    if bytes.len() == 0 {
        seq![]
    } else {
        (if flags.len() > 0 && flags[0] {
            seq![0x5Cu8, bytes[0]]
        } else {
            seq![bytes[0]]
        }) + insert_backslashes(bytes.drop_first(), flags.drop_first())
    }
}

/// Every flagged position holds an ASCII byte.
pub open spec fn flags_on_ascii(bytes: Seq<u8>, flags: Seq<bool>) -> bool {
    forall|i: int| 0 <= i < bytes.len() && i < flags.len() && #[trigger] flags[i] ==> bytes[i] < 0x80
}

/// Appending one more byte (and its flag) appends its escaped form.
pub proof fn lemma_insert_push(bytes: Seq<u8>, flags: Seq<bool>, i: int)
    requires
        0 <= i < bytes.len(),
        i < flags.len(),
    ensures
        insert_backslashes(bytes.take(i + 1), flags.take(i + 1)) == insert_backslashes(
            bytes.take(i),
            flags.take(i),
        ) + (if flags[i] {
            seq![0x5Cu8, bytes[i]]
        } else {
            seq![bytes[i]]
        }),
    decreases i,
{
    if i == 0 {
        assert(bytes.take(1).drop_first() =~= seq![]);
        assert(bytes.take(0) =~= seq![]);
        assert(insert_backslashes(bytes.take(0), flags.take(0)) =~= seq![]);
        let piece = if flags[0] { seq![0x5Cu8, bytes[0]] } else { seq![bytes[0]] };
        assert(insert_backslashes(bytes.take(1), flags.take(1)) =~= piece + insert_backslashes(
            bytes.take(1).drop_first(),
            flags.take(1).drop_first(),
        ));
        assert(piece + seq![] =~= piece);
    } else {
        let b1 = bytes.drop_first();
        let f1 = flags.drop_first();
        lemma_insert_push(b1, f1, i - 1);
        assert(bytes.take(i + 1).drop_first() =~= b1.take(i));
        assert(flags.take(i + 1).drop_first() =~= f1.take(i));
        assert(bytes.take(i).drop_first() =~= b1.take(i - 1));
        assert(flags.take(i).drop_first() =~= f1.take(i - 1));
        assert(bytes.take(i + 1)[0] == bytes[0]);
        assert(bytes.take(i)[0] == bytes[0]);
        assert(flags.take(i + 1)[0] == flags[0]);
        assert(flags.take(i)[0] == flags[0]);
        let head = if flags[0] { seq![0x5Cu8, bytes[0]] } else { seq![bytes[0]] };
        let piece = if flags[i] { seq![0x5Cu8, bytes[i]] } else { seq![bytes[i]] };
        assert(b1[i - 1] == bytes[i]);
        assert(f1[i - 1] == flags[i]);
        assert(insert_backslashes(bytes.take(i + 1), flags.take(i + 1)) == head
            + insert_backslashes(b1.take(i), f1.take(i)));
        assert(insert_backslashes(bytes.take(i), flags.take(i)) == head + insert_backslashes(
            b1.take(i - 1),
            f1.take(i - 1),
        ));
        assert((head + insert_backslashes(b1.take(i - 1), f1.take(i - 1))) + piece =~= head + (
        insert_backslashes(b1.take(i - 1), f1.take(i - 1)) + piece));
    }
}

/// Splitting the input splits the output.
pub proof fn lemma_insert_split(bytes: Seq<u8>, flags: Seq<bool>, n: int)
    requires
        0 <= n <= bytes.len(),
        bytes.len() <= flags.len(),
    ensures
        insert_backslashes(bytes, flags) == insert_backslashes(bytes.take(n), flags.take(n))
            + insert_backslashes(bytes.skip(n), flags.skip(n)),
    decreases n,
{
    if n == 0 {
        assert(bytes.take(0) =~= seq![]);
        assert(bytes.skip(0) =~= bytes);
        assert(flags.skip(0) =~= flags);
        assert(insert_backslashes(bytes.take(0), flags.take(0)) =~= seq![]);
        assert(seq![] + insert_backslashes(bytes, flags) =~= insert_backslashes(bytes, flags));
    } else {
        let b1 = bytes.drop_first();
        let f1 = flags.drop_first();
        lemma_insert_split(b1, f1, n - 1);
        assert(bytes.take(n).drop_first() =~= b1.take(n - 1));
        assert(flags.take(n).drop_first() =~= f1.take(n - 1));
        assert(bytes.skip(n) =~= b1.skip(n - 1));
        assert(flags.skip(n) =~= f1.skip(n - 1));
        assert(bytes.take(n)[0] == bytes[0]);
        assert(flags.take(n)[0] == flags[0]);
        let head = if flags[0] { seq![0x5Cu8, bytes[0]] } else { seq![bytes[0]] };
        assert(insert_backslashes(bytes.take(n), flags.take(n)) == head + insert_backslashes(
            b1.take(n - 1),
            f1.take(n - 1),
        ));
        assert(head + (insert_backslashes(b1.take(n - 1), f1.take(n - 1)) + insert_backslashes(
            b1.skip(n - 1),
            f1.skip(n - 1),
        )) =~= (head + insert_backslashes(b1.take(n - 1), f1.take(n - 1))) + insert_backslashes(
            b1.skip(n - 1),
            f1.skip(n - 1),
        ));
    }
}

/// With no flag set, nothing is inserted.
pub proof fn lemma_insert_none(bytes: Seq<u8>, flags: Seq<bool>)
    requires
        bytes.len() <= flags.len(),
        forall|i: int| 0 <= i < bytes.len() ==> !#[trigger] flags[i],
    ensures
        insert_backslashes(bytes, flags) == bytes,
    decreases bytes.len(),
{
    if bytes.len() > 0 {
        let b1 = bytes.drop_first();
        let f1 = flags.drop_first();
        assert forall|i: int| 0 <= i < b1.len() implies !#[trigger] f1[i] by {
            assert(f1[i] == flags[i + 1]);
        }
        lemma_insert_none(b1, f1);
        assert(!flags[0]);
        assert(seq![bytes[0]] + b1 =~= bytes);
    }
}

proof fn lemma_first_scalar_valid(bytes: Seq<u8>)
    requires
        valid_utf8(bytes),
        bytes.len() > 0,
    ensures
        valid_utf8(bytes.take(length_of_first_scalar(bytes))),
{
    reveal_with_fuel(valid_utf8, 2);
    let n = length_of_first_scalar(bytes);
    let t = bytes.take(n);
    assert(t =~= bytes.subrange(0, n));
    assert(t.subrange(0, t.len() as int) =~= t);
    assert(valid_first_scalar(t)) by {
        assert(t[0] == bytes[0]);
        if n >= 2 {
            assert(t[1] == bytes[1]);
        }
        if n >= 3 {
            assert(t[2] == bytes[2]);
        }
        if n >= 4 {
            assert(t[3] == bytes[3]);
        }
    }
    assert(pop_first_scalar(t) =~= seq![]);
}

pub proof fn lemma_ascii_byte_valid(b: u8)
    requires
        b < 0x80,
    ensures
        valid_utf8(seq![b]),
{
    reveal_with_fuel(valid_utf8, 2);
    let s = seq![b];
    assert(pop_first_scalar(s) =~= seq![]);
}

/// Inserting backslashes before ASCII bytes keeps UTF-8 well formed.
pub proof fn lemma_insert_keeps_utf8(bytes: Seq<u8>, flags: Seq<bool>)
    requires
        valid_utf8(bytes),
        bytes.len() <= flags.len(),
        flags_on_ascii(bytes, flags),
    ensures
        valid_utf8(insert_backslashes(bytes, flags)),
    decreases bytes.len(),
{
    if bytes.len() > 0 {
        let n = length_of_first_scalar(bytes);
        let head = bytes.take(n);
        let rest = bytes.skip(n);
        lemma_insert_split(bytes, flags, n);
        assert(rest =~= pop_first_scalar(bytes));
        let fr = flags.skip(n);
        assert(flags_on_ascii(rest, fr)) by {
            assert forall|i: int| 0 <= i < rest.len() && i < fr.len() && #[trigger] fr[i] implies rest[i] < 0x80 by {
                assert(fr[i] == flags[i + n]);
                assert(rest[i] == bytes[i + n]);
            }
        }
        lemma_insert_keeps_utf8(rest, fr);
        lemma_first_scalar_valid(bytes);
        let fh = flags.take(n);
        if n == 1 {
            lemma_ascii_byte_valid(bytes[0]);
            assert(head.drop_first() =~= seq![]);
            assert(insert_backslashes(head.drop_first(), fh.drop_first()) =~= seq![]);
            if fh[0] {
                assert(insert_backslashes(head, fh) =~= seq![0x5Cu8] + seq![bytes[0]]);
                lemma_ascii_byte_valid(0x5Cu8);
                valid_utf8_concat(seq![0x5Cu8], seq![bytes[0]]);
            } else {
                assert(insert_backslashes(head, fh) =~= seq![bytes[0]]);
            }
        } else {
            assert(bytes[0] >= 0x80);
            assert forall|i: int| 0 <= i < head.len() implies !#[trigger] fh[i] by {
                assert(head[i] == bytes[i]);
                if i > 0 {
                    assert(is_continuation_byte(bytes[i]));
                }
                assert(bytes[i] >= 0x80);
                if fh[i] {
                    assert(flags[i]);
                }
            }
            lemma_insert_none(head, fh);
        }
        valid_utf8_concat(insert_backslashes(head, fh), insert_backslashes(rest, fr));
    }
}

/// Decodes `bytes` as UTF-8 into an owned string.
///
/// Trusted: `String::from_utf8` returns `Ok` exactly when the bytes are
/// well-formed UTF-8, and the string it returns holds those same bytes.
#[verifier::external_body]
pub(crate) fn string_from_utf8(bytes: Vec<u8>) -> (r: Option<String>)
    ensures
        r is Some <==> valid_utf8(bytes@),
        r matches Some(s) ==> utf8_of(s@) == bytes@,
{
    String::from_utf8(bytes).ok()
}

/// The bytes of a string slice, copied into a vector.
pub fn bytes_of(s: &str) -> (v: Vec<u8>)
    ensures
        v@ == utf8_of(s@),
{
    let b = s.as_bytes();
    let mut v: Vec<u8> = Vec::with_capacity(b.len());
    let mut i: usize = 0;
    while i < b.len()
        invariant
            0 <= i <= b@.len(),
            v@ == b@.take(i as int),
        decreases b@.len() - i,
    {
        v.push(b[i]);
        i = i + 1;
        assert(v@ =~= b@.take(i as int));
    }
    assert(b@.take(b@.len() as int) =~= b@);
    v
}

/// Builds a `String` from bytes known to be well-formed UTF-8.
pub fn string_of_valid(bytes: Vec<u8>) -> (s: String)
    requires
        valid_utf8(bytes@),
    ensures
        utf8_of(s@) == bytes@,
{
    match string_from_utf8(bytes) {
        Some(s) => s,
        None => String::new(),
    }
}

/// `String::from_utf8(bytes).unwrap_or_default()`: the decoded string
/// when the bytes are well-formed UTF-8, the empty string otherwise.
pub fn string_or_empty(bytes: Vec<u8>) -> (s: String)
    ensures
        valid_utf8(bytes@) ==> utf8_of(s@) == bytes@,
        !valid_utf8(bytes@) ==> s@ == Seq::<char>::empty(),
{
    match string_from_utf8(bytes) {
        Some(s) => s,
        None => String::new(),
    }
}

/// The UTF-8 bytes of any string are well formed.
pub proof fn lemma_utf8_of_valid(s: Seq<char>)
    ensures
        valid_utf8(utf8_of(s)),
{
    encode_utf8_valid_utf8(s);
}

/// Two strings with the same bytes hold the same characters.
pub proof fn lemma_utf8_of_injective(a: Seq<char>, b: Seq<char>)
    requires
        utf8_of(a) == utf8_of(b),
    ensures
        a == b,
{
    encode_utf8_decode_utf8(a);
    encode_utf8_decode_utf8(b);
}

/// `s.is_char_boundary(i)` as a statement about the bytes of `s`.
pub open spec fn boundary(s: Seq<char>, i: int) -> bool {
    is_char_boundary(utf8_of(s), i)
}

/// Whether `s.get(a..b)` succeeds: the bounds are ordered, in range and
/// on character boundaries.
pub open spec fn slice_ok(s: Seq<char>, a: int, b: int) -> bool {
    0 <= a <= b <= utf8_of(s).len() && boundary(s, a) && boundary(s, b)
}

proof fn lemma_tail_boundary(bytes: Seq<u8>, a: int, b: int)
    requires
        valid_utf8(bytes),
        0 <= a <= b <= bytes.len(),
        is_char_boundary(bytes, a),
        is_char_boundary(bytes, b),
    ensures
        valid_utf8(bytes.subrange(a, bytes.len() as int)),
        is_char_boundary(bytes.subrange(a, bytes.len() as int), b - a),
{
    let tail = bytes.subrange(a, bytes.len() as int);
    valid_utf8_split(bytes, a);
    is_char_boundary_start_end_of_seq(tail);
    if b - a > 0 && b < bytes.len() {
        is_char_boundary_iff_not_is_continuation_byte(bytes, b);
        is_char_boundary_iff_not_is_continuation_byte(tail, b - a);
        assert(tail[b - a] == bytes[b]);
    }
}

/// `s.get(a..b)`: the sub-slice between byte offsets `a` and `b`, or
/// `None` when the bounds are out of order, out of range, or split a
/// character.
pub fn str_get(s: &str, a: usize, b: usize) -> (r: Option<&str>)
    ensures
        r is Some <==> slice_ok(s@, a as int, b as int),
        r matches Some(t) ==> utf8_of(t@) == utf8_of(s@).subrange(a as int, b as int),
{
    let n = s.as_bytes().len();
    if a <= b && b <= n && s.is_char_boundary(a) && s.is_char_boundary(b) {
        proof {
            encode_utf8_valid_utf8(s@);
            lemma_tail_boundary(utf8_of(s@), a as int, b as int);
        }
        let (_, tail) = s.split_at(a);
        let (mid, _) = tail.split_at(b - a);
        proof {
            assert(utf8_of(s@).subrange(a as int, utf8_of(s@).len() as int).subrange(0, b - a)
                =~= utf8_of(s@).subrange(a as int, b as int));
        }
        Some(mid)
    } else {
        None
    }
}

/// `s.get(a..b).unwrap_or("")`.
pub fn str_slice_or_empty(s: &str, a: usize, b: usize) -> (r: &str)
    ensures
        slice_ok(s@, a as int, b as int) ==> utf8_of(r@) == utf8_of(s@).subrange(a as int, b as int),
        !slice_ok(s@, a as int, b as int) ==> r@.len() == 0,
{
    match str_get(s, a, b) {
        Some(t) => t,
        None => {
            let e = "";
            proof {
                reveal_strlit("");
            }
            e
        },
    }
}

/// Byte-wise equality of two string slices, which is equality of their
/// characters.
pub fn str_eq(a: &str, b: &str) -> (r: bool)
    ensures
        r == (a@ == b@),
{
    let x = a.as_bytes();
    let y = b.as_bytes();
    if x.len() != y.len() {
        proof {
            if a@ == b@ {
                assert(utf8_of(a@) == utf8_of(b@));
            }
        }
        return false;
    }
    let mut i: usize = 0;
    while i < x.len()
        invariant
            x@ == utf8_of(a@),
            y@ == utf8_of(b@),
            x@.len() == y@.len(),
            i <= x@.len(),
            forall|k: int| 0 <= k < i ==> x@[k] == y@[k],
        decreases x@.len() - i,
    {
        if x[i] != y[i] {
            proof {
                if a@ == b@ {
                    assert(utf8_of(a@)[i as int] == utf8_of(b@)[i as int]);
                }
            }
            return false;
        }
        i = i + 1;
    }
    proof {
        assert(x@ =~= y@);
        lemma_utf8_of_injective(a@, b@);
    }
    true
}

/// Trusted: `String::push_str` appends the slice's characters.
pub assume_specification[ String::push_str ](s: &mut String, string: &str)
    ensures
        final(s)@ == old(s)@ + string@,
;

/// Trusted: `String::push` appends one character.
pub assume_specification[ String::push ](s: &mut String, ch: char)
    ensures
        final(s)@ == old(s)@.push(ch),
;

/// The bytes of a concatenation are the concatenated bytes.
pub proof fn lemma_utf8_of_concat(a: Seq<char>, b: Seq<char>)
    ensures
        utf8_of(a + b) == utf8_of(a) + utf8_of(b),
    decreases a.len(),
{
    if a.len() == 0 {
        assert(a + b =~= b);
        assert(utf8_of(a) =~= seq![]);
        assert(seq![] + utf8_of(b) =~= utf8_of(b));
    } else {
        lemma_utf8_of_concat(a.drop_first(), b);
        assert((a + b).drop_first() =~= a.drop_first() + b);
        assert((a + b)[0] == a[0]);
        let h = encode_scalar(a[0] as u32);
        assert(h + (utf8_of(a.drop_first()) + utf8_of(b)) =~= (h + utf8_of(a.drop_first())) + utf8_of(b));
    }
}

/// An ASCII character is the one byte it encodes to.
pub proof fn lemma_utf8_of_ascii_byte(b: u8)
    requires
        b < 0x80,
    ensures
        utf8_of(seq![b as char]) == seq![b],
{
    let c = b as char;
    assert(seq![c].drop_first() =~= Seq::<char>::empty());
    assert(utf8_of(Seq::<char>::empty()) =~= Seq::<u8>::empty());
    let v = c as u32;
    assert(v == b as u32);
    assert(has_width_1_encoding(v));
    assert((v & 0x7F) as u8 == b) by (bit_vector)
        requires
            v == b as u32,
            b < 0x80,
    ;
    assert(encode_scalar(v) =~= seq![b]);
    assert(seq![b] + Seq::<u8>::empty() =~= seq![b]);
}

/// Trusted: the derived `Clone` of `std::ops::Range` clones both bounds.
pub assume_specification<Idx: Clone>[ <std::ops::Range<Idx> as Clone>::clone ](
    r: &std::ops::Range<Idx>,
) -> (res: std::ops::Range<Idx>)
    ensures
        cloned::<Idx>(r.start, res.start),
        cloned::<Idx>(r.end, res.end),
;

/// The characters of a string slice, collected.
pub fn chars_of(s: &str) -> (v: Vec<char>)
    ensures
        v@ == s@,
{
    broadcast use vstd::string::group_string_axioms;
    let mut v: Vec<char> = Vec::new();
    let mut it = s.chars();
    loop
        invariant
            v@ + it.remaining() == s@,
        ensures
            v@ == s@,
        decreases s@.len() - v@.len(),
    {
        match it.next() {
            Some(c) => {
                proof {
                    assert(v@.push(c) + it.remaining() =~= s@);
                }
                v.push(c);
            },
            None => {
                proof {
                    assert(v@ + Seq::<char>::empty() =~= v@);
                }
                break;
            },
        }
    }
    v
}

/// In well-formed UTF-8 an ASCII byte starts a character and the byte
/// after it starts the next one.
pub proof fn lemma_ascii_boundaries(bytes: Seq<u8>, i: int)
    requires
        valid_utf8(bytes),
        0 <= i < bytes.len(),
        bytes[i] < 0x80,
    ensures
        is_char_boundary(bytes, i),
        is_char_boundary(bytes, i + 1),
    decreases bytes.len(),
{
    is_char_boundary_iff_not_is_continuation_byte(bytes, i);
    let n = length_of_first_scalar(bytes);
    let tail = pop_first_scalar(bytes);
    assert(valid_first_scalar(bytes));
    assert(valid_utf8(tail));
    if i < n {
        assert(i == 0) by {
            if i > 0 {
                assert(is_continuation_byte(bytes[i]));
            }
        }
        assert(n == 1);
        assert(is_char_boundary(tail, 0));
    } else {
        assert(tail.len() == bytes.len() - n);
        assert(tail[i - n] == bytes[i]);
        lemma_ascii_boundaries(tail, i - n);
    }
}

/// The string a `Cow` holds.
pub fn cow_str<'b, 'c>(c: &'b std::borrow::Cow<'c, str>) -> (r: &'b str)
    ensures
        r@ == c@,
{
    match c {
        std::borrow::Cow::Borrowed(x) => x,
        std::borrow::Cow::Owned(o) => o.as_str(),
    }
}

} // verus!
