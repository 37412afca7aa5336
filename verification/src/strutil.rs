//! Byte- and string-level helpers shared by the codec, router and cache.

use vstd::prelude::*;
use vstd::utf8::{valid_utf8, decode_utf8, pop_first_scalar, length_of_first_scalar};

verus! {

/// The UTF-8 bytes of a string value.
pub open spec fn str_bytes(s: String) -> Seq<u8> {
    vstd::utf8::encode_utf8(s@)
}

/// The characters of an all-ASCII byte sequence, one character per byte.
pub open spec fn ascii_chars_of(s: Seq<u8>) -> Seq<char> {
    s.map_values(|b: u8| b as char)
}

/// Encoding the characters of an all-ASCII byte sequence gives back the
/// bytes.
pub proof fn lemma_ascii_chars_bytes(s: Seq<u8>)
    requires
        forall|i: int| 0 <= i < s.len() ==> s[i] < 128,
    ensures
        vstd::utf8::encode_utf8(ascii_chars_of(s)) == s,
{
    let chars = ascii_chars_of(s);
    assert(vstd::utf8::is_ascii_chars(chars));
    vstd::utf8::is_ascii_chars_encode_utf8(chars);
    assert(vstd::utf8::encode_utf8(chars) =~= s);
}

/// ASCII bytes are valid UTF-8 and decode to one character per byte.
pub proof fn lemma_ascii_decode(s: Seq<u8>)
    requires
        forall|i: int| 0 <= i < s.len() ==> s[i] < 128,
    ensures
        valid_utf8(s),
        decode_utf8(s) == ascii_chars_of(s),
    decreases s.len(),
{
    if s.len() == 0 {
        assert(decode_utf8(s) =~= ascii_chars_of(s));
    } else {
        let b0 = s[0];
        assert(b0 & 0x80 != 0x80 && b0 & 0x7f == b0 && b0 & 0xe0 != 0xc0 && b0 & 0xf0 != 0xe0
            && b0 & 0xf8 != 0xf0) by (bit_vector)
            requires
                b0 < 128,
        ;
        assert(length_of_first_scalar(s) == 1);
        let rest = pop_first_scalar(s);
        assert(rest =~= s.subrange(1, s.len() as int));
        lemma_ascii_decode(rest);
        assert(decode_utf8(s) =~= ascii_chars_of(s));
    }
}

/// Relies on `String::from_utf8`: it returns `Ok` exactly on valid UTF-8
/// input, and the returned string holds the characters those bytes encode.
#[verifier::external_body]
pub fn utf8_to_string(v: Vec<u8>) -> (r: Option<String>)
    ensures
        r is Some <==> valid_utf8(v@),
        r is Some ==> r.unwrap()@ == decode_utf8(v@),
{
    String::from_utf8(v).ok()
}

/// Relies on `str::from_utf8`: it returns `Ok` exactly on valid UTF-8 input,
/// and the returned text holds the characters those bytes encode.
#[verifier::external_body]
pub fn bytes_as_str(v: &[u8]) -> (r: Option<&str>)
    ensures
        r is Some <==> valid_utf8(v@),
        r is Some ==> r.unwrap()@ == decode_utf8(v@),
{
    core::str::from_utf8(v).ok()
}

/// Turns valid UTF-8 bytes into a `String` holding exactly those bytes.
pub fn bytes_to_string(v: Vec<u8>) -> (r: String)
    requires
        valid_utf8(v@),
    ensures
        str_bytes(r) == v@,
{
    proof {
        broadcast use vstd::utf8::decode_utf8_encode_utf8;

    }
    match utf8_to_string(v) {
        Some(s) => s,
        None => {
            proof {
                assert(false);
            }
            String::new()
        },
    }
}

/// Clones a byte vector; the copy holds the same bytes.
pub fn clone_bytes(v: &Vec<u8>) -> (r: Vec<u8>)
    ensures
        r@ == v@,
{
    let r = v.clone();
    proof {
        assert(r@ =~= v@);
    }
    r
}

/// Compares two byte slices for equality.
pub fn bytes_eq(a: &[u8], b: &[u8]) -> (r: bool)
    ensures
        r == (a@ == b@),
{
    if a.len() != b.len() {
        proof {
            assert(a@.len() != b@.len());
        }
        return false;
    }
    let mut i: usize = 0;
    while i < a.len()
        invariant
            i <= a@.len(),
            a@.len() == b@.len(),
            forall|j: int| 0 <= j < i ==> a@[j] == b@[j],
        decreases a@.len() - i,
    {
        if a[i] != b[i] {
            return false;
        }
        i += 1;
    }
    proof {
        assert(a@ =~= b@);
    }
    true
}

} // verus!

verus! {

// ---------------------------------------------------------------------------
// Splitting byte sequences on a separator
// ---------------------------------------------------------------------------

/// Index of the first occurrence of `sep` in `s`, or `s.len()` when absent.
pub open spec fn find_sep(s: Seq<u8>, sep: u8) -> int
    decreases s.len(),
{
    if s.len() == 0 {
        0
    } else if s[0] == sep {
        0
    } else {
        1 + find_sep(s.drop_first(), sep)
    }
}

pub proof fn lemma_find_sep_bounds(s: Seq<u8>, sep: u8)
    ensures
        0 <= find_sep(s, sep) <= s.len(),
        find_sep(s, sep) < s.len() ==> s[find_sep(s, sep)] == sep,
        forall|j: int| 0 <= j < find_sep(s, sep) ==> s[j] != sep,
    decreases s.len(),
{
    if s.len() > 0 && s[0] != sep {
        lemma_find_sep_bounds(s.drop_first(), sep);
        assert forall|j: int| 0 <= j < find_sep(s, sep) implies s[j] != sep by {
            if j > 0 {
                assert(s.drop_first()[j - 1] != sep);
            }
        }
    }
}

pub proof fn lemma_find_sep_is(s: Seq<u8>, sep: u8, i: int)
    requires
        0 <= i <= s.len(),
        forall|j: int| 0 <= j < i ==> s[j] != sep,
        i < s.len() ==> s[i] == sep,
    ensures
        find_sep(s, sep) == i,
    decreases i,
{
    if s.len() == 0 {
    } else if i == 0 {
    } else {
        lemma_find_sep_is(s.drop_first(), sep, i - 1);
    }
}

/// The pieces of `s` between occurrences of `sep`; one more piece than
/// separators, so the result is never empty.
pub open spec fn spec_split(s: Seq<u8>, sep: u8) -> Seq<Seq<u8>>
    decreases s.len(),
{
    let i = find_sep(s, sep);
    if 0 <= i < s.len() {
        seq![s.subrange(0, i)] + spec_split(s.subrange(i + 1, s.len() as int), sep)
    } else {
        seq![s]
    }
}

pub proof fn lemma_split_len(s: Seq<u8>, sep: u8)
    ensures
        spec_split(s, sep).len() >= 1,
    decreases s.len(),
{
    let i = find_sep(s, sep);
    if 0 <= i < s.len() {
        lemma_split_len(s.subrange(i + 1, s.len() as int), sep);
    }
}

/// The byte views of a vector of byte vectors.
pub open spec fn seqs_of(v: Seq<Vec<u8>>) -> Seq<Seq<u8>> {
    v.map_values(|x: Vec<u8>| x@)
}

/// Splits a byte slice on a separator byte.
pub fn split_bytes(s: &[u8], sep: u8) -> (r: Vec<Vec<u8>>)
    ensures
        seqs_of(r@) == spec_split(s@, sep),
    decreases s@.len(),
{
    let mut i: usize = 0;
    loop
        invariant
            0 <= i <= s@.len(),
            forall|j: int| 0 <= j < i ==> s@[j] != sep,
        decreases s@.len() - i,
    {
        if i == s.len() {
            proof {
                lemma_find_sep_is(s@, sep, i as int);
            }
            let piece = vstd::slice::slice_to_vec(s);
            let mut r: Vec<Vec<u8>> = Vec::new();
            r.push(piece);
            proof {
                assert(seqs_of(r@) =~= spec_split(s@, sep));
            }
            return r;
        }
        if s[i] == sep {
            proof {
                lemma_find_sep_is(s@, sep, i as int);
            }
            let piece = vstd::slice::slice_to_vec(vstd::slice::slice_subrange(s, 0, i));
            let rest = vstd::slice::slice_subrange(s, i + 1, s.len());
            let mut r = split_bytes(rest, sep);
            r.insert(0, piece);
            proof {
                assert(seqs_of(r@) =~= spec_split(s@, sep));
            }
            return r;
        }
        i += 1;
    }
}

/// Joining the split pieces with the separator gives the bytes back, so a
/// split determines its input.
pub proof fn lemma_join_split(s: Seq<u8>, sep: u8)
    ensures
        spec_join(spec_split(s, sep), sep) == s,
    decreases s.len(),
{
    lemma_find_sep_bounds(s, sep);
    let i = find_sep(s, sep);
    if 0 <= i < s.len() {
        let rest = s.subrange(i + 1, s.len() as int);
        lemma_join_split(rest, sep);
        lemma_split_len(rest, sep);
        let parts = spec_split(s, sep);
        assert(parts.len() >= 2);
        assert(parts[0] == s.subrange(0, i));
        assert(parts.drop_first() =~= spec_split(rest, sep));
        assert(spec_join(parts, sep) =~= s.subrange(0, i) + seq![sep] + rest);
        assert(s.subrange(0, i) + seq![sep] + rest =~= s);
    }
}

/// Joins byte sequences with a separator byte between adjacent pieces.
pub open spec fn spec_join(parts: Seq<Seq<u8>>, sep: u8) -> Seq<u8>
    decreases parts.len(),
{
    if parts.len() == 0 {
        Seq::empty()
    } else if parts.len() == 1 {
        parts[0]
    } else {
        parts[0] + seq![sep] + spec_join(parts.drop_first(), sep)
    }
}

/// Joins byte vectors with a separator byte between adjacent pieces.
pub fn join_bytes(parts: &Vec<Vec<u8>>, from: usize, sep: u8) -> (r: Vec<u8>)
    requires
        from <= parts@.len(),
    ensures
        r@ == spec_join(seqs_of(parts@).skip(from as int), sep),
    decreases parts@.len() - from,
{
    let ghost tail = seqs_of(parts@).skip(from as int);
    if from == parts.len() {
        let r: Vec<u8> = Vec::new();
        proof {
            assert(tail.len() == 0);
            assert(r@ =~= spec_join(tail, sep));
        }
        r
    } else if from + 1 == parts.len() {
        let r = clone_bytes(&parts[from]);
        proof {
            assert(tail.len() == 1);
            assert(tail[0] == parts@[from as int]@);
        }
        r
    } else {
        let mut r = clone_bytes(&parts[from]);
        r.push(sep);
        let mut rest = join_bytes(parts, from + 1, sep);
        r.append(&mut rest);
        proof {
            assert(seqs_of(parts@).skip(from as int + 1) =~= tail.drop_first());
            assert(r@ =~= tail[0] + seq![sep] + spec_join(tail.drop_first(), sep));
        }
        r
    }
}

/// Every piece of a valid UTF-8 sequence split on an ASCII separator is
/// itself valid UTF-8.
pub proof fn lemma_split_pieces_valid(s: Seq<u8>, sep: u8)
    requires
        valid_utf8(s),
        sep < 128,
    ensures
        forall|k: int|
            0 <= k < spec_split(s, sep).len() ==> valid_utf8(#[trigger] spec_split(s, sep)[k]),
    decreases s.len(),
{
    let i = find_sep(s, sep);
    lemma_find_sep_bounds(s, sep);
    if 0 <= i < s.len() {
        assert(!vstd::utf8::is_continuation_byte(s[i]));
        vstd::utf8::is_char_boundary_iff_not_is_continuation_byte(s, i);
        vstd::utf8::valid_utf8_split(s, i);
        let right = s.subrange(i, s.len() as int);
        assert(valid_utf8(right));
        assert(right[0] == sep);
        assert(right.len() > 0);
        assert(vstd::utf8::is_leading_byte_width_1(right[0]));
        assert(vstd::utf8::length_of_first_scalar(right) == 1);
        assert(pop_first_scalar(right) =~= s.subrange(i + 1, s.len() as int));
        assert(valid_utf8(s.subrange(i + 1, s.len() as int)));
        lemma_split_pieces_valid(s.subrange(i + 1, s.len() as int), sep);
        assert forall|k: int|
            0 <= k < spec_split(s, sep).len() implies valid_utf8(
            #[trigger] spec_split(s, sep)[k],
        ) by {
            if k == 0 {
            } else {
                assert(spec_split(s, sep)[k] == spec_split(
                    s.subrange(i + 1, s.len() as int),
                    sep,
                )[k - 1]);
            }
        }
    }
}

/// Dropping a leading ASCII byte from a valid UTF-8 sequence keeps it valid.
pub proof fn lemma_ascii_head_tail_valid(s: Seq<u8>)
    requires
        valid_utf8(s),
        s.len() > 0,
        s[0] < 128,
    ensures
        valid_utf8(s.drop_first()),
{
    assert(vstd::utf8::is_leading_byte_width_1(s[0]));
    assert(vstd::utf8::length_of_first_scalar(s) == 1);
    assert(pop_first_scalar(s) =~= s.drop_first());
}

/// Joining valid UTF-8 pieces with an ASCII separator yields valid UTF-8.
pub proof fn lemma_join_valid(parts: Seq<Seq<u8>>, sep: u8)
    requires
        sep < 128,
        forall|k: int| 0 <= k < parts.len() ==> valid_utf8(#[trigger] parts[k]),
    ensures
        valid_utf8(spec_join(parts, sep)),
    decreases parts.len(),
{
    if parts.len() == 0 {
    } else if parts.len() == 1 {
    } else {
        lemma_join_valid(parts.drop_first(), sep);
        lemma_ascii_decode(seq![sep]);
        broadcast use vstd::utf8::valid_utf8_concat;

        assert(valid_utf8(seq![sep] + spec_join(parts.drop_first(), sep)));
        assert(parts[0] + seq![sep] + spec_join(parts.drop_first(), sep) =~= parts[0] + (seq![sep]
            + spec_join(parts.drop_first(), sep)));
        assert(valid_utf8(parts[0] + (seq![sep] + spec_join(parts.drop_first(), sep))));
    }
}

// ---------------------------------------------------------------------------
// ASCII case folding
// ---------------------------------------------------------------------------

/// ASCII lower-casing of one byte.
pub open spec fn lower_byte(b: u8) -> u8 {
    if 65 <= b <= 90 {
        (b + 32) as u8
    } else {
        b
    }
}

/// ASCII lower-casing of a byte sequence.
pub open spec fn lower_bytes(s: Seq<u8>) -> Seq<u8> {
    s.map_values(|b: u8| lower_byte(b))
}

/// Compares two byte slices ignoring ASCII case.
pub fn eq_ignore_ascii_case(a: &[u8], b: &[u8]) -> (r: bool)
    ensures
        r == (lower_bytes(a@) == lower_bytes(b@)),
{
    if a.len() != b.len() {
        proof {
            assert(lower_bytes(a@).len() != lower_bytes(b@).len());
        }
        return false;
    }
    let mut i: usize = 0;
    while i < a.len()
        invariant
            i <= a@.len(),
            a@.len() == b@.len(),
            forall|j: int| 0 <= j < i ==> lower_bytes(a@)[j] == lower_bytes(b@)[j],
        decreases a@.len() - i,
    {
        let x = a[i];
        let y = b[i];
        let xl = if 65 <= x && x <= 90 { x + 32 } else { x };
        let yl = if 65 <= y && y <= 90 { y + 32 } else { y };
        if xl != yl {
            proof {
                assert(lower_bytes(a@)[i as int] != lower_bytes(b@)[i as int]);
            }
            return false;
        }
        i += 1;
    }
    proof {
        assert(lower_bytes(a@) =~= lower_bytes(b@));
    }
    true
}

// ---------------------------------------------------------------------------
// Decimal numbers
// ---------------------------------------------------------------------------

pub open spec fn is_digit(b: u8) -> bool {
    48 <= b <= 57
}

pub open spec fn all_digits(s: Seq<u8>) -> bool {
    forall|i: int| 0 <= i < s.len() ==> is_digit(#[trigger] s[i])
}

/// The number denoted by a digit sequence (most significant first).
pub open spec fn dec_value(s: Seq<u8>) -> int
    decreases s.len(),
{
    if s.len() == 0 {
        0
    } else {
        dec_value(s.drop_last()) * 10 + (s.last() - 48)
    }
}

/// The canonical decimal digits of a non-negative number.
pub open spec fn dec_repr(n: int) -> Seq<u8>
    decreases n,
{
    if n < 10 {
        seq![(48 + if n >= 0 { n } else { 0 }) as u8]
    } else {
        dec_repr(n / 10) + seq![(48 + n % 10) as u8]
    }
}

/// Renders a number as decimal digit bytes.
pub fn usize_to_dec(n: usize) -> (r: Vec<u8>)
    ensures
        r@ == dec_repr(n as int),
    decreases n,
{
    if n < 10 {
        let mut r: Vec<u8> = Vec::new();
        r.push(48 + n as u8);
        proof {
            assert(r@ =~= dec_repr(n as int));
        }
        r
    } else {
        let mut r = usize_to_dec(n / 10);
        r.push(48 + (n % 10) as u8);
        proof {
            assert(r@ =~= dec_repr(n as int));
        }
        r
    }
}

pub proof fn lemma_dec_value_grows(s: Seq<u8>, i: int)
    requires
        0 <= i <= s.len(),
        all_digits(s),
    ensures
        dec_value(s.take(i)) <= dec_value(s),
    decreases s.len() - i,
{
    if i < s.len() {
        lemma_dec_value_grows(s, i + 1);
        let t = s.take(i + 1);
        assert(t.drop_last() =~= s.take(i));
        assert(all_digits(s.take(i))) by {
            assert(forall|j: int| 0 <= j < i ==> s.take(i)[j] == s[j]);
        }
        lemma_dec_value_nonneg(s.take(i));
        assert(is_digit(s[i]));
        assert(dec_value(s.take(i)) <= dec_value(s.take(i + 1)));
    } else {
        assert(s.take(i) =~= s);
    }
}

/// The size that a `Content-Length` header denotes: the value of its digits,
/// or zero when the text is empty, holds a non-digit, or does not fit in
/// `usize`.
pub open spec fn content_length_of(s: Seq<u8>) -> int {
    if s.len() >= 1 && all_digits(s) && dec_value(s) <= usize::MAX {
        dec_value(s)
    } else {
        0
    }
}

/// Parses a `Content-Length` value.
pub fn parse_content_length(v: &[u8]) -> (r: usize)
    ensures
        r == content_length_of(v@),
{
    if v.len() == 0 {
        return 0;
    }
    let mut acc: usize = 0;
    let mut i: usize = 0;
    while i < v.len()
        invariant
            0 < v@.len(),
            i <= v@.len(),
            acc == dec_value(v@.take(i as int)),
            all_digits(v@.take(i as int)),
        decreases v@.len() - i,
    {
        let b = v[i];
        if b < 48 || b > 57 {
            proof {
                assert(!is_digit(v@[i as int]));
                assert(!all_digits(v@));
            }
            return 0;
        }
        let d = (b - 48) as usize;
        if acc > (usize::MAX - d) / 10 {
            proof {
                assert(v@.take(i as int + 1).drop_last() =~= v@.take(i as int));
                assert(dec_value(v@.take(i as int + 1)) == acc * 10 + d);
                assert(acc * 10 + d > usize::MAX);
                if all_digits(v@) {
                    lemma_dec_value_grows(v@, i as int + 1);
                }
            }
            return 0;
        }
        proof {
            assert(v@.take(i as int + 1).drop_last() =~= v@.take(i as int));
        }
        acc = acc * 10 + d;
        i += 1;
    }
    proof {
        assert(v@.take(v@.len() as int) =~= v@);
        lemma_dec_value_nonneg(v@);
    }
    acc
}

pub proof fn lemma_dec_value_nonneg(s: Seq<u8>)
    requires
        all_digits(s),
    ensures
        dec_value(s) >= 0,
    decreases s.len(),
{
    if s.len() > 0 {
        assert(all_digits(s.drop_last())) by {
            assert(forall|j: int| 0 <= j < s.len() - 1 ==> s.drop_last()[j] == s[j]);
        }
        assert(is_digit(s.last()));
        lemma_dec_value_nonneg(s.drop_last());
    }
}

// ---------------------------------------------------------------------------
// Hexadecimal rendering
// ---------------------------------------------------------------------------

/// The upper-case hex digit for a value below 16.
pub open spec fn hex_digit(n: int) -> u8 {
    if n < 10 {
        (48 + n) as u8
    } else {
        (55 + n) as u8
    }
}

/// Two upper-case hex digits per byte.
pub open spec fn hex_of(s: Seq<u8>) -> Seq<u8> {
    Seq::new(2 * s.len(), |i: int| if i % 2 == 0 {
        hex_digit(s[i / 2] as int / 16)
    } else {
        hex_digit(s[i / 2] as int % 16)
    })
}

/// Renders bytes as an upper-case hex string.
pub fn hex_upper(s: &Vec<u8>) -> (r: String)
    ensures
        r@ == ascii_chars_of(hex_of(s@)),
{
    let mut out: Vec<u8> = Vec::new();
    let mut i: usize = 0;
    while i < s.len()
        invariant
            i <= s@.len(),
            out@ =~= hex_of(s@).take(2 * i as int),
        decreases s@.len() - i,
    {
        let b = s[i];
        let hi = b / 16;
        let lo = b % 16;
        out.push(if hi < 10 { 48 + hi } else { 55 + hi });
        out.push(if lo < 10 { 48 + lo } else { 55 + lo });
        proof {
            assert(out@ =~= hex_of(s@).take(2 * (i as int + 1)));
        }
        i += 1;
    }
    proof {
        assert(out@ =~= hex_of(s@));
        assert(forall|j: int| 0 <= j < out@.len() ==> out@[j] < 128);
        lemma_ascii_decode(out@);
    }
    match utf8_to_string(out) {
        Some(x) => x,
        None => {
            proof {
                assert(false);
            }
            String::new()
        },
    }
}

} // verus!

verus! {

/// Finds the first occurrence of a byte.
pub fn find_byte(s: &[u8], sep: u8) -> (r: usize)
    ensures
        r == find_sep(s@, sep),
        r <= s@.len(),
        r < s@.len() ==> s@[r as int] == sep,
{
    let mut i: usize = 0;
    while i < s.len()
        invariant
            i <= s@.len(),
            forall|j: int| 0 <= j < i ==> s@[j] != sep,
        decreases s@.len() - i,
    {
        if s[i] == sep {
            proof {
                lemma_find_sep_is(s@, sep, i as int);
            }
            return i;
        }
        i += 1;
    }
    proof {
        lemma_find_sep_is(s@, sep, i as int);
    }
    i
}

/// Cutting a valid UTF-8 sequence around an ASCII byte leaves both sides
/// valid.
pub proof fn lemma_cut_at_ascii(s: Seq<u8>, i: int)
    requires
        valid_utf8(s),
        0 <= i < s.len(),
        s[i] < 128,
    ensures
        valid_utf8(s.take(i)),
        valid_utf8(s.skip(i + 1)),
{
    assert(!vstd::utf8::is_continuation_byte(s[i]));
    vstd::utf8::is_char_boundary_iff_not_is_continuation_byte(s, i);
    vstd::utf8::valid_utf8_split(s, i);
    assert(s.take(i) =~= s.subrange(0, i));
    let right = s.subrange(i, s.len() as int);
    assert(right[0] == s[i]);
    lemma_ascii_head_tail_valid(right);
    assert(right.drop_first() =~= s.skip(i + 1));
}

} // verus!

verus! {

/// Mapping distributes over push.
pub proof fn lemma_map_push<A, B>(s: Seq<A>, f: spec_fn(A) -> B, x: A)
    ensures
        (s.push(x)).map_values(f) =~= s.map_values(f).push(f(x)),
{
}

} // verus!

verus! {

/// Decimal digits are ASCII digits.
pub proof fn lemma_dec_repr_ascii(n: int)
    ensures
        forall|i: int|
            0 <= i < dec_repr(n).len() ==> 48 <= #[trigger] dec_repr(n)[i] <= 57,
    decreases n,
{
    if n >= 10 {
        lemma_dec_repr_ascii(n / 10);
        assert forall|i: int|
            0 <= i < dec_repr(n).len() implies 48 <= #[trigger] dec_repr(n)[i] <= 57 by {
            if i < dec_repr(n / 10).len() {
                assert(dec_repr(n)[i] == dec_repr(n / 10)[i]);
            }
        }
    }
}

} // verus!
