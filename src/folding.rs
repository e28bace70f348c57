//! Case folding for case-insensitive search.
//!
//! Each character is replaced by its lowercase form as std's
//! `char::to_lowercase` gives it, wherever that form is a single character
//! whose UTF-8 encoding has the same number of bytes; every other character
//! stays as it is. So folding keeps the byte length of each character, and a
//! byte offset in folded text is the same offset in the original text.
use vstd::prelude::*;
use vstd::string::*;
use vstd::utf8::*;

verus! {

/// What `char::to_lowercase` yields for `c`.
pub uninterp spec fn lower_of_char(c: char) -> Seq<char>;

/// The number of bytes in the UTF-8 encoding of `c`.
pub open spec fn char_width(c: char) -> nat {
    encode_scalar(c as u32).len()
}

/// The folded form of one character.
pub open spec fn fold_char(c: char) -> char {
    if lower_of_char(c).len() == 1 && char_width(lower_of_char(c)[0]) == char_width(c) {
        lower_of_char(c)[0]
    } else {
        c
    }
}

/// The folded form of a text.
pub open spec fn fold_chars(s: Seq<char>) -> Seq<char> {
    s.map_values(|c: char| fold_char(c))
}

/// The bytes that matching compares: the text itself when case matters, its
/// folded form otherwise.
pub open spec fn match_key(b: Seq<u8>, case_sensitive: bool) -> Seq<u8> {
    if case_sensitive {
        b
    } else {
        encode_utf8(fold_chars(decode_utf8(b)))
    }
}

/// Relies on `str::chars`: the characters of `s`, in order.
#[verifier::external_body]
fn chars_of(s: &str) -> (r: Vec<char>)
    ensures
        r@ == s@,
{
    s.chars().collect()
}

/// Relies on `char::to_lowercase`: the lowercase mapping of `c`, which
/// depends on `c` alone.
#[verifier::external_body]
fn lowercase_char(c: char) -> (r: Vec<char>)
    ensures
        r@ == lower_of_char(c),
{
    c.to_lowercase().collect()
}

/// Relies on `String`'s `FromIterator<char>`: the string of these
/// characters, in order.
#[verifier::external_body]
fn string_of(v: &Vec<char>) -> (r: String)
    ensures
        r@ == v@,
{
    v.iter().collect()
}

fn width_of(c: char) -> (w: usize)
    ensures
        w == char_width(c),
{
    proof {
        char_is_scalar(c);
    }
    let v = c as u32;
    if v <= 0x7F {
        1
    } else if v <= 0x7FF {
        2
    } else if v <= 0xFFFF {
        3
    } else {
        4
    }
}

/// The folded form of `s`.
pub fn fold_text(s: &str) -> (r: String)
    ensures
        r@ == fold_chars(s@),
{
    let cs = chars_of(s);
    let mut out: Vec<char> = Vec::new();
    let mut i: usize = 0;
    while i < cs.len()
        invariant
            cs@ == s@,
            i <= cs@.len(),
            out@ == fold_chars(cs@.take(i as int)),
        decreases cs@.len() - i,
    {
        let c = cs[i];
        let lower = lowercase_char(c);
        if lower.len() == 1 && width_of(lower[0]) == width_of(c) {
            out.push(lower[0]);
        } else {
            out.push(c);
        }
        proof {
            assert(cs@.take(i + 1) =~= cs@.take(i as int).push(c));
            assert(fold_chars(cs@.take(i + 1)) =~= fold_chars(cs@.take(i as int)).push(fold_char(c)));
        }
        i = i + 1;
    }
    proof {
        assert(cs@.take(i as int) =~= cs@);
    }
    string_of(&out)
}

/// The bytes that matching compares for `s` (see `match_key`).
pub fn match_key_of(s: &str, case_sensitive: bool) -> (r: Vec<u8>)
    ensures
        r@ == match_key(s.spec_bytes(), case_sensitive),
{
    if case_sensitive {
        vstd::slice::slice_to_vec(s.as_bytes())
    } else {
        let f = fold_text(s);
        proof {
            encode_utf8_decode_utf8(s@);
        }
        vstd::slice::slice_to_vec(f.as_str().as_bytes())
    }
}

/// Folding keeps the byte length of a text.
pub proof fn lemma_fold_keeps_length(s: Seq<char>)
    ensures
        encode_utf8(fold_chars(s)).len() == encode_utf8(s).len(),
    decreases s.len(),
{
    if s.len() > 0 {
        assert(fold_chars(s).drop_first() =~= fold_chars(s.drop_first()));
        lemma_fold_keeps_length(s.drop_first());
    }
}

/// Folding keeps the character boundaries of a text.
pub proof fn lemma_fold_keeps_boundaries(s: Seq<char>, i: int)
    ensures
        is_char_boundary(encode_utf8(fold_chars(s)), i) == is_char_boundary(encode_utf8(s), i),
    decreases s.len(),
{
    let e = encode_utf8(s);
    let f = encode_utf8(fold_chars(s));
    encode_utf8_valid_utf8(s);
    encode_utf8_valid_utf8(fold_chars(s));
    lemma_fold_keeps_length(s);
    if s.len() > 0 && i != 0 && 0 <= i <= e.len() {
        let fs = fold_chars(s);
        encode_utf8_first_scalar(s);
        encode_utf8_first_scalar(fs);
        assert(fs[0] == fold_char(s[0]));
        assert(fs.drop_first() =~= fold_chars(s.drop_first()));
        assert(pop_first_scalar(e) =~= encode_utf8(s.drop_first()));
        assert(pop_first_scalar(f) =~= encode_utf8(fs.drop_first()));
        lemma_fold_keeps_boundaries(s.drop_first(), i - char_width(s[0]));
    }
}

} // verus!
