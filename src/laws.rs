//! Laws that relate the operations of `SemiStr`.
use crate::semi_str::SemiStr;
use crate::text::{flip, lemma_encode_injective, lemma_lex_cmp_equal, lemma_lex_cmp_flip,
    lemma_lex_cmp_less_trans, lex_cmp};
use core::cmp::Ordering;
use vstd::prelude::*;
use vstd::std_specs::cmp::{PartialEqSpec, PartialOrdSpec};
use vstd::string::StringSliceAdditionalSpecFns;
use vstd::utf8::*;

verus! {

broadcast use vstd::utf8::group_utf8_lib;

/// Equality of values is reflexive, symmetric and transitive.
pub proof fn lemma_eq_is_equivalence(a: SemiStr, b: SemiStr, c: SemiStr)
    ensures
        a.eq_spec(&a),
        a.eq_spec(&b) == b.eq_spec(&a),
        a.eq_spec(&b) && b.eq_spec(&c) ==> a.eq_spec(&c),
{
}

/// The order of values is the byte-lexicographic order of their encodings;
/// it is total, antisymmetric, transitive, and `Equal` exactly on equal values.
pub proof fn lemma_order_is_total(a: SemiStr, b: SemiStr, c: SemiStr)
    ensures
        a.partial_cmp_spec(&b) == Some(lex_cmp(encode_utf8(a@), encode_utf8(b@))),
        (a.partial_cmp_spec(&b) == Some(Ordering::Equal)) == a.eq_spec(&b),
        b.partial_cmp_spec(&a) == Some(flip(lex_cmp(encode_utf8(a@), encode_utf8(b@)))),
        a.partial_cmp_spec(&b) == Some(Ordering::Less) && b.partial_cmp_spec(&c) == Some(
            Ordering::Less,
        ) ==> a.partial_cmp_spec(&c) == Some(Ordering::Less),
{
    lemma_lex_cmp_equal(encode_utf8(a@), encode_utf8(b@));
    lemma_encode_injective(a@, b@);
    lemma_lex_cmp_flip(encode_utf8(a@), encode_utf8(b@));
    if lex_cmp(encode_utf8(a@), encode_utf8(b@)) == Ordering::Less && lex_cmp(
        encode_utf8(b@),
        encode_utf8(c@),
    ) == Ordering::Less {
        lemma_lex_cmp_less_trans(encode_utf8(a@), encode_utf8(b@), encode_utf8(c@));
    }
}

/// Equal values have the same encoded text, which is all that `Hash` feeds
/// to the hasher; so equal values hash alike, whatever their shape.
pub proof fn lemma_equal_values_hash_same_bytes(a: SemiStr, b: SemiStr)
    requires
        a.eq_spec(&b),
    ensures
        encode_utf8(a@) == encode_utf8(b@),
{
}

/// The bytes of a text are valid UTF-8 and decode back to it, so building a
/// value from a text and from that text's bytes gives equal values.
pub proof fn lemma_text_bytes_round_trip(s: &str)
    ensures
        valid_utf8(s.spec_bytes()),
        decode_utf8(s.spec_bytes()) == s@,
{
}

/// Values that hold the same text are equal and compare `Equal`, whichever
/// constructor built them (from a text, its bytes, an owned string, or its
/// characters).
pub proof fn lemma_same_text_values_equal(a: SemiStr, b: SemiStr, s: Seq<char>)
    requires
        a@ == s,
        b@ == s,
    ensures
        a.eq_spec(&b),
        a.partial_cmp_spec(&b) == Some(Ordering::Equal),
{
    lemma_lex_cmp_equal(encode_utf8(a@), encode_utf8(b@));
}

/// A value equals a text, on either side of `==`, exactly when they hold
/// the same characters.
pub proof fn lemma_text_equality_both_ways(v: SemiStr, s: &str)
    ensures
        <SemiStr as PartialEqSpec<str>>::eq_spec(&v, s) == (v@ == s@),
        <str as PartialEqSpec<SemiStr>>::eq_spec(s, &v) == (v@ == s@),
        <SemiStr as PartialEqSpec<&str>>::eq_spec(&v, &s) == (v@ == s@),
        <&str as PartialEqSpec<SemiStr>>::eq_spec(&s, &v) == (v@ == s@),
{
}

} // verus!
