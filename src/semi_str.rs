//! The compact immutable string value.
use crate::error::{Error, Result};
use crate::text::{bytes_equal, bytes_equal_range, compare_bytes, encode_char, lemma_encode_concat,
    lemma_encode_empty, lemma_encode_injective, lemma_encode_len_at_least, lemma_encode_push,
    lex_cmp, push_char, utf8_text};
use core::cmp::Ordering;
use std::sync::Arc;
use vstd::prelude::*;
use vstd::string::StringSliceAdditionalSpecFns;
use vstd::utf8::*;

verus! {

broadcast use vstd::utf8::group_utf8_lib;

/// Longest text, in bytes, that a value keeps inside itself.
pub const INLINE_CAP: usize = 12;

/// An immutable UTF-8 string of at most `u32::MAX` bytes.
///
/// The byte length alone decides the shape: a text of at most twelve bytes
/// lives in `head`, zero-padded; a longer one lives in a shared buffer, and
/// `head` keeps a copy of its first four bytes to speed up equality.
#[derive(Debug)]
pub struct SemiStr {
    len: u32,
    head: [u8; 12],
    heap: Option<Arc<String>>,
}

/// The twelve payload bytes that a value with the given encoding holds.
pub open spec fn head_of(bytes: Seq<u8>) -> Seq<u8> {
    if bytes.len() <= 12 {
        bytes + Seq::new((12 - bytes.len()) as nat, |i: int| 0u8)
    } else {
        bytes.subrange(0, 4) + Seq::new(8, |i: int| 0u8)
    }
}

/// Two encodings of one length up to twelve bytes have equal payloads exactly
/// when they are equal.
proof fn lemma_head_of_short(a: Seq<u8>, b: Seq<u8>)
    requires
        a.len() == b.len(),
        a.len() <= 12,
    ensures
        (head_of(a) == head_of(b)) <==> (a == b),
{
    if head_of(a) == head_of(b) {
        assert(head_of(a).subrange(0, a.len() as int) =~= a);
        assert(head_of(b).subrange(0, b.len() as int) =~= b);
    }
}

/// A long encoding's payload starts with its first four bytes.
proof fn lemma_head_of_long(a: Seq<u8>)
    requires
        a.len() > 12,
    ensures
        head_of(a).subrange(0, 4) == a.subrange(0, 4),
{
    assert(head_of(a).subrange(0, 4) =~= a.subrange(0, 4));
}

impl View for SemiStr {
    type V = Seq<char>;

    closed spec fn view(&self) -> Seq<char> {
        match self.heap {
            Some(h) => h@,
            None => decode_utf8(self.head@.subrange(0, self.len as int)),
        }
    }
}

impl SemiStr {
    #[verifier::type_invariant]
    spec fn inv(self) -> bool {
        &&& self.len as int == encode_utf8(self@).len()
        &&& (self.len <= 12) == (self.heap is None)
        &&& self.head@ == head_of(encode_utf8(self@))
        &&& self.heap is None ==> valid_utf8(self.head@.subrange(0, self.len as int))
    }

    /// Whether the value keeps its bytes inside itself rather than in a
    /// shared buffer.
    pub closed spec fn spec_is_inline(&self) -> bool {
        self.heap is None
    }

    /// Builds the inline form of a text of at most twelve bytes.
    fn inline_str(s: &str) -> (r: SemiStr)
        requires
            encode_utf8(s@).len() <= 12,
        ensures
            r@ == s@,
            r.spec_is_inline(),
    {
        let b = s.as_bytes();
        let n = b.len();
        let mut head = [0u8; 12];
        let mut i: usize = 0;
        while i < n
            invariant
                n == b@.len(),
                n <= 12,
                i <= n,
                forall|k: int| 0 <= k < i ==> head@[k] == b@[k],
                forall|k: int| i <= k < 12 ==> head@[k] == 0,
            decreases n - i,
        {
            head[i] = b[i];
            i += 1;
        }
        proof {
            assert(head@.subrange(0, n as int) =~= b@);
            assert(head@ =~= head_of(b@));
        }
        SemiStr { len: n as u32, head, heap: None }
    }

    /// Builds the heap form, taking the string as the shared buffer.
    fn heap_string(s: String) -> (r: SemiStr)
        requires
            12 < encode_utf8(s@).len() <= u32::MAX,
        ensures
            r@ == s@,
            !r.spec_is_inline(),
    {
        let b = s.as_str().as_bytes();
        let n = b.len();
        let head: [u8; 12] = [b[0], b[1], b[2], b[3], 0, 0, 0, 0, 0, 0, 0, 0];
        proof {
            assert(head@ =~= head_of(b@));
        }
        SemiStr { len: n as u32, head, heap: Some(Arc::new(s)) }
    }

    /// Builds the heap form from a copy of the text.
    fn heap_str(s: &str) -> (r: SemiStr)
        requires
            12 < encode_utf8(s@).len() <= u32::MAX,
        ensures
            r@ == s@,
            !r.spec_is_inline(),
    {
        Self::heap_string(s.to_owned())
    }

    /// Builds a value from a text; fails when the text is longer than
    /// `u32::MAX` bytes.
    pub fn try_from_str(value: &str) -> (r: Result<SemiStr>)
        ensures
            match r {
                Ok(v) => {
                    &&& encode_utf8(value@).len() <= u32::MAX
                    &&& v@ == value@
                    &&& v.spec_is_inline() == (encode_utf8(value@).len() <= 12)
                },
                Err(Error::StringTooLong(n)) => {
                    &&& encode_utf8(value@).len() > u32::MAX
                    &&& n as int == encode_utf8(value@).len()
                },
                Err(Error::InvalidUtf8String) => false,
            },
    {
        let n = value.as_bytes().len();
        if n <= INLINE_CAP {
            Ok(Self::inline_str(value))
        } else if n <= u32::MAX as usize {
            Ok(Self::heap_str(value))
        } else {
            Err(Error::StringTooLong(n))
        }
    }

    /// Builds a value from an owned string, reusing its buffer for a long
    /// text; fails when the text is longer than `u32::MAX` bytes.
    pub fn try_from_string(value: String) -> (r: Result<SemiStr>)
        ensures
            match r {
                Ok(v) => {
                    &&& encode_utf8(value@).len() <= u32::MAX
                    &&& v@ == value@
                    &&& v.spec_is_inline() == (encode_utf8(value@).len() <= 12)
                },
                Err(Error::StringTooLong(n)) => {
                    &&& encode_utf8(value@).len() > u32::MAX
                    &&& n as int == encode_utf8(value@).len()
                },
                Err(Error::InvalidUtf8String) => false,
            },
    {
        let n = value.as_str().as_bytes().len();
        if n <= INLINE_CAP {
            Ok(Self::inline_str(value.as_str()))
        } else if n <= u32::MAX as usize {
            Ok(Self::heap_string(value))
        } else {
            Err(Error::StringTooLong(n))
        }
    }

    /// Builds a value from bytes, which must be valid UTF-8 of at most
    /// `u32::MAX` bytes.
    pub fn try_from_bytes(value: &[u8]) -> (r: Result<SemiStr>)
        ensures
            match r {
                Ok(v) => {
                    &&& valid_utf8(value@)
                    &&& value@.len() <= u32::MAX
                    &&& v@ == decode_utf8(value@)
                    &&& v.spec_is_inline() == (value@.len() <= 12)
                },
                Err(Error::InvalidUtf8String) => !valid_utf8(value@),
                Err(Error::StringTooLong(n)) => {
                    &&& valid_utf8(value@)
                    &&& value@.len() > u32::MAX
                    &&& n as int == value@.len()
                },
            },
    {
        match utf8_text(value) {
            Ok(s) => {
                proof {
                    assert(decode_utf8(encode_utf8(s@)) == s@);
                }
                Self::try_from_str(s)
            },
            Err(_) => Err(Error::InvalidUtf8String),
        }
    }

    /// Builds a value from a text that the caller knows to be at most
    /// `u32::MAX` bytes long.
    pub fn new(s: &str) -> (r: SemiStr)
        requires
            encode_utf8(s@).len() <= u32::MAX,
        ensures
            r@ == s@,
            r.spec_is_inline() == (encode_utf8(s@).len() <= 12),
    {
        match Self::try_from_str(s) {
            Ok(v) => v,
            Err(_) => {
                proof {
                    assert(false);
                }
                Self::inline_str("")
            },
        }
    }

    /// Builds the inline form of a text of at most twelve bytes.
    pub fn inline(s: &str) -> (r: SemiStr)
        requires
            encode_utf8(s@).len() <= INLINE_CAP,
        ensures
            r@ == s@,
            r.spec_is_inline(),
    {
        Self::inline_str(s)
    }

    /// Number of bytes of the encoded text.
    pub fn len(&self) -> (r: usize)
        ensures
            r as int == encode_utf8(self@).len(),
            r <= u32::MAX,
    {
        proof {
            use_type_invariant(self);
        }
        self.len as usize
    }

    /// Whether the text is empty.
    pub fn is_empty(&self) -> (r: bool)
        ensures
            r == (self@.len() == 0),
    {
        proof {
            lemma_encode_empty(self@);
        }
        self.len() == 0
    }

    /// Whether the value keeps its bytes inside itself; true exactly for
    /// texts of at most twelve bytes.
    pub fn is_inline(&self) -> (r: bool)
        ensures
            r == self.spec_is_inline(),
            r == (encode_utf8(self@).len() <= INLINE_CAP),
    {
        proof {
            use_type_invariant(self);
        }
        self.heap.is_none()
    }

    /// The encoded bytes of the text.
    pub fn as_bytes(&self) -> (r: &[u8])
        ensures
            r@ == encode_utf8(self@),
    {
        proof {
            use_type_invariant(self);
        }
        match &self.heap {
            Some(h) => h.as_str().as_bytes(),
            None => {
                let n = self.len as usize;
                &self.head.as_slice()[0..n]
            },
        }
    }

    /// The text.
    pub fn as_str(&self) -> (r: &str)
        ensures
            r@ == self@,
    {
        proof {
            use_type_invariant(self);
        }
        match &self.heap {
            Some(h) => h.as_str(),
            None => {
                let n = self.len as usize;
                match utf8_text(&self.head.as_slice()[0..n]) {
                    Ok(t) => t,
                    Err(_) => {
                        proof {
                            assert(false);
                        }
                        ""
                    },
                }
            },
        }
    }
}

impl SemiStr {
    /// Equality with a text: lengths first, then the stored prefix for a
    /// long text, then all bytes.
    fn eq_text(&self, other: &str) -> (r: bool)
        ensures
            r == (self@ == other@),
    {
        proof {
            use_type_invariant(self);
            lemma_encode_injective(self@, other@);
        }
        let ob = other.as_bytes();
        if self.len as usize != ob.len() {
            return false;
        }
        if ob.len() <= INLINE_CAP {
            return bytes_equal(self.as_bytes(), ob);
        }
        proof {
            lemma_head_of_long(encode_utf8(self@));
        }
        if !bytes_equal_range(self.head.as_slice(), ob, 0, 4) {
            return false;
        }
        bytes_equal(self.as_bytes(), ob)
    }

    /// Byte-lexicographic comparison of the two texts.
    pub fn cmp(&self, other: &SemiStr) -> (r: Ordering)
        ensures
            r == lex_cmp(encode_utf8(self@), encode_utf8(other@)),
    {
        compare_bytes(self.as_bytes(), other.as_bytes())
    }
}

impl PartialEq for SemiStr {
    fn eq(&self, other: &SemiStr) -> (r: bool) {
        proof {
            use_type_invariant(self);
            use_type_invariant(other);
            lemma_encode_injective(self@, other@);
        }
        if self.len != other.len {
            return false;
        }
        if other.len as usize <= INLINE_CAP {
            proof {
                lemma_head_of_short(encode_utf8(self@), encode_utf8(other@));
            }
            return bytes_equal(self.head.as_slice(), other.head.as_slice());
        }
        proof {
            lemma_head_of_long(encode_utf8(self@));
            lemma_head_of_long(encode_utf8(other@));
        }
        if !bytes_equal_range(self.head.as_slice(), other.head.as_slice(), 0, 4) {
            return false;
        }
        bytes_equal(self.as_bytes(), other.as_bytes())
    }
}

impl vstd::std_specs::cmp::PartialEqSpecImpl for SemiStr {
    open spec fn obeys_eq_spec() -> bool {
        true
    }

    open spec fn eq_spec(&self, other: &SemiStr) -> bool {
        self@ == other@
    }
}

impl Eq for SemiStr {
}

impl PartialEq<str> for SemiStr {
    fn eq(&self, other: &str) -> (r: bool) {
        self.eq_text(other)
    }
}

impl vstd::std_specs::cmp::PartialEqSpecImpl<str> for SemiStr {
    open spec fn obeys_eq_spec() -> bool {
        true
    }

    open spec fn eq_spec(&self, other: &str) -> bool {
        self@ == other@
    }
}

impl PartialEq<SemiStr> for str {
    fn eq(&self, other: &SemiStr) -> (r: bool) {
        other.eq_text(self)
    }
}

impl vstd::std_specs::cmp::PartialEqSpecImpl<SemiStr> for str {
    open spec fn obeys_eq_spec() -> bool {
        true
    }

    open spec fn eq_spec(&self, other: &SemiStr) -> bool {
        self@ == other@
    }
}

impl<'a> PartialEq<&'a str> for SemiStr {
    fn eq(&self, other: &&'a str) -> (r: bool) {
        self.eq_text(*other)
    }
}

impl<'a> vstd::std_specs::cmp::PartialEqSpecImpl<&'a str> for SemiStr {
    open spec fn obeys_eq_spec() -> bool {
        true
    }

    open spec fn eq_spec(&self, other: &&'a str) -> bool {
        self@ == (*other)@
    }
}

impl<'a> PartialEq<SemiStr> for &'a str {
    fn eq(&self, other: &SemiStr) -> (r: bool) {
        other.eq_text(*self)
    }
}

impl<'a> vstd::std_specs::cmp::PartialEqSpecImpl<SemiStr> for &'a str {
    open spec fn obeys_eq_spec() -> bool {
        true
    }

    open spec fn eq_spec(&self, other: &SemiStr) -> bool {
        (*self)@ == other@
    }
}

impl PartialOrd for SemiStr {
    fn partial_cmp(&self, other: &SemiStr) -> (r: Option<Ordering>) {
        Some(self.cmp(other))
    }
}

impl vstd::std_specs::cmp::PartialOrdSpecImpl for SemiStr {
    open spec fn obeys_partial_cmp_spec() -> bool {
        true
    }

    open spec fn partial_cmp_spec(&self, other: &SemiStr) -> Option<Ordering> {
        Some(lex_cmp(encode_utf8(self@), encode_utf8(other@)))
    }
}

/// Relies on `Arc::clone`: a second handle to the same shared string.
#[verifier::external_body]
fn share(h: &Arc<String>) -> (r: Arc<String>)
    ensures
        r == *h,
{
    Arc::clone(h)
}

impl Clone for SemiStr {
    fn clone(&self) -> (r: SemiStr)
        ensures
            r == *self,
    {
        proof {
            use_type_invariant(self);
        }
        match &self.heap {
            None => SemiStr { len: self.len, head: self.head, heap: None },
            Some(h) => SemiStr { len: self.len, head: self.head, heap: Some(share(h)) },
        }
    }
}

impl Default for SemiStr {
    fn default() -> (r: SemiStr)
        ensures
            r@ == Seq::<char>::empty(),
            r.spec_is_inline(),
    {
        proof {
            reveal_strlit("");
            assert(encode_utf8(""@) =~= Seq::<u8>::empty());
        }
        Self::inline_str("")
    }
}

/// Relies on `str`'s `Hash`: feeds the text to the hasher.
#[verifier::external_body]
fn hash_text<H: core::hash::Hasher>(t: &str, state: &mut H) {
    core::hash::Hash::hash(t, state)
}

impl core::hash::Hash for SemiStr {
    fn hash<H: core::hash::Hasher>(&self, state: &mut H) {
        hash_text(self.as_str(), state)
    }
}

impl SemiStr {
    /// Appends `chars[from..]` to a string.
    fn push_chars(s: &mut String, chars: &[char], from: usize)
        requires
            from <= chars@.len(),
        ensures
            final(s)@ == old(s)@ + chars@.subrange(from as int, chars@.len() as int),
    {
        let mut j: usize = from;
        while j < chars.len()
            invariant
                from <= j <= chars@.len(),
                s@ == old(s)@ + chars@.subrange(from as int, j as int),
            decreases chars@.len() - j,
        {
            push_char(s, chars[j]);
            j += 1;
            assert(s@ =~= old(s)@ + chars@.subrange(from as int, j as int));
        }
    }

    /// Builds a value from a sequence of characters. Short results are
    /// assembled in a twelve-byte scratch; once the text outgrows it, the
    /// rest goes into a string that becomes the shared buffer.
    pub fn from_chars(chars: &[char]) -> (r: SemiStr)
        requires
            encode_utf8(chars@).len() <= u32::MAX,
        ensures
            r@ == chars@,
            r.spec_is_inline() == (encode_utf8(chars@).len() <= INLINE_CAP),
    {
        let count = chars.len();
        if count > INLINE_CAP {
            let mut s = String::new();
            Self::push_chars(&mut s, chars, 0);
            proof {
                assert(s@ =~= chars@);
                lemma_encode_len_at_least(chars@);
            }
            return Self::heap_string(s);
        }
        let mut len: usize = 0;
        let mut data = [0u8; 12];
        let mut i: usize = 0;
        assert(chars@.subrange(0, 0) =~= Seq::<char>::empty());
        assert(encode_utf8(chars@.subrange(0, 0)) =~= Seq::<u8>::empty());
        while i < count
            invariant
                count == chars@.len(),
                encode_utf8(chars@).len() <= u32::MAX,
                i <= count,
                len <= 12,
                data@.subrange(0, len as int) == encode_utf8(chars@.subrange(0, i as int)),
                forall|k: int| len <= k < 12 ==> data@[k] == 0,
            decreases count - i,
        {
            let ch = chars[i];
            let (enc, size) = encode_char(ch);
            proof {
                lemma_encode_push(chars@.subrange(0, i as int), ch);
                assert(chars@.subrange(0, i + 1) =~= chars@.subrange(0, i as int).push(ch));
            }
            if size + len > INLINE_CAP {
                let text = match utf8_text(&data.as_slice()[0..len]) {
                    Ok(t) => t,
                    Err(_) => {
                        proof {
                            assert(false);
                        }
                        ""
                    },
                };
                let mut heap = text.to_owned();
                proof {
                    lemma_encode_injective(text@, chars@.subrange(0, i as int));
                    assert(heap@ == chars@.subrange(0, i as int));
                    assert(encode_utf8(chars@.subrange(0, i + 1)).len() == len + size);
                }
                push_char(&mut heap, ch);
                Self::push_chars(&mut heap, chars, i + 1);
                proof {
                    assert(heap@ =~= chars@);
                    lemma_encode_concat(
                        chars@.subrange(0, i + 1),
                        chars@.subrange(i + 1, count as int),
                    );
                    assert(chars@ =~= chars@.subrange(0, i + 1) + chars@.subrange(
                        i + 1,
                        count as int,
                    ));
                    assert(encode_utf8(chars@).len() > 12);
                    assert(encode_utf8(heap@) == encode_utf8(chars@));
                }
                return Self::heap_string(heap);
            }
            let mut k: usize = 0;
            while k < size
                invariant
                    size as int == encode_scalar(ch as u32).len(),
                    enc@.subrange(0, size as int) == encode_scalar(ch as u32),
                    len <= 12,
                    len + size <= 12,
                    k <= size,
                    data@.subrange(0, len as int) == encode_utf8(chars@.subrange(0, i as int)),
                    forall|m: int| 0 <= m < k ==> data@[len + m] == enc@[m],
                    forall|m: int| len + k <= m < 12 ==> data@[m] == 0,
                decreases size - k,
            {
                assert(enc@.subrange(0, size as int)[k as int] == enc@[k as int]);
                data[len + k] = enc[k];
                k += 1;
                assert(data@.subrange(0, len as int) =~= encode_utf8(
                    chars@.subrange(0, i as int),
                ));
            }
            proof {
                assert(data@.subrange(0, (len + size) as int) =~= encode_utf8(
                    chars@.subrange(0, i + 1),
                ));
            }
            len += size;
            i += 1;
        }
        proof {
            assert(chars@.subrange(0, count as int) =~= chars@);
            assert(data@ =~= head_of(encode_utf8(chars@)));
            assert(decode_utf8(encode_utf8(chars@)) == chars@);
        }
        SemiStr { len: len as u32, head: data, heap: None }
    }
}

impl<'s> TryFrom<&'s str> for SemiStr {
    type Error = Error;

    fn try_from(value: &'s str) -> (r: Result<SemiStr>)
        ensures
            match r {
                Ok(v) => {
                    &&& encode_utf8(value@).len() <= u32::MAX
                    &&& v@ == value@
                    &&& v.spec_is_inline() == (encode_utf8(value@).len() <= 12)
                },
                Err(Error::StringTooLong(n)) => {
                    &&& encode_utf8(value@).len() > u32::MAX
                    &&& n as int == encode_utf8(value@).len()
                },
                Err(Error::InvalidUtf8String) => false,
            },
    {
        Self::try_from_str(value)
    }
}

impl<'s> vstd::std_specs::convert::TryFromSpecImpl<&'s str> for SemiStr {
    /// No closed form is claimed here; the inherent constructor that
    /// `try_from` calls carries the contract.
    open spec fn obeys_try_from_spec() -> bool {
        false
    }

    open spec fn try_from_spec(value: &'s str) -> Result<SemiStr> {
        arbitrary()
    }
}

impl<'s> TryFrom<&'s [u8]> for SemiStr {
    type Error = Error;

    fn try_from(value: &'s [u8]) -> (r: Result<SemiStr>)
        ensures
            match r {
                Ok(v) => {
                    &&& valid_utf8(value@)
                    &&& value@.len() <= u32::MAX
                    &&& v@ == decode_utf8(value@)
                    &&& v.spec_is_inline() == (value@.len() <= 12)
                },
                Err(Error::InvalidUtf8String) => !valid_utf8(value@),
                Err(Error::StringTooLong(n)) => {
                    &&& valid_utf8(value@)
                    &&& value@.len() > u32::MAX
                    &&& n as int == value@.len()
                },
            },
    {
        Self::try_from_bytes(value)
    }
}

impl<'s> vstd::std_specs::convert::TryFromSpecImpl<&'s [u8]> for SemiStr {
    /// No closed form is claimed here; the inherent constructor that
    /// `try_from` calls carries the contract.
    open spec fn obeys_try_from_spec() -> bool {
        false
    }

    open spec fn try_from_spec(value: &'s [u8]) -> Result<SemiStr> {
        arbitrary()
    }
}

impl TryFrom<String> for SemiStr {
    type Error = Error;

    fn try_from(value: String) -> (r: Result<SemiStr>)
        ensures
            match r {
                Ok(v) => {
                    &&& encode_utf8(value@).len() <= u32::MAX
                    &&& v@ == value@
                    &&& v.spec_is_inline() == (encode_utf8(value@).len() <= 12)
                },
                Err(Error::StringTooLong(n)) => {
                    &&& encode_utf8(value@).len() > u32::MAX
                    &&& n as int == encode_utf8(value@).len()
                },
                Err(Error::InvalidUtf8String) => false,
            },
    {
        Self::try_from_string(value)
    }
}

impl vstd::std_specs::convert::TryFromSpecImpl<String> for SemiStr {
    /// No closed form is claimed here; the inherent constructor that
    /// `try_from` calls carries the contract.
    open spec fn obeys_try_from_spec() -> bool {
        false
    }

    open spec fn try_from_spec(value: String) -> Result<SemiStr> {
        arbitrary()
    }
}

impl AsRef<str> for SemiStr {
    fn as_ref(&self) -> (r: &str)
        ensures
            r@ == self@,
    {
        self.as_str()
    }
}

impl core::borrow::Borrow<str> for SemiStr {
    fn borrow(&self) -> (r: &str)
        ensures
            <str as View>::view(r) == self@,
    {
        self.as_str()
    }
}

impl core::ops::Deref for SemiStr {
    type Target = str;

    fn deref(&self) -> (r: &str)
        ensures
            r@ == self@,
    {
        self.as_str()
    }
}

} // verus!
