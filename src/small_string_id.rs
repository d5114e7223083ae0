use core::str::{FromStr, Utf8Error};
use vstd::prelude::*;
use vstd::slice::slice_subrange;
use vstd::string::StringSliceAdditionalSpecFns;
use vstd::utf8::{
    decode_utf8, encode_utf8, encode_utf8_valid_utf8, is_char_boundary,
    is_char_boundary_iff_not_is_continuation_byte, is_char_boundary_start_end_of_seq,
    is_continuation_byte, valid_utf8, valid_utf8_split,
};

verus! {

#[verifier::external_type_specification]
#[verifier::external_body]
pub struct ExUtf8Error(Utf8Error);

/// Relies on `core::str::from_utf8`: it accepts exactly the valid UTF-8 byte
/// sequences and views the same bytes as text.
#[verifier::external_body]
fn str_from_utf8(bytes: &[u8]) -> (r: Result<&str, Utf8Error>)
    ensures
        r is Ok <==> valid_utf8(bytes@),
        r matches Ok(s) ==> s@ == decode_utf8(bytes@),
{
    core::str::from_utf8(bytes)
}

/// Why a text could not become an id.
#[derive(Debug, Clone, Copy, PartialEq, Eq, Structural)]
pub enum SmallStringIdError {
    /// The text has more bytes than the id holds.
    ParseErrorLen,
}

/// Number of bytes before the first zero byte (all of them if none is zero).
pub open spec fn text_len(b: Seq<u8>) -> nat
    decreases b.len(),
{
    if b.len() == 0 {
        0
    } else if b[0] == 0 {
        0
    } else {
        1 + text_len(b.drop_first())
    }
}

/// `k` is the position of the first zero byte of `b`, or its length.
pub open spec fn is_text_end(b: Seq<u8>, k: int) -> bool {
    &&& 0 <= k <= b.len()
    &&& forall|j: int| 0 <= j < k ==> b[j] != 0
    &&& (k == b.len() || b[k] == 0)
}

proof fn lemma_text_len(b: Seq<u8>, k: int)
    requires
        is_text_end(b, k),
    ensures
        text_len(b) == k,
    decreases b.len(),
{
    if b.len() > 0 && b[0] != 0 {
        let t = b.drop_first();
        assert forall|j: int| 0 <= j < k - 1 implies t[j] != 0 by {
            assert(b[j + 1] != 0);
        }
        if k - 1 < t.len() {
            assert(t[k - 1] == b[k]);
        }
        lemma_text_len(t, k - 1);
    }
}

/// A string-like id kept in `N` bytes, without heap allocation: the UTF-8
/// bytes of its text followed by zero bytes.
#[derive(Clone, Copy, Debug, PartialOrd, PartialEq, Ord, Eq, Hash)]
pub struct SmallStringId<const N: usize> {
    inner: [u8; N],
}

impl<const N: usize> SmallStringId<N> {
    /// The text is the valid UTF-8 before the first zero byte.
    #[verifier::type_invariant]
    spec fn inv(self) -> bool {
        valid_utf8(self.inner@.take(text_len(self.inner@) as int))
    }

    /// The stored bytes.
    pub closed spec fn bytes(&self) -> Seq<u8> {
        self.inner@
    }

    /// The text of the id: the bytes before the first zero byte, decoded.
    pub closed spec fn text(&self) -> Seq<char> {
        decode_utf8(self.inner@.take(text_len(self.inner@) as int))
    }

    pub fn as_str(&self) -> (r: &str)
        ensures
            r@ == self.text(),
    {
        proof {
            use_type_invariant(self);
        }
        let mut end: usize = 0;
        while end < N && self.inner[end] != 0
            invariant
                end <= N,
                forall|j: int| 0 <= j < end ==> self.inner@[j] != 0,
            decreases N - end,
        {
            end = end + 1;
        }
        proof {
            lemma_text_len(self.inner@, end as int);
        }
        let bytes = slice_subrange(self.inner.as_slice(), 0, end);
        assert(bytes@ =~= self.inner@.take(end as int));
        match str_from_utf8(bytes) {
            Ok(s) => s,
            Err(_) => {
                proof {
                    assert(false);
                }
                ""
            },
        }
    }

    /// Keeps the bytes of `s` followed by zeros; fails when `s` has more than
    /// `N` bytes.
    pub fn parse(s: &str) -> (r: Result<Self, SmallStringIdError>)
        ensures
            r is Ok <==> s.spec_bytes().len() <= N,
            r is Err ==> r == Err::<Self, _>(SmallStringIdError::ParseErrorLen),
            r matches Ok(id) ==> id.bytes() == s.spec_bytes() + Seq::new(
                (N - s.spec_bytes().len()) as nat,
                |i: int| 0u8,
            ),
            r matches Ok(id) ==> ((forall|i: int|
                0 <= i < s.spec_bytes().len() ==> s.spec_bytes()[i] != 0) ==> id.text() == s@),
    {
        let bytes = s.as_bytes();
        let n = bytes.len();
        if n > N {
            return Err(SmallStringIdError::ParseErrorLen);
        }
        let mut inner = [0u8; N];
        let mut i: usize = 0;
        while i < n
            invariant
                n == bytes@.len(),
                n <= N,
                i <= n,
                forall|j: int| 0 <= j < i ==> inner@[j] == bytes@[j],
                forall|j: int| i <= j < N ==> inner@[j] == 0,
            decreases n - i,
        {
            inner[i] = bytes[i];
            i = i + 1;
        }
        let ghost b = bytes@;
        let ghost zeros = Seq::new((N - n) as nat, |i: int| 0u8);
        assert(inner@ =~= b + zeros);
        proof {
            encode_utf8_valid_utf8(s@);
            assert(valid_utf8(b));
            lemma_text_end_exists(b);
            let k = choose|k: int| is_text_end(b, k);
            assert(is_text_end(inner@, k)) by {
                if k < n {
                } else {
                    if k < N {
                        assert(inner@[k] == 0);
                    }
                }
            }
            lemma_text_len(inner@, k);
            if k < n {
                is_char_boundary_iff_not_is_continuation_byte(b, k);
                assert(!is_continuation_byte(b[k]));
            } else {
                is_char_boundary_start_end_of_seq(b);
            }
            assert(is_char_boundary(b, k));
            valid_utf8_split(b, k);
            assert(inner@.take(k) =~= b.subrange(0, k));
            if forall|i: int| 0 <= i < n ==> b[i] != 0 {
                assert(is_text_end(b, n as int));
                assert(k == n) by {
                    if k < n {
                        assert(b[k] != 0);
                    }
                }
                assert(b.subrange(0, k) =~= b);
                vstd::utf8::encode_utf8_decode_utf8(s@);
            }
        }
        Ok(Self { inner })
    }
}

/// Every byte sequence has a first zero byte or ends.
proof fn lemma_text_end_exists(b: Seq<u8>)
    ensures
        exists|k: int| is_text_end(b, k),
    decreases b.len(),
{
    if b.len() == 0 {
        assert(is_text_end(b, 0));
    } else if b[0] == 0 {
        assert(is_text_end(b, 0));
    } else {
        let t = b.drop_first();
        lemma_text_end_exists(t);
        let k = choose|k: int| is_text_end(t, k);
        assert forall|j: int| 0 <= j < k + 1 implies b[j] != 0 by {
            if j > 0 {
                assert(b[j] == t[j - 1]);
            }
        }
        if k + 1 < b.len() {
            assert(b[k + 1] == t[k]);
        }
        assert(is_text_end(b, k + 1));
    }
}

impl<const N: usize> Default for SmallStringId<N> {
    fn default() -> (r: Self)
        ensures
            r.bytes() == Seq::new(N as nat, |i: int| 0u8),
            r.text() == Seq::<char>::empty(),
    {
        let inner = [0u8; N];
        proof {
            lemma_text_len(inner@, 0);
            assert(inner@.take(0) =~= Seq::<u8>::empty());
        }
        assert(inner@ =~= Seq::new(N as nat, |i: int| 0u8));
        Self { inner }
    }
}

impl<const N: usize> FromStr for SmallStringId<N> {
    type Err = SmallStringIdError;

    fn from_str(s: &str) -> Result<Self, Self::Err> {
        Self::parse(s)
    }
}

} // verus!
