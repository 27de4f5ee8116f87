//! Strings with a bound on their length in bytes.
use vstd::prelude::*;

use crate::cose::{cbor_head, cbor_text_at, cbor_text_bytes, decode_str, encode_str};
use vstd::string::StringSliceAdditionalSpecFns;

verus! {

/// Why a bounded string could not be read.
#[derive(Clone, Copy, Debug, PartialEq, Eq)]
pub enum MaxStringError {
    /// No text string of definite length starts at this position.
    NotText { at: usize },
    /// The string, which ends at this position, has more bytes than the
    /// bound.
    TooLong { at: usize },
}

/// The length in bytes of the UTF-8 encoding of `s`.
pub open spec fn utf8_len(s: Seq<char>) -> nat {
    vstd::utf8::encode_utf8(s).len()
}

/// A string of at most `N` bytes.
#[derive(Debug)]
pub struct MaxSizedString<const N: usize>(String);

impl<const N: usize> View for MaxSizedString<N> {
    type V = Seq<char>;

    closed spec fn view(&self) -> Seq<char> {
        self.0@
    }
}

impl<const N: usize> MaxSizedString<N> {
    #[verifier::type_invariant]
    closed spec fn inv(self) -> bool {
        utf8_len(self.0@) <= N
    }

    /// The string.
    pub fn inner(&self) -> (s: &String)
        ensures
            s@ == self@,
            utf8_len(s@) <= N,
    {
        proof {
            use_type_invariant(self);
        }
        &self.0
    }

    /// The string, if it has at most `N` bytes; else it is handed back.
    pub fn try_from_string(inner: String) -> (r: Result<Self, String>)
        ensures
            r is Ok <==> utf8_len(inner@) <= N,
            match r {
                Ok(m) => m@ == inner@,
                Err(s) => s@ == inner@,
            },
    {
        let n = inner.as_str().as_bytes().len();
        if n <= N {
            Ok(MaxSizedString(inner))
        } else {
            Err(inner)
        }
    }

    /// The string `value`, if it has at most `N` bytes; else it is handed
    /// back as a `String`.
    pub fn try_from_str(value: &str) -> (r: Result<Self, String>)
        ensures
            r is Ok <==> utf8_len(value@) <= N,
            match r {
                Ok(m) => m@ == value@,
                Err(s) => s@ == value@,
            },
    {
        Self::try_from_string(value.to_owned())
    }

    /// The string read from an encoding, if it has at most `N` bytes; else
    /// it is handed back.
    pub fn try_from_decoded(inner: String) -> (r: Result<Self, String>)
        ensures
            match r {
                Ok(m) => m@ == inner@ && utf8_len(inner@) <= N,
                Err(s) => s@ == inner@ && utf8_len(inner@) > N,
            },
    {
        let n = inner.as_str().as_bytes().len();
        if n > N {
            Err(inner)
        } else {
            Ok(MaxSizedString(inner))
        }
    }

    /// Reads a CBOR text string at `pos` of `bytes` that has at most `N`
    /// bytes; gives it and the position after it.
    pub fn decode(bytes: &[u8], pos: usize) -> (r: Result<(Self, usize), MaxStringError>)
        ensures
            match cbor_text_at(bytes@, pos as int) {
                None => r == Err::<(Self, usize), MaxStringError>(MaxStringError::NotText { at: pos }),
                Some((t, q)) => if t.len() > N {
                    r == Err::<(Self, usize), MaxStringError>(MaxStringError::TooLong { at: q as usize })
                } else {
                    r matches Ok((s, n)) && vstd::utf8::encode_utf8(s@) == t && n == q
                },
            },
    {
        match decode_str(bytes, pos) {
            None => Err(MaxStringError::NotText { at: pos }),
            Some((s, q)) => {
                if s.len() > N {
                    Err(MaxStringError::TooLong { at: q })
                } else {
                    let owned = s.to_owned();
                    Ok((MaxSizedString(owned), q))
                }
            },
        }
    }

    /// Appends the string's CBOR encoding to `out`.
    pub fn encode(&self, out: &mut Vec<u8>)
        ensures
            final(out)@ == old(out)@ + cbor_text_bytes(vstd::utf8::encode_utf8(self@)),
    {
        encode_str(self.0.as_str(), out);
    }

    /// The length of the string's CBOR encoding: its head and its bytes.
    pub fn cbor_len(&self) -> (n: usize)
        requires
            N <= usize::MAX - 9,
        ensures
            n == cbor_text_bytes(vstd::utf8::encode_utf8(self@)).len(),
    {
        proof {
            use_type_invariant(self);
            crate::cose::lemma_cbor_head_len(3, vstd::utf8::encode_utf8(self@).len());
        }
        let n = self.0.as_str().len();
        let head: usize = if n < 24 {
            1
        } else if n < 0x100 {
            2
        } else if n < 0x10000 {
            3
        } else if n <= 0xffff_ffff {
            5
        } else {
            9
        };
        head + n
    }

    /// The string, taken out.
    pub fn into_inner(self) -> (s: String)
        ensures
            s@ == self@,
            utf8_len(s@) <= N,
    {
        proof {
            use_type_invariant(&self);
        }
        self.0
    }
}

impl<const N: usize> Clone for MaxSizedString<N> {
    fn clone(&self) -> (r: Self)
        ensures
            r@ == self@,
    {
        proof {
            use_type_invariant(self);
        }
        MaxSizedString(self.0.clone())
    }
}

} // verus!
