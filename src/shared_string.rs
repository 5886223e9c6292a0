//! An immutable, reference-counted string that can be shared without
//! copying, and handed to foreign code as a null-terminated byte string.
use vstd::prelude::*;
use vstd::std_specs::cmp::PartialEqSpec;
use vstd::string::StringSliceAdditionalSpecFns;
use vstd::utf8::*;

verus! {

/// The payload of a shared buffer is padded to a multiple of this size.
pub const BUFFER_ALIGN: usize = 8;

/// Relies on servo_arc's `ThinArc`: one reference-counted allocation that
/// holds a header and a slice of items; clones share it.
#[verifier::external_type_specification]
#[verifier::external_body]
#[verifier::reject_recursive_types(H)]
#[verifier::reject_recursive_types(T)]
pub struct ExThinArc<H: 'static, T: 'static>(servo_arc::ThinArc<H, T>);

/// The header a shared buffer was made with.
pub uninterp spec fn buffer_header(a: servo_arc::ThinArc<usize, u8>) -> usize;

/// The bytes a shared buffer holds.
pub uninterp spec fn buffer_bytes(a: servo_arc::ThinArc<usize, u8>) -> Seq<u8>;

/// Relies on servo_arc::Arc::from_header_and_iter and Arc::into_thin: one
/// allocation holding `header` and the items in order. The first panics on an
/// empty slice, hence the `requires`.
#[verifier::external_body]
fn buffer_new(header: usize, bytes: Vec<u8>) -> (r: servo_arc::ThinArc<usize, u8>)
    requires
        bytes@.len() > 0,
    ensures
        buffer_header(r) == header,
        buffer_bytes(r) == bytes@,
{
    let len = bytes.len();
    servo_arc::Arc::into_thin(
        servo_arc::Arc::from_header_and_iter(
            servo_arc::HeaderWithLength::new(header, len),
            bytes.into_iter(),
        ),
    )
}

/// Relies on ThinArc's `Clone`: a second handle on the same allocation.
#[verifier::external_body]
fn buffer_share(a: &servo_arc::ThinArc<usize, u8>) -> (r: servo_arc::ThinArc<usize, u8>)
    ensures
        buffer_header(r) == buffer_header(*a),
        buffer_bytes(r) == buffer_bytes(*a),
{
    a.clone()
}

/// Relies on ThinArc's `Deref`: the header of the allocation.
#[verifier::external_body]
fn buffer_header_of(a: &servo_arc::ThinArc<usize, u8>) -> (r: usize)
    ensures
        r == buffer_header(*a),
{
    a.header.header
}

/// Relies on ThinArc's `Deref`: the slice of the allocation.
#[verifier::external_body]
fn buffer_slice(a: &servo_arc::ThinArc<usize, u8>) -> (r: &[u8])
    ensures
        r@ == buffer_bytes(*a),
{
    &a.slice
}

/// Relies on std::str::from_utf8: the bytes read as text exactly when they
/// are valid UTF-8.
#[verifier::external_body]
fn text_of(b: &[u8]) -> (r: Option<&str>)
    ensures
        r is Some <==> valid_utf8(b@),
        r matches Some(s) ==> s.spec_bytes() == b@,
{
    std::str::from_utf8(b).ok()
}

/// The error of a construction from bytes that are not valid UTF-8 or that
/// hold a zero byte.
#[derive(Clone, Copy, Debug, PartialEq, Eq, Structural)]
pub struct InvalidText {}

/// The size of the buffer for a text of `n` bytes: room for the text and its
/// terminator, rounded up to the next multiple of the alignment.
pub open spec fn padded_length(n: nat) -> nat {
    (n / BUFFER_ALIGN as nat + 1) * BUFFER_ALIGN as nat
}

/// A string suited to property values: copies share one buffer, and the
/// buffer always ends with a zero byte, so foreign code can read it in
/// place.
pub struct SharedString {
    inner: servo_arc::ThinArc<usize, u8>,
}

impl View for SharedString {
    type V = Seq<u8>;

    /// The UTF-8 bytes of the text, without the terminator.
    closed spec fn view(&self) -> Seq<u8> {
        buffer_bytes(self.inner).subrange(0, buffer_header(self.inner) as int)
    }
}

impl SharedString {
    #[verifier::type_invariant]
    closed spec fn inv(self) -> bool {
        let n = buffer_header(self.inner) as int;
        let b = buffer_bytes(self.inner);
        &&& n < b.len()
        &&& b.len() == padded_length(n as nat)
        &&& b[n] == 0
        &&& valid_utf8(b.subrange(0, n))
    }

    /// A value holding `value`, in a buffer of its own.
    pub fn from(value: &str) -> (r: Self)
        requires
            value.spec_bytes().len() + BUFFER_ALIGN <= usize::MAX,
        ensures
            r@ == value.spec_bytes(),
    {
        let bytes = value.as_bytes();
        let n = bytes.len();
        proof {
            encode_utf8_valid_utf8(value@);
        }
        let mut buf: Vec<u8> = Vec::new();
        let mut i: usize = 0;
        while i < n
            invariant
                n == bytes@.len(),
                i <= n,
                buf@ == bytes@.subrange(0, i as int),
            decreases n - i,
        {
            buf.push(bytes[i]);
            i = i + 1;
            assert(buf@ =~= bytes@.subrange(0, i as int));
        }
        buf.push(0);
        let total = (n / BUFFER_ALIGN + 1) * BUFFER_ALIGN;
        assert(total > n) by (nonlinear_arith)
            requires
                total == (n / 8 + 1) * 8,
                BUFFER_ALIGN == 8,
        ;
        while buf.len() < total
            invariant
                n + 1 <= buf@.len() <= total,
                buf@.subrange(0, n as int) == bytes@,
                buf@[n as int] == 0,
            decreases total - buf.len(),
        {
            buf.push(0);
            assert(buf@.subrange(0, n as int) =~= bytes@);
        }
        assert(buf@.len() == padded_length(n as nat));
        let inner = buffer_new(n, buf);
        SharedString { inner }
    }

    /// The value for `bytes`, or `InvalidText` when they are not valid UTF-8
    /// or hold a zero byte.
    pub fn from_bytes(bytes: &[u8]) -> (r: Result<Self, InvalidText>)
        requires
            bytes@.len() + BUFFER_ALIGN <= usize::MAX,
        ensures
            r is Ok <==> valid_utf8(bytes@) && !bytes@.contains(0),
            r matches Ok(v) ==> v@ == bytes@,
    {
        let mut i: usize = 0;
        while i < bytes.len()
            invariant
                i <= bytes@.len(),
                forall|k: int| 0 <= k < i ==> bytes@[k] != 0,
            decreases bytes@.len() - i,
        {
            if bytes[i] == 0 {
                assert(bytes@.contains(0)) by {
                    assert(bytes@[i as int] == 0);
                }
                return Err(InvalidText {});
            }
            i = i + 1;
        }
        match text_of(bytes) {
            Some(s) => Ok(SharedString::from(s)),
            None => Err(InvalidText {}),
        }
    }

    /// The empty value.
    pub fn new() -> (r: Self)
        ensures
            r@.len() == 0,
    {
        let buf: Vec<u8> = vec![0u8; BUFFER_ALIGN];
        let inner = buffer_new(0, buf);
        proof {
            assert(buffer_bytes(inner).subrange(0, 0) =~= Seq::<u8>::empty());
        }
        SharedString { inner }
    }

    /// The length of the text in bytes.
    pub fn len(&self) -> (r: usize)
        ensures
            r == self@.len(),
    {
        proof {
            use_type_invariant(self);
        }
        buffer_header_of(&self.inner)
    }

    /// The text.
    pub fn as_str(&self) -> (r: &str)
        ensures
            r.spec_bytes() == self@,
            r@ == decode_utf8(self@),
    {
        proof {
            use_type_invariant(self);
        }
        let b = self.as_bytes();
        match text_of(b) {
            Some(s) => {
                proof {
                    encode_utf8_decode_utf8(s@);
                }
                s
            },
            None => "",
        }
    }

    /// The bytes of the text.
    pub fn as_bytes(&self) -> (r: &[u8])
        ensures
            r@ == self@,
    {
        proof {
            use_type_invariant(self);
        }
        let n = buffer_header_of(&self.inner);
        let all = buffer_slice(&self.inner);
        &all[0..n]
    }

    /// The bytes of the text followed by the zero terminator.
    pub fn as_bytes_with_nul(&self) -> (r: &[u8])
        ensures
            r@ == self@.push(0),
    {
        proof {
            use_type_invariant(self);
        }
        let n = buffer_header_of(&self.inner);
        let all = buffer_slice(&self.inner);
        let m = all.len();
        let r = &all[0..n + 1];
        assert(r@ =~= self@.push(0));
        r
    }
}

impl Clone for SharedString {
    /// Another handle on the same buffer.
    fn clone(&self) -> (r: Self)
        ensures
            r@ == self@,
    {
        proof {
            use_type_invariant(self);
        }
        SharedString { inner: buffer_share(&self.inner) }
    }
}

impl Default for SharedString {
    fn default() -> (r: Self)
        ensures
            r@.len() == 0,
    {
        SharedString::new()
    }
}

impl PartialEq for SharedString {
    /// Equal exactly when the texts are equal.
    fn eq(&self, other: &SharedString) -> (r: bool) {
        let a = self.as_bytes();
        let b = other.as_bytes();
        if a.len() != b.len() {
            assert(a@.len() != b@.len());
            return false;
        }
        let mut i: usize = 0;
        while i < a.len()
            invariant
                a@ == self@,
                b@ == other@,
                a@.len() == b@.len(),
                i <= a@.len(),
                forall|k: int| 0 <= k < i ==> a@[k] == b@[k],
            decreases a@.len() - i,
        {
            if a[i] != b[i] {
                assert(a@[i as int] != b@[i as int]);
                return false;
            }
            i = i + 1;
        }
        assert(a@ =~= b@);
        true
    }
}

impl vstd::std_specs::cmp::PartialEqSpecImpl for SharedString {
    open spec fn obeys_eq_spec() -> bool {
        true
    }

    open spec fn eq_spec(&self, other: &SharedString) -> bool {
        self@ == other@
    }
}

impl Eq for SharedString {

}

/// Reading the text of a value made from `s` gives back `s`.
pub proof fn law_text_round_trip(s: &str, v: SharedString)
    requires
        v@ == s.spec_bytes(),
    ensures
        decode_utf8(v@) == s@,
{
    encode_utf8_decode_utf8(s@);
}

/// A clone compares equal to the value it was taken from.
pub proof fn law_clone_compares_equal(a: SharedString, b: SharedString)
    requires
        b@ == a@,
    ensures
        a.eq_spec(&b),
        b.eq_spec(&a),
{
}

/// Any two empty values, such as two default values, compare equal.
pub proof fn law_empty_values_equal(a: SharedString, b: SharedString)
    requires
        a@.len() == 0,
        b@.len() == 0,
    ensures
        a.eq_spec(&b),
{
    assert(a@ =~= b@);
}

} // verus!
