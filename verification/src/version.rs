//! Algorithm registry and versioned wire formats.
//!
//! A self-describing envelope for storage and transport:
//!
//! ```text
//! [ alg_id : 1 byte ][ body_len : 4 bytes BE ][ body ]
//! ```

use vstd::prelude::*;
use vstd::arithmetic::div_mod::*;
use vstd::slice::{slice_subrange, slice_to_vec};

verus! {

/// Identifiers for every KEM that may appear in a stored or transmitted
/// object. Identifier values are permanent (see `Algorithm::id`).
///
/// The high nibble of the identifier groups families, the low nibble is the variant:
/// `0x0_` RE-KEM, `0x1_` ML-KEM (FIPS 203), `0x2_` classical, `0x8_`-`0x9_` hybrids.
#[derive(Clone, Copy, Debug, PartialEq, Eq, Structural, Hash)]
pub enum Algorithm {
    /// RE-KEM, `n = 512`, q = 12289, eta = 8. The current default.
    ReKem512,
    /// RE-KEM, `n = 1024`. Recognised, not offered.
    ReKem1024,
    /// ML-KEM-768 (FIPS 203).
    MlKem768,
    /// ML-KEM-1024 (FIPS 203).
    MlKem1024,
    /// X25519 as a standalone KEM (RFC 7748 + HKDF).
    X25519,
    /// Hybrid RE-KEM-512 + X25519.
    HybridReKem512X25519,
    /// Hybrid ML-KEM-768 + X25519.
    HybridMlKem768X25519,
}

/// Decoding an identifier byte.
pub open spec fn spec_from_id(id: u8) -> Option<Algorithm> {
    if id == 0x01 {
        Some(Algorithm::ReKem512)
    } else if id == 0x02 {
        Some(Algorithm::ReKem1024)
    } else if id == 0x10 {
        Some(Algorithm::MlKem768)
    } else if id == 0x11 {
        Some(Algorithm::MlKem1024)
    } else if id == 0x20 {
        Some(Algorithm::X25519)
    } else if id == 0x81 {
        Some(Algorithm::HybridReKem512X25519)
    } else if id == 0x90 {
        Some(Algorithm::HybridMlKem768X25519)
    } else {
        None
    }
}

impl Algorithm {
    /// The byte written to the wire.
    pub open spec fn spec_id(self) -> u8 {
        match self {
            Algorithm::ReKem512 => 0x01,
            Algorithm::ReKem1024 => 0x02,
            Algorithm::MlKem768 => 0x10,
            Algorithm::MlKem1024 => 0x11,
            Algorithm::X25519 => 0x20,
            Algorithm::HybridReKem512X25519 => 0x81,
            Algorithm::HybridMlKem768X25519 => 0x90,
        }
    }

    /// Whether this algorithm is offered to callers by this build.
    pub open spec fn spec_is_offered(self) -> bool {
        self is ReKem512 || self is HybridReKem512X25519
    }

    /// Short stable label.
    pub open spec fn spec_label(self) -> Seq<char> {
        match self {
            Algorithm::ReKem512 => "re-kem-512"@,
            Algorithm::ReKem1024 => "re-kem-1024"@,
            Algorithm::MlKem768 => "ml-kem-768"@,
            Algorithm::MlKem1024 => "ml-kem-1024"@,
            Algorithm::X25519 => "x25519"@,
            Algorithm::HybridReKem512X25519 => "hybrid-re-kem-512+x25519"@,
            Algorithm::HybridMlKem768X25519 => "hybrid-ml-kem-768+x25519"@,
        }
    }

    /// The byte written to the wire.
    pub fn id(self) -> (r: u8)
        ensures
            r == self.spec_id(),
    {
        match self {
            Algorithm::ReKem512 => 0x01,
            Algorithm::ReKem1024 => 0x02,
            Algorithm::MlKem768 => 0x10,
            Algorithm::MlKem1024 => 0x11,
            Algorithm::X25519 => 0x20,
            Algorithm::HybridReKem512X25519 => 0x81,
            Algorithm::HybridMlKem768X25519 => 0x90,
        }
    }

    /// Whether this algorithm is currently offered to callers. Reserved
    /// identifiers are recognised but not offered.
    pub fn is_offered(self) -> (r: bool)
        ensures
            r == self.spec_is_offered(),
    {
        match self {
            Algorithm::ReKem512 => true,
            Algorithm::HybridReKem512X25519 => true,
            _ => false,
        }
    }

    /// Decode an identifier byte; `None` for unknown values.
    pub fn from_id(id: u8) -> (r: Option<Self>)
        ensures
            r == spec_from_id(id),
    {
        match id {
            0x01 => Some(Algorithm::ReKem512),
            0x02 => Some(Algorithm::ReKem1024),
            0x10 => Some(Algorithm::MlKem768),
            0x11 => Some(Algorithm::MlKem1024),
            0x20 => Some(Algorithm::X25519),
            0x81 => Some(Algorithm::HybridReKem512X25519),
            0x90 => Some(Algorithm::HybridMlKem768X25519),
            _ => None,
        }
    }

    /// Short stable label for diagnostics and metrics.
    pub fn label(self) -> (r: &'static str)
        ensures
            r@ == self.spec_label(),
    {
        match self {
            Algorithm::ReKem512 => "re-kem-512",
            Algorithm::ReKem1024 => "re-kem-1024",
            Algorithm::MlKem768 => "ml-kem-768",
            Algorithm::MlKem1024 => "ml-kem-1024",
            Algorithm::X25519 => "x25519",
            Algorithm::HybridReKem512X25519 => "hybrid-re-kem-512+x25519",
            Algorithm::HybridMlKem768X25519 => "hybrid-ml-kem-768+x25519",
        }
    }
}

/// Decoding an identifier undoes encoding it.
pub proof fn lemma_id_roundtrip(a: Algorithm)
    ensures
        spec_from_id(a.spec_id()) == Some(a),
{
}

/// A recognised identifier byte is the identifier of the algorithm it decodes to.
pub proof fn lemma_from_id_inverse(id: u8)
    ensures
        spec_from_id(id) matches Some(a) ==> a.spec_id() == id,
{
}

/// Distinct algorithms have distinct identifiers.
pub proof fn lemma_ids_unique(a: Algorithm, b: Algorithm)
    ensures
        a.spec_id() == b.spec_id() ==> a == b,
{
    lemma_id_roundtrip(a);
    lemma_id_roundtrip(b);
}

/// Errors from envelope decoding.
#[derive(Clone, Copy, Debug, PartialEq, Eq)]
pub enum VersionError {
    /// Fewer than 5 bytes: no header to read.
    Truncated,
    /// The declared body length does not match the bytes present.
    LengthMismatch { declared: u32, actual: usize },
    /// The identifier byte is not in the registry.
    UnknownAlgorithm(u8),
    /// The identifier is known but this build does not offer it.
    NotOffered(Algorithm),
    /// Body length would overflow the platform's `usize`.
    LengthOverflow(u32),
}

/// The four big-endian bytes of a 32-bit length.
pub open spec fn be32_bytes(v: u32) -> Seq<u8> {
    seq![(v / 0x1000000) as u8, ((v / 0x10000) % 0x100) as u8, ((v / 0x100) % 0x100) as u8, (v % 0x100) as u8]
}

/// The 32-bit value of four big-endian bytes.
pub open spec fn be32_value(b0: u8, b1: u8, b2: u8, b3: u8) -> u32 {
    (b0 * 0x1000000 + b1 * 0x10000 + b2 * 0x100 + b3) as u32
}

/// The serialised form `[id][len BE][body]`; a body length at or above 2^32
/// is written modulo 2^32.
pub open spec fn spec_encode(algorithm: Algorithm, body: Seq<u8>) -> Seq<u8> {
    seq![algorithm.spec_id()] + be32_bytes((body.len() % 0x1_0000_0000) as u32) + body
}

/// What decoding `bytes` yields: the algorithm and body, or the error.
pub open spec fn spec_decode(bytes: Seq<u8>) -> Result<(Algorithm, Seq<u8>), VersionError> {
    if bytes.len() < 5 {
        Err(VersionError::Truncated)
    } else {
        match spec_from_id(bytes[0]) {
            None => Err(VersionError::UnknownAlgorithm(bytes[0])),
            Some(a) => {
                let declared = be32_value(bytes[1], bytes[2], bytes[3], bytes[4]);
                if declared != bytes.len() - 5 {
                    Err(VersionError::LengthMismatch { declared, actual: (bytes.len() - 5) as usize })
                } else {
                    Ok((a, bytes.subrange(5, bytes.len() as int)))
                }
            },
        }
    }
}

/// What decoding with the additional "offered" requirement yields.
pub open spec fn spec_decode_supported(bytes: Seq<u8>) -> Result<(Algorithm, Seq<u8>), VersionError> {
    match spec_decode(bytes) {
        Ok((a, body)) => if a.spec_is_offered() {
            Ok((a, body))
        } else {
            Err(VersionError::NotOffered(a))
        },
        Err(e) => Err(e),
    }
}

/// A wrapped byte string whose algorithm is recorded alongside it.
#[derive(Clone, Debug, PartialEq, Eq)]
pub struct Envelope {
    algorithm: Algorithm,
    body: Vec<u8>,
}

impl View for Envelope {
    type V = (Algorithm, Seq<u8>);

    closed spec fn view(&self) -> (Algorithm, Seq<u8>) {
        (self.algorithm, self.body@)
    }
}

impl Envelope {
    /// Wrap a raw body.
    pub fn new(algorithm: Algorithm, body: Vec<u8>) -> (r: Self)
        ensures
            r@ == (algorithm, body@),
    {
        Envelope { algorithm, body }
    }

    /// The algorithm that produced the body.
    pub fn algorithm(&self) -> (r: Algorithm)
        ensures
            r == self@.0,
    {
        self.algorithm
    }

    /// The raw body (what the KEM itself produces).
    pub fn body(&self) -> (r: &[u8])
        ensures
            r@ == self@.1,
    {
        self.body.as_slice()
    }

    /// Consume the envelope, yielding the raw body.
    pub fn into_body(self) -> (r: Vec<u8>)
        ensures
            r@ == self@.1,
    {
        self.body
    }

    /// Total encoded length: 1 byte id + 4 bytes length + body.
    pub fn encoded_len(&self) -> (r: usize)
        requires
            self@.1.len() + 5 <= usize::MAX,
        ensures
            r == self@.1.len() + 5,
    {
        5 + self.body.len()
    }

    /// Serialise to `[id][len BE][body]`.
    pub fn encode(&self) -> (r: Vec<u8>)
        requires
            self@.1.len() + 5 <= usize::MAX,
        ensures
            r@ == spec_encode(self@.0, self@.1),
    {
        let mut out = Vec::with_capacity(self.encoded_len());
        out.push(self.algorithm.id());
        let len = ((self.body.len() as u64) % 0x1_0000_0000) as u32;
        let b0 = (len / 0x1000000) as u8;
        let b1 = ((len / 0x10000) % 0x100) as u8;
        let b2 = ((len / 0x100) % 0x100) as u8;
        let b3 = (len % 0x100) as u8;
        out.push(b0);
        out.push(b1);
        out.push(b2);
        out.push(b3);
        let ghost head = out@;
        out.extend_from_slice(self.body.as_slice());
        proof {
            assert(head =~= seq![self@.0.spec_id()] + be32_bytes((self@.1.len() % 0x1_0000_0000) as u32));
            assert(out@ =~= spec_encode(self@.0, self@.1));
        }
        out
    }

    /// Parse `[id][len BE][body]`. Rejects truncated input, unknown
    /// identifiers and a declared length that differs from the bytes present;
    /// the body's length for the algorithm is not checked here.
    pub fn decode(bytes: &[u8]) -> (r: Result<Self, VersionError>)
        ensures
            match r {
                Ok(e) => spec_decode(bytes@) == Ok::<(Algorithm, Seq<u8>), VersionError>(e@),
                Err(err) => spec_decode(bytes@) == Err::<(Algorithm, Seq<u8>), VersionError>(err),
            },
    {
        if bytes.len() < 5 {
            return Err(VersionError::Truncated);
        }
        let id = bytes[0];
        let algorithm = match Algorithm::from_id(id) {
            Some(a) => a,
            None => {
                return Err(VersionError::UnknownAlgorithm(id));
            },
        };
        let x0 = bytes[1];
        let x1 = bytes[2];
        let x2 = bytes[3];
        let x3 = bytes[4];
        let declared: u32 = (x0 as u32) * 0x1000000 + (x1 as u32) * 0x10000 + (x2 as u32) * 0x100 + (x3 as u32);
        let body = slice_subrange(bytes, 5, bytes.len());
        if declared as usize != body.len() {
            return Err(VersionError::LengthMismatch { declared, actual: body.len() });
        }
        Ok(Envelope { algorithm, body: slice_to_vec(body) })
    }

    /// Parse and additionally require that the algorithm is offered by this build.
    pub fn decode_supported(bytes: &[u8]) -> (r: Result<Self, VersionError>)
        ensures
            match r {
                Ok(e) => spec_decode_supported(bytes@) == Ok::<(Algorithm, Seq<u8>), VersionError>(e@),
                Err(err) => spec_decode_supported(bytes@) == Err::<(Algorithm, Seq<u8>), VersionError>(err),
            },
    {
        let env = Self::decode(bytes)?;
        if !env.algorithm.is_offered() {
            return Err(VersionError::NotOffered(env.algorithm));
        }
        Ok(env)
    }
}

/// Decoding an encoded envelope gives the envelope back, for every body
/// whose length fits the 32-bit length field.
pub proof fn lemma_encode_decode_roundtrip(algorithm: Algorithm, body: Seq<u8>)
    requires
        body.len() < 0x1_0000_0000,
    ensures
        spec_decode(spec_encode(algorithm, body)) == Ok::<(Algorithm, Seq<u8>), VersionError>((algorithm, body)),
{
    let bytes = spec_encode(algorithm, body);
    let len = body.len() as u32;
    assert(bytes[0] == algorithm.spec_id());
    assert(bytes[1] == (len / 0x1000000) as u8);
    assert(bytes[2] == ((len / 0x10000) % 0x100) as u8);
    assert(bytes[3] == ((len / 0x100) % 0x100) as u8);
    assert(bytes[4] == (len % 0x100) as u8);
    let b0 = bytes[1];
    let b1 = bytes[2];
    let b2 = bytes[3];
    let b3 = bytes[4];
    assert(be32_value(b0, b1, b2, b3) == len);
    assert(bytes.subrange(5, bytes.len() as int) =~= body);
}

/// The envelope layout: byte 0 is the identifier, bytes 1..5 hold the body
/// length (mod 2^32) most significant byte first, and the body follows.
pub proof fn lemma_encode_layout(algorithm: Algorithm, body: Seq<u8>)
    ensures
        spec_encode(algorithm, body).len() == body.len() + 5,
        spec_encode(algorithm, body)[0] == algorithm.spec_id(),
        spec_encode(algorithm, body)[1] * 0x1000000 + spec_encode(algorithm, body)[2] * 0x10000
            + spec_encode(algorithm, body)[3] * 0x100 + spec_encode(algorithm, body)[4]
            == body.len() % 0x1_0000_0000,
        spec_encode(algorithm, body).subrange(5, body.len() + 5int) == body,
{
    let e = spec_encode(algorithm, body);
    let v = (body.len() % 0x1_0000_0000) as u32;
    let b0 = (v / 0x1000000) as u8;
    let b1 = ((v / 0x10000) % 0x100) as u8;
    let b2 = ((v / 0x100) % 0x100) as u8;
    let b3 = (v % 0x100) as u8;
    assert(e[1] == b0 && e[2] == b1 && e[3] == b2 && e[4] == b3);
    let vi = v as int;
    lemma_fundamental_div_mod(vi, 0x100);
    lemma_fundamental_div_mod(vi / 0x100, 0x100);
    lemma_fundamental_div_mod(vi / 0x10000, 0x100);
    lemma_div_denominator(vi, 0x100, 0x100);
    lemma_div_denominator(vi, 0x10000, 0x100);
    lemma_div_is_ordered_by_denominator(vi, 0x100, 0x1000000);
    assert(vi / 0x1000000 < 0x100) by {
        lemma_multiply_divide_lt(vi, 0x1000000, 0x100);
    }
    assert(b0 == vi / 0x1000000);
    assert(e.subrange(5, body.len() + 5int) =~= body);
}

/// Decoding reads the length field most significant byte first: a header
/// with a known identifier is accepted exactly when
/// `b1 * 2^24 + b2 * 2^16 + b3 * 2^8 + b4` is the number of bytes after it,
/// and a mismatch reports that number.
pub proof fn lemma_decode_length_field(bytes: Seq<u8>)
    requires
        5 <= bytes.len() <= usize::MAX,
        spec_from_id(bytes[0]) is Some,
    ensures
        spec_decode(bytes) is Ok <==> bytes[1] * 0x1000000 + bytes[2] * 0x10000 + bytes[3] * 0x100 + bytes[4] == bytes.len() - 5,
        spec_decode(bytes) matches Err(VersionError::LengthMismatch { declared, actual }) ==> declared
            == bytes[1] * 0x1000000 + bytes[2] * 0x10000 + bytes[3] * 0x100 + bytes[4] && actual == bytes.len() - 5,
{
    let (x0, x1, x2, x3) = (bytes[1], bytes[2], bytes[3], bytes[4]);
    let d = be32_value(x0, x1, x2, x3);
    assert(0 <= x0 * 0x1000000 + x1 * 0x10000 + x2 * 0x100 + x3 <= 0xffff_ffff);
    assert(d == x0 * 0x1000000 + x1 * 0x10000 + x2 * 0x100 + x3);
}

} // verus!
