//! A Fiat-Shamir transcript over Keccak-256.
//!
//! The prover writes field elements and commitments into a byte stream and
//! absorbs them into the hashing state; challenges are squeezed from the
//! hash of the state, which then becomes the new state. The verifier reads
//! the same stream and absorbs the same bytes, so it squeezes the same
//! challenges.

use crate::curve::G1;
use crate::error::{invalid_data, unexpected_eof, Error};
use crate::field::{le_value, lemma_le_value_zero_tail, p, vals, Fr};
use sha3::Digest;
use vstd::prelude::*;

verus! {

/// The Keccak-256 digest of a byte string.
pub uninterp spec fn keccak256_of(data: Seq<u8>) -> Seq<u8>;

/// The Keccak-256 digest (`sha3::Keccak256`).
#[verifier::external_body]
fn keccak256(data: &[u8]) -> (r: [u8; 32])
    ensures
        r@ == keccak256_of(data@),
{
    let out = sha3::Keccak256::digest(data);
    let mut r = [0u8; 32];
    r.copy_from_slice(&out);
    r
}

/// The challenge squeezed from a hashing state.
pub open spec fn challenge_of(state: Seq<u8>) -> int {
    (le_value(keccak256_of(state)) as int) % p()
}

/// The value of `n` challenges squeezed in turn from `state`, and the state left.
pub open spec fn challenges_of(state: Seq<u8>, n: nat) -> (Seq<int>, Seq<u8>)
    decreases n,
{
    if n == 0 {
        (Seq::empty(), state)
    } else {
        let (cs, st) = challenges_of(state, (n - 1) as nat);
        (cs.push(challenge_of(st)), keccak256_of(st))
    }
}

/// Squeezing `n` challenges gives `n` values.
pub proof fn lemma_challenges_len(state: Seq<u8>, n: nat)
    ensures
        challenges_of(state, n).0.len() == n,
    decreases n,
{
    if n > 0 {
        lemma_challenges_len(state, (n - 1) as nat);
    }
}

/// The encodings of a sequence of field elements, one after the other.
pub open spec fn fr_bytes(s: Seq<int>) -> Seq<u8>
    decreases s.len(),
{
    if s.len() == 0 {
        Seq::empty()
    } else {
        fr_bytes(s.drop_last()) + canonical_bytes(s.last())
    }
}

/// The canonical 32-byte little-endian encoding of a field value.
pub open spec fn canonical_bytes(v: int) -> Seq<u8> {
    choose|b: Seq<u8>| b.len() == 32 && le_value(b) == v
}

/// The encodings of a sequence of commitments, one after the other.
pub open spec fn g1_bytes(s: Seq<Seq<u8>>) -> Seq<u8>
    decreases s.len(),
{
    if s.len() == 0 {
        Seq::empty()
    } else {
        g1_bytes(s.drop_last()) + s.last()
    }
}

/// The message of a failed read of a field element.
pub open spec fn read_fr_msg() -> Seq<char> {
    "Failed to read field element"@
}

/// The message of a failed read of a commitment.
pub open spec fn read_comm_msg() -> Seq<char> {
    "Failed to read commitment"@
}

/// A transcript for writing (a prover) or reading (a verifier).
pub struct Keccak256Transcript {
    state: Vec<u8>,
    stream: Vec<u8>,
    pos: usize,
}

/// A little-endian byte string determines its value up to its length.
pub proof fn lemma_le_value_injective(a: Seq<u8>, b: Seq<u8>)
    requires
        a.len() == b.len(),
        le_value(a) == le_value(b),
    ensures
        a == b,
    decreases a.len(),
{
    if a.len() > 0 {
        assert(a[0] == b[0]) by {
            assert(le_value(a) % 256 == a[0] as nat) by {
                vstd::arithmetic::div_mod::lemma_mod_multiples_vanish(le_value(a.drop_first()) as int, a[0] as int, 256);
                vstd::arithmetic::div_mod::lemma_small_mod(a[0] as nat, 256);
            }
            assert(le_value(b) % 256 == b[0] as nat) by {
                vstd::arithmetic::div_mod::lemma_mod_multiples_vanish(le_value(b.drop_first()) as int, b[0] as int, 256);
                vstd::arithmetic::div_mod::lemma_small_mod(b[0] as nat, 256);
            }
        }
        lemma_le_value_injective(a.drop_first(), b.drop_first());
        assert(a =~= seq![a[0]] + a.drop_first());
        assert(b =~= seq![b[0]] + b.drop_first());
    }
}

/// The encoding of a field element is its canonical encoding.
pub proof fn lemma_canonical_bytes(b: Seq<u8>)
    requires
        b.len() == 32,
    ensures
        canonical_bytes(le_value(b) as int) == b,
{
    let c = canonical_bytes(le_value(b) as int);
    assert(exists|c: Seq<u8>| c.len() == 32 && le_value(c) == le_value(b) as int);
    lemma_le_value_injective(c, b);
}

/// Appends bytes to a vector.
pub(crate) fn extend(v: &mut Vec<u8>, bytes: &[u8])
    ensures
        final(v)@ == old(v)@ + bytes@,
{
    let mut i: usize = 0;
    while i < bytes.len()
        invariant
            i <= bytes.len(),
            v@ == old(v)@ + bytes@.take(i as int),
        decreases bytes.len() - i,
    {
        v.push(bytes[i]);
        proof {
            assert(bytes@.take(i + 1) =~= bytes@.take(i as int).push(bytes@[i as int]));
        }
        i += 1;
    }
    proof {
        assert(bytes@.take(i as int) =~= bytes@);
    }
}

impl Keccak256Transcript {
    /// The read position is within the stream.
    pub open spec fn wf(&self) -> bool {
        0 <= self.pos() <= self.stream().len()
    }

    /// The hashing state.
    pub closed spec fn state(&self) -> Seq<u8> {
        self.state@
    }

    /// The proof stream.
    pub closed spec fn stream(&self) -> Seq<u8> {
        self.stream@
    }

    /// How far the stream has been read.
    pub closed spec fn pos(&self) -> int {
        self.pos as int
    }

    /// An empty transcript for writing a proof.
    pub fn new() -> (r: Self)
        ensures
            r.state() == Seq::<u8>::empty(),
            r.stream() == Seq::<u8>::empty(),
            r.pos() == 0,
            r.wf(),
    {
        Keccak256Transcript { state: Vec::new(), stream: Vec::new(), pos: 0 }
    }

    /// A transcript for reading the given proof.
    pub fn from_proof(proof: &[u8]) -> (r: Self)
        ensures
            r.state() == Seq::<u8>::empty(),
            r.stream() == proof@,
            r.pos() == 0,
            r.wf(),
    {
        let mut stream: Vec<u8> = Vec::new();
        extend(&mut stream, proof);
        proof {
            assert(stream@ =~= proof@);
        }
        Keccak256Transcript { state: Vec::new(), stream, pos: 0 }
    }

    /// The proof written so far.
    pub fn into_proof(self) -> (r: Vec<u8>)
        ensures
            r@ == self.stream(),
    {
        self.stream
    }

    /// Squeezes a challenge: the hash of the state, reduced into the field;
    /// the hash becomes the new state.
    pub fn squeeze_challenge(&mut self) -> (r: Fr)
        requires
            old(self).wf(),
        ensures
            final(self).wf(),
            r@ == challenge_of(old(self).state()),
            final(self).state() == keccak256_of(old(self).state()),
            final(self).stream() == old(self).stream(),
            final(self).pos() == old(self).pos(),
    {
        let h = keccak256(self.state.as_slice());
        let mut wide = [0u8; 64];
        let mut i: usize = 0;
        while i < 32
            invariant
                i <= 32,
                forall|j: int| 0 <= j < i ==> #[trigger] wide@[j] == h@[j],
                forall|j: int| 32 <= j < 64 ==> #[trigger] wide@[j] == 0,
            decreases 32 - i,
        {
            wide[i] = h[i];
            i += 1;
        }
        proof {
            lemma_le_value_zero_tail(wide@, h@);
        }
        let mut st: Vec<u8> = Vec::new();
        extend(&mut st, &h);
        proof {
            assert(st@ =~= h@);
        }
        self.state = st;
        Fr::from_uniform_bytes(&wide)
    }

    /// Squeezes `n` challenges in turn.
    pub fn squeeze_challenges(&mut self, n: usize) -> (r: Vec<Fr>)
        requires
            old(self).wf(),
        ensures
            final(self).wf(),
            vals(r@) == challenges_of(old(self).state(), n as nat).0,
            final(self).state() == challenges_of(old(self).state(), n as nat).1,
            final(self).stream() == old(self).stream(),
            final(self).pos() == old(self).pos(),
    {
        let mut r: Vec<Fr> = Vec::new();
        let mut i: usize = 0;
        while i < n
            invariant
                i <= n,
                vals(r@) == challenges_of(old(self).state(), i as nat).0,
                self.state() == challenges_of(old(self).state(), i as nat).1,
                self.stream() == old(self).stream(),
                self.pos() == old(self).pos(),
                self.wf(),
            decreases n - i,
        {
            let c = self.squeeze_challenge();
            let ghost before = r@;
            r.push(c);
            proof {
                assert(vals(r@) =~= vals(before).push(c@));
            }
            i += 1;
        }
        r
    }

    /// Absorbs a field element into the state without writing it.
    pub fn common_field_element(&mut self, fe: &Fr) -> (r: Result<(), Error>)
        requires
            old(self).wf(),
        ensures
            final(self).wf(),
            r is Ok,
            final(self).state() == old(self).state() + canonical_bytes(fe@),
            final(self).stream() == old(self).stream(),
            final(self).pos() == old(self).pos(),
    {
        let b = fe.to_bytes();
        proof {
            lemma_canonical_bytes(b@);
        }
        extend(&mut self.state, &b);
        Ok(())
    }

    /// Writes a field element to the stream and absorbs it.
    pub fn write_field_element(&mut self, fe: &Fr) -> (r: Result<(), Error>)
        requires
            old(self).wf(),
        ensures
            final(self).wf(),
            r is Ok,
            final(self).state() == old(self).state() + canonical_bytes(fe@),
            final(self).stream() == old(self).stream() + canonical_bytes(fe@),
            final(self).pos() == old(self).pos(),
    {
        let b = fe.to_bytes();
        proof {
            lemma_canonical_bytes(b@);
        }
        extend(&mut self.state, &b);
        extend(&mut self.stream, &b);
        Ok(())
    }

    /// Writes a commitment to the stream and absorbs it.
    pub fn write_commitment(&mut self, c: &G1) -> (r: Result<(), Error>)
        requires
            old(self).wf(),
        ensures
            final(self).wf(),
            r is Ok,
            final(self).state() == old(self).state() + c@,
            final(self).stream() == old(self).stream() + c@,
            final(self).pos() == old(self).pos(),
    {
        let b = c.to_bytes();
        extend(&mut self.state, &b);
        extend(&mut self.stream, &b);
        Ok(())
    }

    /// Reads the next 32 bytes of the stream.
    fn read_32(&mut self, msg: &str) -> (r: Result<[u8; 32], Error>)
        requires
            old(self).wf(),
        ensures
            final(self).wf(),
            final(self).state() == old(self).state(),
            final(self).stream() == old(self).stream(),
            old(self).pos() + 32 <= old(self).stream().len() ==> (r matches Ok(b) && b@
                == old(self).stream().subrange(old(self).pos(), old(self).pos() + 32)
                && final(self).pos() == old(self).pos() + 32),
            old(self).pos() + 32 > old(self).stream().len() ==> (r matches Err(Error::Transcript(_, m))
                && m@ == msg@ && final(self).pos() == old(self).pos()),
    {
        if self.stream.len() < 32 || self.pos > self.stream.len() - 32 {
            return Err(Error::Transcript(unexpected_eof(), String::from_str(msg)));
        }
        let mut b = [0u8; 32];
        let mut i: usize = 0;
        while i < 32
            invariant
                i <= 32,
                self.pos + 32 <= self.stream.len(),
                forall|j: int| 0 <= j < i ==> #[trigger] b@[j] == self.stream@[self.pos + j],
            decreases 32 - i,
        {
            b[i] = self.stream[self.pos + i];
            i += 1;
        }
        proof {
            assert(b@ =~= self.stream@.subrange(self.pos as int, self.pos + 32));
        }
        self.pos = self.pos + 32;
        Ok(b)
    }

    /// Reads a field element from the stream and absorbs it.
    pub fn read_field_element(&mut self) -> (r: Result<Fr, Error>)
        requires
            old(self).wf(),
        ensures
            final(self).wf(),
            ({
                let pos = old(self).pos();
                let s = old(self).stream();
                if pos + 32 <= s.len() && le_value(s.subrange(pos, pos + 32)) < p() {
                    let b = s.subrange(pos, pos + 32);
                    &&& r matches Ok(x) && x@ == le_value(b)
                    &&& final(self).state() == old(self).state() + b
                    &&& final(self).pos() == pos + 32
                } else {
                    r matches Err(Error::Transcript(_, m)) && m@ == read_fr_msg()
                }
            }),
            final(self).stream() == old(self).stream(),
    {
        let b = self.read_32("Failed to read field element")?;
        match Fr::from_bytes(&b) {
            Some(x) => {
                extend(&mut self.state, &b);
                Ok(x)
            },
            None => Err(Error::Transcript(invalid_data(), String::from_str("Failed to read field element"))),
        }
    }

    /// Reads a commitment from the stream and absorbs it.
    pub fn read_commitment(&mut self) -> (r: Result<G1, Error>)
        requires
            old(self).wf(),
        ensures
            final(self).wf(),
            ({
                let pos = old(self).pos();
                let s = old(self).stream();
                if pos + 32 <= s.len() && crate::curve::g1_decodes(s.subrange(pos, pos + 32)) {
                    let b = s.subrange(pos, pos + 32);
                    &&& r matches Ok(c) && c@ == b
                    &&& final(self).state() == old(self).state() + b
                    &&& final(self).pos() == pos + 32
                } else {
                    r matches Err(Error::Transcript(_, m)) && m@ == read_comm_msg()
                }
            }),
            final(self).stream() == old(self).stream(),
    {
        let b = self.read_32("Failed to read commitment")?;
        match G1::from_bytes(&b) {
            Some(c) => {
                extend(&mut self.state, &b);
                Ok(c)
            },
            None => Err(Error::Transcript(invalid_data(), String::from_str("Failed to read commitment"))),
        }
    }
}

/// The 32 bytes of the stream at `at`.
pub open spec fn chunk(stream: Seq<u8>, at: int) -> Seq<u8> {
    stream.subrange(at, at + 32)
}

/// The `count` chunks of the stream from `pos`.
pub open spec fn chunks(stream: Seq<u8>, pos: int, count: nat) -> Seq<Seq<u8>> {
    Seq::new(count, |k: int| chunk(stream, pos + 32 * k))
}

/// The stream holds `count` encoded points from `pos`.
pub open spec fn reads_ok(stream: Seq<u8>, pos: int, count: nat) -> bool {
    &&& pos + 32 * count <= stream.len()
    &&& forall|k: int| 0 <= k < count ==> crate::curve::g1_decodes(#[trigger] chunk(stream, pos + 32 * k))
}

impl Keccak256Transcript {
    /// Reads `n` commitments in turn.
    pub fn read_commitments(&mut self, n: usize) -> (r: Result<Vec<G1>, Error>)
        requires
            old(self).wf(),
            old(self).pos() + 32 * n <= usize::MAX,
        ensures
            final(self).wf(),
            final(self).stream() == old(self).stream(),
            reads_ok(old(self).stream(), old(self).pos(), n as nat) ==> (r matches Ok(cs)
                && crate::curve::g1_views(cs@) == chunks(old(self).stream(), old(self).pos(), n as nat)
                && final(self).state() == old(self).state() + g1_bytes(chunks(old(self).stream(), old(self).pos(), n as nat))
                && final(self).pos() == old(self).pos() + 32 * n),
            !reads_ok(old(self).stream(), old(self).pos(), n as nat) ==> (r matches Err(Error::Transcript(_, m))
                && m@ == read_comm_msg()),
    {
        let ghost s0 = self.stream();
        let ghost p0 = self.pos();
        let ghost st0 = self.state();
        let mut cs: Vec<G1> = Vec::new();
        let mut i: usize = 0;
        while i < n
            invariant
                i <= n,
                p0 + 32 * n <= usize::MAX,
                self.stream() == s0,
                s0 == old(self).stream(),
                p0 == old(self).pos(),
                st0 == old(self).state(),
                self.wf(),
                self.pos() == p0 + 32 * i,
                p0 + 32 * i <= s0.len(),
                reads_ok(s0, p0, i as nat),
                crate::curve::g1_views(cs@) == chunks(s0, p0, i as nat),
                self.state() == st0 + g1_bytes(chunks(s0, p0, i as nat)),
            decreases n - i,
        {
            let ghost before = cs@;
            let ghost stb = self.state();
            let c = match self.read_commitment() {
                Ok(c) => c,
                Err(e) => {
                    proof {
                        if reads_ok(s0, p0, n as nat) {
                            assert(crate::curve::g1_decodes(chunk(s0, p0 + 32 * i)));
                            assert(p0 + 32 * i + 32 <= p0 + 32 * n);
                            assert(false);
                        }
                    }
                    return Err(e);
                },
            };
            cs.push(c);
            proof {
                let cn = chunks(s0, p0, (i + 1) as nat);
                assert(crate::curve::g1_views(cs@) =~= crate::curve::g1_views(before).push(c@));
                assert(cn.drop_last() =~= chunks(s0, p0, i as nat));
                assert(crate::curve::g1_views(cs@) =~= cn);
                assert(g1_bytes(cn) == g1_bytes(cn.drop_last()) + cn.last());
                assert(self.state() =~= st0 + g1_bytes(cn));
                assert forall|k: int| 0 <= k < i + 1 implies crate::curve::g1_decodes(#[trigger] chunk(s0, p0 + 32 * k)) by {
                    if k == i {
                        assert(chunk(s0, p0 + 32 * k) == s0.subrange(p0 + 32 * i, p0 + 32 * i + 32));
                    }
                }
            }
            i += 1;
        }
        Ok(cs)
    }

    /// Writes commitments in turn.
    pub fn write_commitments(&mut self, cs: &[G1])
        requires
            old(self).wf(),
        ensures
            final(self).wf(),
            final(self).state() == old(self).state() + g1_bytes(crate::curve::g1_views(cs@)),
            final(self).stream() == old(self).stream() + g1_bytes(crate::curve::g1_views(cs@)),
            final(self).pos() == old(self).pos(),
    {
        let mut i: usize = 0;
        while i < cs.len()
            invariant
                i <= cs.len(),
                self.state() == old(self).state() + g1_bytes(crate::curve::g1_views(cs@.take(i as int))),
                self.stream() == old(self).stream() + g1_bytes(crate::curve::g1_views(cs@.take(i as int))),
                self.pos() == old(self).pos(),
                self.wf(),
            decreases cs.len() - i,
        {
            let _ = self.write_commitment(&cs[i]);
            proof {
                let v = crate::curve::g1_views(cs@.take(i + 1));
                assert(v.drop_last() =~= crate::curve::g1_views(cs@.take(i as int)));
                assert(v.last() == cs@[i as int]@);
            }
            i += 1;
        }
        proof {
            assert(cs@.take(i as int) =~= cs@);
        }
    }
}

/// What a prover writes, a verifier reads back: where a field element of
/// value `v` was written after `prefix`, the 32 bytes at that position are
/// its canonical encoding, below the field order, and read as `v`; the
/// verifier absorbs the same bytes that the prover absorbed, so both
/// squeeze the same challenges after it.
pub proof fn lemma_field_element_read_back(prefix: Seq<u8>, v: int, rest: Seq<u8>)
    requires
        0 <= v < p(),
    ensures
        ({
            let s = prefix + canonical_bytes(v) + rest;
            let pos = prefix.len() as int;
            &&& pos + 32 <= s.len()
            &&& s.subrange(pos, pos + 32) == canonical_bytes(v)
            &&& le_value(s.subrange(pos, pos + 32)) < p()
            &&& le_value(s.subrange(pos, pos + 32)) == v
        }),
{
    crate::codec::lemma_canonical_bytes_of(v);
    let s = prefix + canonical_bytes(v) + rest;
    let pos = prefix.len() as int;
    assert(s.subrange(pos, pos + 32) =~= canonical_bytes(v));
}

/// What a prover writes, a verifier reads back: where a commitment `c` was
/// written after `prefix`, the 32 bytes at that position are its encoding,
/// which decodes to a point, and the verifier absorbs the same bytes that
/// the prover absorbed.
pub proof fn lemma_commitment_read_back(prefix: Seq<u8>, c: G1, rest: Seq<u8>)
    requires
        crate::curve::g1_decodes(c@),
    ensures
        ({
            let s = prefix + c@ + rest;
            let pos = prefix.len() as int;
            &&& pos + 32 <= s.len()
            &&& s.subrange(pos, pos + 32) == c@
            &&& crate::curve::g1_decodes(s.subrange(pos, pos + 32))
        }),
{
    crate::curve::lemma_g1_view_len(c);
    let s = prefix + c@ + rest;
    let pos = prefix.len() as int;
    assert(s.subrange(pos, pos + 32) =~= c@);
}

} // verus!
