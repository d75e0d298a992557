//! The KEM interface: a caller can hold `Box<dyn Kem>`, read the algorithm
//! from configuration, and switch parameter sets without editing the code
//! that stores keys or moves ciphertexts. The interface is object-safe.

use vstd::prelude::*;
use vstd::slice::slice_to_vec;

use crate::kem::{kem_dims, spec_decaps, spec_encaps, spec_keygen, KemGeneric, CT_LEN, CT_LEN_1024, PK_LEN, PK_LEN_1024, SK_LEN, SK_LEN_1024};
use crate::params::{level5_1024, newhope_512, spec_level5_1024, spec_newhope_512, Params};
use crate::version::Algorithm;

verus! {

/// Byte lengths of the objects an implementation produces.
#[derive(Clone, Copy, Debug, PartialEq, Eq)]
pub struct Sizes {
    pub public_key: usize,
    pub secret_key: usize,
    pub ciphertext: usize,
    pub shared_secret: usize,
}

/// Failures a KEM implementation may report.
#[derive(Clone, Debug, PartialEq, Eq)]
pub enum KemError {
    /// Buffer did not have the length the implementation expects.
    BadLength { what: &'static str, expected: usize, got: usize },
    /// The algorithm is registered but not enabled in this build.
    NotEnabled(Algorithm),
    /// Randomness source failed.
    Randomness,
    /// The algorithm exists but is not implemented here at all.
    UnknownAlgorithm(Algorithm),
}

/// A key pair returned by `Kem::keygen`.
#[derive(Clone, Debug, PartialEq, Eq)]
pub struct KeyPair {
    pub public_key: Vec<u8>,
    pub secret_key: Vec<u8>,
}

/// A key encapsulation mechanism, as seen by calling code. Implementations
/// must be usable from multiple threads.
pub trait Kem: Send + Sync {
    /// The algorithm this implementation reports.
    spec fn kem_algorithm(&self) -> Algorithm;

    /// The name this implementation reports.
    spec fn kem_name(&self) -> Seq<char>;

    /// Which wire-format identifier this implementation writes.
    fn algorithm(&self) -> (r: Algorithm)
        ensures
            r == self.kem_algorithm();

    /// The sizes this implementation reports.
    spec fn kem_sizes(&self) -> Sizes;

    /// Object sizes for allocation.
    fn sizes(&self) -> (r: Sizes)
        ensures
            r == self.kem_sizes();

    /// Generate a fresh key pair.
    fn keygen(&self) -> Result<KeyPair, KemError>;

    /// Encapsulate to a public key, returning `(ciphertext, shared_secret)`.
    fn encaps(&self, public_key: &[u8]) -> Result<(Vec<u8>, Vec<u8>), KemError>;

    /// Recover the shared secret. Implementations must return an error or a
    /// pseudo-random secret for tampered input, never the real secret.
    fn decaps(&self, secret_key: &[u8], ciphertext: &[u8]) -> Result<Vec<u8>, KemError>;

    /// Human-readable name, for logs and metrics.
    fn name(&self) -> (r: &'static str)
        ensures
            r@ == self.kem_name();
}

/// RE-KEM behind `Kem`, generic over the parameter set. `keygen`/`encaps`/
/// `decaps` call the same routines as the inherent API.
pub struct ReKemAdapter<const N: usize, const PK: usize, const SK: usize, const CT: usize> {
    inner: KemGeneric<N, PK, SK, CT>,
    algorithm: Algorithm,
    params: Params,
}

/// Adapter for the default set (`n = 512`).
pub type ReKemKem = ReKemAdapter<512, PK_LEN, SK_LEN, CT_LEN>;

/// Adapter for the second set (`n = 1024`).
pub type ReKem1024Kem = ReKemAdapter<1024, PK_LEN_1024, SK_LEN_1024, CT_LEN_1024>;

impl<const N: usize, const PK: usize, const SK: usize, const CT: usize> ReKemAdapter<N, PK, SK, CT> {
    /// The dimensions are consistent and match the parameter set.
    #[verifier::type_invariant]
    spec fn wf(self) -> bool {
        &&& kem_dims(N as int, PK as int, SK as int, CT as int)
        &&& 6144int % (N as int) == 0
        &&& self.params.n == N
    }

    /// The algorithm this adapter reports.
    pub closed spec fn spec_algorithm(self) -> Algorithm {
        self.algorithm
    }

    /// The parameter set this adapter was built with.
    pub closed spec fn spec_params(self) -> Params {
        self.params
    }

    /// Build an adapter for an explicit algorithm and parameter set.
    pub fn with_params(algorithm: Algorithm, params: Params) -> (r: Self)
        requires
            kem_dims(N as int, PK as int, SK as int, CT as int),
            6144int % (N as int) == 0,
            params.n == N,
        ensures
            r.spec_algorithm() == algorithm,
            r.spec_params() == params,
    {
        ReKemAdapter { inner: KemGeneric::<N, PK, SK, CT>::new(), algorithm, params }
    }

    /// The parameter set this adapter was built with.
    pub fn params(&self) -> (r: Params)
        ensures
            r == self.spec_params(),
    {
        self.params
    }
}

impl ReKemAdapter<512, PK_LEN, SK_LEN, CT_LEN> {
    /// Adapter for the compiled-in default set.
    pub fn new() -> (r: Self)
        ensures
            r.spec_algorithm() == Algorithm::ReKem512,
            r.spec_params() == spec_newhope_512(),
    {
        proof {
            crate::kem::lemma_sizes_match_params();
        }
        Self::with_params(Algorithm::ReKem512, newhope_512())
    }
}

impl Default for ReKemAdapter<512, PK_LEN, SK_LEN, CT_LEN> {
    /// The default adapter: the `n = 512` set under its own identifier.
    fn default() -> (r: Self)
        ensures
            r.spec_algorithm() == Algorithm::ReKem512,
            r.spec_params() == spec_newhope_512(),
    {
        proof {
            crate::kem::lemma_sizes_match_params();
        }
        Self::with_params(Algorithm::ReKem512, newhope_512())
    }
}

impl ReKemAdapter<1024, PK_LEN_1024, SK_LEN_1024, CT_LEN_1024> {
    /// Adapter for the second set, `n = 1024`.
    pub fn new() -> (r: Self)
        ensures
            r.spec_algorithm() == Algorithm::ReKem1024,
            r.spec_params() == spec_level5_1024(),
    {
        proof {
            crate::kem::lemma_sizes_match_params();
        }
        Self::with_params(Algorithm::ReKem1024, level5_1024())
    }
}

/// The sizes an adapter with these byte lengths and parameter set reports.
pub open spec fn spec_adapter_sizes(pk: usize, sk: usize, ct: usize, params: Params) -> Sizes {
    Sizes { public_key: pk, secret_key: sk, ciphertext: ct, shared_secret: params.ss_len }
}

/// The name an adapter reports for its algorithm.
pub open spec fn spec_adapter_name(a: Algorithm) -> Seq<char> {
    if a is ReKem1024 {
        "re-kem-1024"@
    } else {
        "re-kem"@
    }
}

impl<const N: usize, const PK: usize, const SK: usize, const CT: usize> Kem for ReKemAdapter<N, PK, SK, CT> {
    open spec fn kem_algorithm(&self) -> Algorithm {
        self.spec_algorithm()
    }

    open spec fn kem_name(&self) -> Seq<char> {
        spec_adapter_name(self.spec_algorithm())
    }

    open spec fn kem_sizes(&self) -> Sizes {
        spec_adapter_sizes(PK, SK, CT, self.spec_params())
    }

    fn algorithm(&self) -> (r: Algorithm) {
        self.algorithm
    }

    fn sizes(&self) -> (r: Sizes) {
        Sizes { public_key: PK, secret_key: SK, ciphertext: CT, shared_secret: self.params.ss_len }
    }

    fn keygen(&self) -> (r: Result<KeyPair, KemError>)
        ensures
            match r {
                Ok(kp) => kp.public_key@.len() == PK && kp.secret_key@.len() == SK && exists|seed_a: Seq<u8>, noise_seed: Seq<u8>, z: Seq<u8>|
                    seed_a.len() == 32 && noise_seed.len() == 32 && z.len() == 32
                    && (kp.public_key@, kp.secret_key@) == #[trigger] spec_keygen(N as nat, seed_a, noise_seed, z),
                Err(e) => e == KemError::Randomness,
            },
    {
        proof {
            use_type_invariant(self);
        }
        match self.inner.keygen() {
            Ok((pk, sk)) => Ok(KeyPair { public_key: slice_to_vec(pk.as_slice()), secret_key: slice_to_vec(sk.as_slice()) }),
            Err(e) => Err(e),
        }
    }

    fn encaps(&self, public_key: &[u8]) -> (r: Result<(Vec<u8>, Vec<u8>), KemError>)
        ensures
            public_key@.len() != PK ==> r == Err::<(Vec<u8>, Vec<u8>), KemError>(KemError::BadLength { what: "public key", expected: PK, got: public_key@.len() as usize }),
            public_key@.len() == PK ==> match r {
                Ok((ct, ss)) => ct@.len() == CT && ss@.len() == 32 && exists|m: Seq<u8>| m.len() == 32 && (ct@, ss@) == #[trigger] spec_encaps(N as nat, public_key@, m),
                Err(e) => e == KemError::Randomness,
            },
    {
        proof {
            use_type_invariant(self);
        }
        if public_key.len() != PK {
            return Err(KemError::BadLength { what: "public key", expected: PK, got: public_key.len() });
        }
        let mut pk = [0u8; PK];
        crate::kem::copy_into(&mut pk, 0, public_key);
        proof {
            assert(pk@ =~= public_key@);
        }
        match self.inner.encaps(&pk) {
            Ok((ct, ss)) => Ok((slice_to_vec(ct.as_slice()), slice_to_vec(ss.as_slice()))),
            Err(e) => Err(e),
        }
    }

    fn decaps(&self, secret_key: &[u8], ciphertext: &[u8]) -> (r: Result<Vec<u8>, KemError>)
        ensures
            secret_key@.len() != SK ==> r == Err::<Vec<u8>, KemError>(KemError::BadLength { what: "secret key", expected: SK, got: secret_key@.len() as usize }),
            secret_key@.len() == SK && ciphertext@.len() != CT ==> r == Err::<Vec<u8>, KemError>(KemError::BadLength { what: "ciphertext", expected: CT, got: ciphertext@.len() as usize }),
            secret_key@.len() == SK && ciphertext@.len() == CT ==> match r {
                Ok(ss) => ss@ == spec_decaps(N as nat, secret_key@, ciphertext@) && ss@.len() == 32,
                Err(_) => false,
            },
    {
        proof {
            use_type_invariant(self);
        }
        if secret_key.len() != SK {
            return Err(KemError::BadLength { what: "secret key", expected: SK, got: secret_key.len() });
        }
        if ciphertext.len() != CT {
            return Err(KemError::BadLength { what: "ciphertext", expected: CT, got: ciphertext.len() });
        }
        let mut sk = [0u8; SK];
        crate::kem::copy_into(&mut sk, 0, secret_key);
        let mut ct = [0u8; CT];
        crate::kem::copy_into(&mut ct, 0, ciphertext);
        proof {
            assert(sk@ =~= secret_key@);
            assert(ct@ =~= ciphertext@);
        }
        let ss = self.inner.decaps(&sk, &ct);
        Ok(slice_to_vec(ss.as_slice()))
    }

    fn name(&self) -> (r: &'static str) {
        match self.algorithm {
            Algorithm::ReKem1024 => "re-kem-1024",
            _ => "re-kem",
        }
    }
}

/// `str` equality (`<str as PartialEq>::eq`): true exactly when both strings
/// hold the same characters.
#[verifier::external_body]
fn str_eq(a: &str, b: &str) -> (r: bool)
    ensures
        r == (a@ == b@),
{
    a == b
}

/// Maps algorithm identifiers to implementations. A caller asks the registry
/// for an algorithm by id and gets whatever implementation is wired in.
pub struct Registry {
    entries: Vec<(Algorithm, Box<dyn Kem>)>,
}

/// The predicate "differs from `a`".
pub open spec fn differs_from(a: Algorithm) -> spec_fn(Algorithm) -> bool {
    |x: Algorithm| x != a
}

/// Keeps the entries whose algorithm differs from `a`.
pub open spec fn without(algs: Seq<Algorithm>, a: Algorithm) -> Seq<Algorithm> {
    algs.filter(differs_from(a))
}

/// The algorithm of one registry entry.
pub open spec fn entry_alg(e: (Algorithm, Box<dyn Kem>)) -> Algorithm {
    e.0
}

/// A registry entry with this name and algorithm answers to `label`.
pub open spec fn label_matches(name: Seq<char>, alg: Algorithm, label: Seq<char>) -> bool {
    name == label || alg.spec_label() == label
}

/// A registry entry as seen from outside: its key, and the name and sizes
/// its implementation reports.
pub type EntryView = (Algorithm, Seq<char>, Sizes);

/// The entries as seen from outside.
pub open spec fn entry_pairs(entries: Seq<(Algorithm, Box<dyn Kem>)>) -> Seq<EntryView> {
    entries.map_values(|e: (Algorithm, Box<dyn Kem>)| (entry_alg(e), e.1.kem_name(), e.1.kem_sizes()))
}

/// What an implementation reports of itself: its algorithm, name and sizes.
pub open spec fn reported(k: &Box<dyn Kem>) -> EntryView {
    (k.kem_algorithm(), k.kem_name(), k.kem_sizes())
}

/// The predicate "registered under an algorithm other than `a`".
pub open spec fn pair_differs(a: Algorithm) -> spec_fn(EntryView) -> bool {
    |p: EntryView| p.0 != a
}

/// The predicate "an entry under an algorithm other than `a`".
pub open spec fn entry_differs(a: Algorithm) -> spec_fn((Algorithm, Box<dyn Kem>)) -> bool {
    |e: (Algorithm, Box<dyn Kem>)| e.0 != a
}

/// Dropping the entries under `a` commutes with viewing them from outside.
proof fn lemma_pairs_of_filter(es: Seq<(Algorithm, Box<dyn Kem>)>, a: Algorithm)
    ensures
        entry_pairs(es.filter(entry_differs(a))) == entry_pairs(es).filter(pair_differs(a)),
    decreases es.len(),
{
    reveal(Seq::filter);
    if es.len() == 0 {
        assert(entry_pairs(es) =~= Seq::<EntryView>::empty());
        assert(entry_pairs(es.filter(entry_differs(a))) =~= Seq::<EntryView>::empty());
    } else {
        let d = es.drop_last();
        lemma_pairs_of_filter(d, a);
        assert(entry_pairs(es).drop_last() =~= entry_pairs(d));
        let f = d.filter(entry_differs(a));
        if es.last().0 != a {
            assert(entry_pairs(f.push(es.last())) =~= entry_pairs(f).push(entry_pairs(es).last()));
        }
    }
}

/// The position of the first entry under `a`, or -1 if there is none.
pub open spec fn first_index(es: Seq<(Algorithm, Box<dyn Kem>)>, a: Algorithm) -> int
    decreases es.len(),
{
    if es.len() == 0 {
        -1
    } else {
        let earlier = first_index(es.drop_last(), a);
        if earlier >= 0 {
            earlier
        } else if es.last().0 == a {
            es.len() - 1
        } else {
            -1
        }
    }
}

/// `first_index` is -1 or the first position holding `a`.
proof fn lemma_first_index(es: Seq<(Algorithm, Box<dyn Kem>)>, a: Algorithm)
    ensures
        -1 <= first_index(es, a) < es.len(),
        first_index(es, a) == -1 ==> forall|j: int| 0 <= j < es.len() ==> #[trigger] es[j].0 != a,
        first_index(es, a) >= 0 ==> es[first_index(es, a)].0 == a
            && forall|j: int| 0 <= j < first_index(es, a) ==> #[trigger] es[j].0 != a,
    decreases es.len(),
{
    if es.len() > 0 {
        let d = es.drop_last();
        lemma_first_index(d, a);
        let fi = first_index(es, a);
        let fd = first_index(d, a);
        if fi == -1 {
            assert forall|j: int| 0 <= j < es.len() implies #[trigger] es[j].0 != a by {
                if j < d.len() {
                    assert(d[j] == es[j]);
                    assert(d[j].0 != a);
                }
            }
        } else {
            assert forall|j: int| 0 <= j < fi implies #[trigger] es[j].0 != a by {
                assert(d[j] == es[j]);
                if fd >= 0 {
                    assert(d[j].0 != a);
                } else {
                    assert(d[j].0 != a);
                }
            }
            if fd >= 0 {
                assert(d[fd] == es[fd]);
            }
        }
    }
}

/// Dropping the entries under `a` leaves the first entry under any other
/// algorithm as it was.
proof fn lemma_first_index_filter(es: Seq<(Algorithm, Box<dyn Kem>)>, a: Algorithm, b: Algorithm)
    requires
        a != b,
    ensures
        (first_index(es.filter(entry_differs(a)), b) == -1) == (first_index(es, b) == -1),
        first_index(es, b) >= 0 ==> es.filter(entry_differs(a))[first_index(es.filter(entry_differs(a)), b)] == es[first_index(es, b)],
    decreases es.len(),
{
    reveal(Seq::filter);
    if es.len() > 0 {
        let d = es.drop_last();
        lemma_first_index_filter(d, a, b);
        let fd = d.filter(entry_differs(a));
        lemma_first_index(d, b);
        lemma_first_index(fd, b);
        if es.last().0 != a {
            let fe = fd.push(es.last());
            assert(fe.drop_last() =~= fd);
            assert(es.filter(entry_differs(a)) == fe);
            if first_index(fd, b) >= 0 {
                assert(fe[first_index(fd, b)] == fd[first_index(fd, b)]);
            }
        }
    }
}

/// Registering `k` under `a` makes `k` what a lookup of `a` finds, and leaves
/// what a lookup of every other algorithm finds as it was.
pub proof fn lemma_register_then_lookup(
    before: Seq<(Algorithm, Box<dyn Kem>)>,
    after: Seq<(Algorithm, Box<dyn Kem>)>,
    a: Algorithm,
    k: Box<dyn Kem>,
    b: Algorithm,
)
    requires
        after.len() > 0,
        after.drop_last() == before.filter(entry_differs(a)),
        after.last().0 == a,
        after.last().1 == k,
    ensures
        first_index(after, a) == after.len() - 1,
        after[first_index(after, a)].1 == k,
        b != a ==> (first_index(after, b) == -1) == (first_index(before, b) == -1),
        b != a && first_index(before, b) >= 0 ==> after[first_index(after, b)] == before[first_index(before, b)],
{
    reveal(Seq::filter);
    let f = before.filter(entry_differs(a));
    before.filter_lemma(entry_differs(a));
    assert forall|j: int| 0 <= j < f.len() implies #[trigger] f[j].0 != a by {
        assert(entry_differs(a)(f[j]));
    }
    lemma_first_index(f, a);
    assert(after.drop_last() == f);
    if b != a {
        lemma_first_index_filter(before, a, b);
        lemma_first_index(f, b);
        if first_index(f, b) >= 0 {
            assert(after[first_index(f, b)] == f[first_index(f, b)]);
        }
    }
}

/// The keys of registry entries.
pub open spec fn keys_of(ps: Seq<EntryView>) -> Seq<Algorithm> {
    ps.map_values(|p: EntryView| p.0)
}

/// The names of registry entries.
pub open spec fn names_of(ps: Seq<EntryView>) -> Seq<Seq<char>> {
    ps.map_values(|p: EntryView| p.1)
}

/// The sizes reported by registry entries.
pub open spec fn sizes_of(ps: Seq<EntryView>) -> Seq<Sizes> {
    ps.map_values(|p: EntryView| p.2)
}

/// Dropping the entries under `a` and then taking keys is taking keys and
/// then dropping `a`.
proof fn lemma_keys_of_filter(ps: Seq<EntryView>, a: Algorithm)
    ensures
        keys_of(ps.filter(pair_differs(a))) == without(keys_of(ps), a),
    decreases ps.len(),
{
    reveal(Seq::filter);
    if ps.len() == 0 {
        assert(keys_of(ps) =~= Seq::<Algorithm>::empty());
        assert(keys_of(ps.filter(pair_differs(a))) =~= Seq::<Algorithm>::empty());
    } else {
        let d = ps.drop_last();
        lemma_keys_of_filter(d, a);
        assert(keys_of(ps).drop_last() =~= keys_of(d));
        let f = d.filter(pair_differs(a));
        if ps.last().0 != a {
            assert(keys_of(f.push(ps.last())) =~= keys_of(f).push(ps.last().0));
        }
    }
}

/// Each entry's key is the algorithm its implementation reports.
pub open spec fn keyed_by_algorithm(entries: Seq<(Algorithm, Box<dyn Kem>)>) -> bool {
    forall|i: int| 0 <= i < entries.len() ==> #[trigger] entries[i].0 == entries[i].1.kem_algorithm()
}

impl Registry {
    /// Each entry is keyed by the algorithm its implementation reports, and
    /// no algorithm is registered twice.
    #[verifier::type_invariant]
    spec fn wf(self) -> bool {
        &&& keyed_by_algorithm(self.entries@)
        &&& keys_of(entry_pairs(self.entries@)).no_duplicates()
    }

    /// The registered entries themselves, in registration order: each
    /// algorithm with the implementation registered under it.
    pub closed spec fn registered(self) -> Seq<(Algorithm, Box<dyn Kem>)> {
        self.entries@
    }

    /// The registered entries, in registration order: each algorithm with the
    /// name its implementation reports.
    pub closed spec fn entries_view(self) -> Seq<EntryView> {
        entry_pairs(self.entries@)
    }

    /// The registered algorithms, in registration order.
    pub open spec fn algs(self) -> Seq<Algorithm> {
        keys_of(self.entries_view())
    }

    /// The names the registered implementations report, in registration order.
    pub open spec fn names(self) -> Seq<Seq<char>> {
        names_of(self.entries_view())
    }

    /// An empty registry.
    pub fn new() -> (r: Self)
        ensures
            r.entries_view() == Seq::<EntryView>::empty(),
            r.algs() == Seq::<Algorithm>::empty(),
    {
        let r = Registry { entries: Vec::new() };
        proof {
            assert(r.entries_view() =~= Seq::<EntryView>::empty());
            assert(r.algs() =~= Seq::<Algorithm>::empty());
        }
        r
    }

    /// Add an implementation under the algorithm it reports. A later
    /// registration of the same algorithm replaces the earlier one.
    pub fn register(&mut self, kem: Box<dyn Kem>)
        ensures
            final(self).registered().len() > 0,
            final(self).registered().drop_last() == old(self).registered().filter(entry_differs(kem.kem_algorithm())),
            final(self).registered().last().0 == kem.kem_algorithm(),
            final(self).registered().last().1 == kem,
            final(self).entries_view() == old(self).entries_view().filter(pair_differs(kem.kem_algorithm())).push(
                (kem.kem_algorithm(), kem.kem_name(), kem.kem_sizes()),
            ),
            final(self).algs() == without(old(self).algs(), kem.kem_algorithm()).push(kem.kem_algorithm()),
            final(self).algs().no_duplicates(),
    {
        proof {
            use_type_invariant(&*self);
        }
        let alg = (*kem).algorithm();
        let mut entries: Vec<(Algorithm, Box<dyn Kem>)> = Vec::new();
        std::mem::swap(&mut entries, &mut self.entries);
        let ghost o = entries@;
        let ghost p = entry_differs(alg);
        let mut i: usize = 0;
        let ghost mut j: int = 0;
        proof {
            reveal(Seq::filter);
            assert(o.subrange(0, 0) =~= Seq::<(Algorithm, Box<dyn Kem>)>::empty());
            assert(o.subrange(0, 0).filter(p) =~= Seq::<(Algorithm, Box<dyn Kem>)>::empty());
            assert(entries@ =~= o.subrange(0, 0).filter(p) + o.subrange(0, o.len() as int));
        }
        while i < entries.len()
            invariant
                0 <= j <= o.len(),
                p == entry_differs(alg),
                i <= entries@.len(),
                entries@ == o.subrange(0, j).filter(p) + o.subrange(j, o.len() as int),
                i == o.subrange(0, j).filter(p).len(),
                keyed_by_algorithm(entries@),
            decreases o.len() - j,
        {
            proof {
                reveal(Seq::filter);
                assert(o.subrange(0, j + 1).drop_last() =~= o.subrange(0, j));
                assert(entries@[i as int] == o[j]);
            }
            if entries[i].0 == alg {
                let ghost before = entries@;
                let _removed = entries.remove(i);
                proof {
                    assert(o.subrange(0, j + 1).filter(p) == o.subrange(0, j).filter(p));
                    assert(entries@ =~= o.subrange(0, j + 1).filter(p) + o.subrange(j + 1, o.len() as int));
                    assert forall|k: int| 0 <= k < entries@.len() implies #[trigger] entries@[k].0 == entries@[k].1.kem_algorithm() by {
                        if k < i {
                            assert(entries@[k] == before[k]);
                        } else {
                            assert(entries@[k] == before[k + 1]);
                        }
                    }
                    j = j + 1;
                }
            } else {
                proof {
                    assert(o.subrange(0, j + 1).filter(p) == o.subrange(0, j).filter(p).push(o[j]));
                    assert(entries@ =~= o.subrange(0, j + 1).filter(p) + o.subrange(j + 1, o.len() as int));
                    j = j + 1;
                }
                i += 1;
            }
        }
        proof {
            assert(o.subrange(j, o.len() as int).len() == 0);
            assert(j == o.len());
            assert(o.subrange(0, o.len() as int) =~= o);
            assert(o.subrange(j, o.len() as int) =~= Seq::<(Algorithm, Box<dyn Kem>)>::empty());
            assert(entries@ =~= o.filter(p));
        }
        let ghost before = entries@;
        let ghost kg = kem;
        let entry = (alg, kem);
        assert(entry.0 == alg);
        assert(entry.1 == kg);
        assert(entry == (alg, kg));
        entries.push(entry);
        proof {
            assert(entries@[before.len() as int] == entry);
            assert(entries@ =~= before.push(entry));
            assert(entries@.drop_last() =~= o.filter(p));
            let op = entry_pairs(o);
            lemma_pairs_of_filter(o, alg);
            assert(entry_pairs(entries@) =~= entry_pairs(before).push((alg, entry.1.kem_name(), entry.1.kem_sizes())));
            assert forall|k: int| 0 <= k < entries@.len() implies #[trigger] entries@[k].0 == entries@[k].1.kem_algorithm() by {
                if k < before.len() {
                    assert(entries@[k] == before[k]);
                }
            }
            lemma_keys_of_filter(op, alg);
            assert(keys_of(op.filter(pair_differs(alg)).push((alg, entry.1.kem_name(), entry.1.kem_sizes())))
                =~= keys_of(op.filter(pair_differs(alg))).push(alg));
            lemma_register_keeps_unique(keys_of(op), alg);
        }
        self.entries = entries;
    }

    /// The registry as shipped: both parameter sets, `n = 512` first.
    pub fn with_defaults() -> (r: Self)
        ensures
            r.entries_view() == seq![
                (
                    Algorithm::ReKem512,
                    spec_adapter_name(Algorithm::ReKem512),
                    spec_adapter_sizes(PK_LEN, SK_LEN, CT_LEN, spec_newhope_512()),
                ),
                (
                    Algorithm::ReKem1024,
                    spec_adapter_name(Algorithm::ReKem1024),
                    spec_adapter_sizes(PK_LEN_1024, SK_LEN_1024, CT_LEN_1024, spec_level5_1024()),
                ),
            ],
            r.algs() == seq![Algorithm::ReKem512, Algorithm::ReKem1024],
    {
        let mut r = Registry::new();
        let k512 = ReKemKem::new();
        r.register(Box::new(k512));
        let k1024 = ReKem1024Kem::new();
        r.register(Box::new(k1024));
        proof {
            reveal(Seq::filter);
            assert(Seq::<Algorithm>::empty().filter(differs_from(Algorithm::ReKem512)) =~= Seq::<Algorithm>::empty());
            assert(seq![Algorithm::ReKem512].drop_last() =~= Seq::<Algorithm>::empty());
            assert(Seq::<Algorithm>::empty().filter(differs_from(Algorithm::ReKem1024)) =~= Seq::<Algorithm>::empty());
            assert(seq![Algorithm::ReKem512].filter(differs_from(Algorithm::ReKem1024)) =~= seq![Algorithm::ReKem512]);
            let e1 = (
                Algorithm::ReKem512,
                spec_adapter_name(Algorithm::ReKem512),
                spec_adapter_sizes(PK_LEN, SK_LEN, CT_LEN, spec_newhope_512()),
            );
            let e2 = (
                Algorithm::ReKem1024,
                spec_adapter_name(Algorithm::ReKem1024),
                spec_adapter_sizes(PK_LEN_1024, SK_LEN_1024, CT_LEN_1024, spec_level5_1024()),
            );
            assert(Seq::<EntryView>::empty().filter(pair_differs(Algorithm::ReKem512)) =~= Seq::<EntryView>::empty());
            assert(seq![e1].drop_last() =~= Seq::<EntryView>::empty());
            assert(Seq::<EntryView>::empty().filter(pair_differs(Algorithm::ReKem1024)) =~= Seq::<EntryView>::empty());
            assert(seq![e1].filter(pair_differs(Algorithm::ReKem1024)) =~= seq![e1]);
            assert(r.entries_view() =~= seq![e1, e2]);
            assert(r.algs() =~= seq![Algorithm::ReKem512, Algorithm::ReKem1024]);
        }
        r
    }

    /// Look up by wire-format identifier: the implementation registered
    /// under `algorithm`, or `None`. The implementation comes back in its box,
    /// so that what it reports of itself is tied to the registry's entry.
    pub fn get(&self, algorithm: Algorithm) -> (r: Option<&Box<dyn Kem>>)
        ensures
            r is None <==> !self.algs().contains(algorithm),
            r is None <==> first_index(self.registered(), algorithm) == -1,
            r matches Some(k) ==> *k == self.registered()[first_index(self.registered(), algorithm)].1,
            r matches Some(k) ==> exists|i: int|
                0 <= i < self.algs().len()
                && #[trigger] self.algs()[i] == algorithm
                && (forall|j: int| 0 <= j < i ==> self.algs()[j] != algorithm)
                && reported(k) == self.entries_view()[i]
                && *k == self.registered()[i].1,
    {
        proof {
            use_type_invariant(self);
        }
        let mut i: usize = 0;
        while i < self.entries.len()
            invariant
                0 <= i <= self.algs().len(),
                self.algs().len() == self.entries@.len(),
                keyed_by_algorithm(self.entries@),
                forall|j: int| 0 <= j < i ==> self.algs()[j] != algorithm,
            decreases self.entries@.len() - i,
        {
            if self.entries[i].0 == algorithm {
                let k: &Box<dyn Kem> = &self.entries[i].1;
                proof {
                    assert(self.algs()[i as int] == algorithm);
                    assert(self.entries@[i as int].0 == self.entries@[i as int].1.kem_algorithm());
                    assert(reported(k) == self.entries_view()[i as int]);
                    assert(*k == self.registered()[i as int].1);
                    lemma_first_index(self.registered(), algorithm);
                    let fi = first_index(self.registered(), algorithm);
                    assert(self.registered()[i as int].0 == algorithm);
                    if fi == -1 {
                        assert(self.registered()[i as int].0 != algorithm);
                    } else if fi < i {
                        assert(self.algs()[fi] != algorithm);
                    } else if fi > i {
                        assert(self.registered()[i as int].0 != algorithm);
                    }
                }
                return Some(k);
            }
            i += 1;
        }
        proof {
            if self.algs().contains(algorithm) {
                let k = choose|k: int| 0 <= k < self.algs().len() && self.algs()[k] == algorithm;
                assert(self.algs()[k] != algorithm);
            }
            lemma_first_index(self.registered(), algorithm);
            if first_index(self.registered(), algorithm) >= 0 {
                assert(self.algs()[first_index(self.registered(), algorithm)] != algorithm);
            }
        }
        None
    }

    /// Look up by stable label, e.g. `"re-kem-512"`: the first implementation
    /// whose `name()` or whose algorithm's label equals `label`.
    pub fn get_by_label(&self, label: &str) -> (r: Option<&Box<dyn Kem>>)
        ensures
            r is None <==> forall|i: int| 0 <= i < self.algs().len() ==> !#[trigger] label_matches(self.names()[i], self.algs()[i], label@),
            r matches Some(k) ==> exists|i: int|
                0 <= i < self.algs().len()
                && #[trigger] label_matches(self.names()[i], self.algs()[i], label@)
                && (forall|j: int| 0 <= j < i ==> !#[trigger] label_matches(self.names()[j], self.algs()[j], label@))
                && reported(k) == self.entries_view()[i]
                && *k == self.registered()[i].1,
    {
        proof {
            use_type_invariant(self);
        }
        let mut i: usize = 0;
        while i < self.entries.len()
            invariant
                0 <= i <= self.algs().len(),
                self.algs().len() == self.entries@.len(),
                self.names().len() == self.entries@.len(),
                keyed_by_algorithm(self.entries@),
                forall|j: int| 0 <= j < i ==> !#[trigger] label_matches(self.names()[j], self.algs()[j], label@),
            decreases self.entries@.len() - i,
        {
            let bx: &Box<dyn Kem> = &self.entries[i].1;
            let nm = bx.name();
            let al = bx.algorithm();
            proof {
                assert(self.entries@[i as int].0 == self.entries@[i as int].1.kem_algorithm());
                assert(self.algs()[i as int] == al);
                assert(self.names()[i as int] == nm@);
                assert(reported(bx) == self.entries_view()[i as int]);
                assert(*bx == self.registered()[i as int].1);
            }
            if str_eq(nm, label) || str_eq(al.label(), label) {
                proof {
                    assert(label_matches(self.names()[i as int], self.algs()[i as int], label@));
                }
                return Some(bx);
            }
            i += 1;
        }
        None
    }

    /// All registered algorithms, in registration order.
    pub fn algorithms(&self) -> (r: Vec<Algorithm>)
        ensures
            r@ == self.algs(),
    {
        let mut out = Vec::new();
        let mut i: usize = 0;
        while i < self.entries.len()
            invariant
                0 <= i <= self.algs().len(),
                self.algs().len() == self.entries@.len(),
                out@ == self.algs().subrange(0, i as int),
            decreases self.entries@.len() - i,
        {
            out.push(self.entries[i].0);
            proof {
                assert(out@ =~= self.algs().subrange(0, i + 1));
            }
            i += 1;
        }
        proof {
            assert(self.algs().subrange(0, i as int) =~= self.algs());
        }
        out
    }

    /// Labels for diagnostics, in registration order.
    pub fn labels(&self) -> (r: Vec<String>)
        ensures
            r@.len() == self.algs().len(),
            forall|i: int| 0 <= i < r@.len() ==> #[trigger] r@[i]@ == self.algs()[i].spec_label(),
    {
        let mut out: Vec<String> = Vec::new();
        let mut i: usize = 0;
        while i < self.entries.len()
            invariant
                0 <= i <= self.algs().len(),
                self.algs().len() == self.entries@.len(),
                out@.len() == i,
                forall|k: int| 0 <= k < i ==> #[trigger] out@[k]@ == self.algs()[k].spec_label(),
            decreases self.entries@.len() - i,
        {
            let a = self.entries[i].0;
            out.push(a.label().to_owned());
            i += 1;
        }
        out
    }
}

impl Default for Registry {
    fn default() -> (r: Self)
        ensures
            r.algs() == seq![Algorithm::ReKem512, Algorithm::ReKem1024],
    {
        Self::with_defaults()
    }
}

/// Filtering keeps only elements of the input sequence, and keeps them distinct.
proof fn lemma_filter_unique(s: Seq<Algorithm>, p: spec_fn(Algorithm) -> bool)
    requires
        s.no_duplicates(),
    ensures
        s.filter(p).no_duplicates(),
        forall|x: Algorithm| s.filter(p).contains(x) ==> s.contains(x) && p(x),
    decreases s.len(),
{
    reveal(Seq::filter);
    if s.len() > 0 {
        let d = s.drop_last();
        assert forall|i: int, j: int| 0 <= i < d.len() && 0 <= j < d.len() && i != j implies d[i] != d[j] by {
            assert(d[i] == s[i] && d[j] == s[j]);
        }
        lemma_filter_unique(d, p);
        let f = d.filter(p);
        assert forall|x: Algorithm| d.contains(x) implies s.contains(x) by {
            let k = choose|k: int| 0 <= k < d.len() && d[k] == x;
            assert(s[k] == x);
        }
        if p(s.last()) {
            assert(!d.contains(s.last())) by {
                if d.contains(s.last()) {
                    let k = choose|k: int| 0 <= k < d.len() && d[k] == s.last();
                    assert(s[k] == s[s.len() - 1]);
                }
            }
            let g = f.push(s.last());
            assert forall|i: int, j: int| 0 <= i < g.len() && 0 <= j < g.len() && i != j implies g[i] != g[j] by {
                if i < f.len() && j < f.len() {
                } else if i < f.len() {
                    assert(f.contains(g[i]));
                } else if j < f.len() {
                    assert(f.contains(g[j]));
                }
            }
            assert forall|x: Algorithm| g.contains(x) implies s.contains(x) && p(x) by {
                if x != s.last() {
                    let k = choose|k: int| 0 <= k < g.len() && g[k] == x;
                    assert(f[k] == x);
                    assert(f.contains(x));
                }
            }
        }
    }
}

/// Registering under an algorithm keeps the registered algorithms free of
/// duplicates: a later registration replaces an earlier one, and the
/// algorithm ends up registered exactly once.
pub proof fn lemma_register_keeps_unique(algs: Seq<Algorithm>, a: Algorithm)
    requires
        algs.no_duplicates(),
    ensures
        without(algs, a).push(a).no_duplicates(),
        without(algs, a).push(a).contains(a),
{
    let p = differs_from(a);
    lemma_filter_unique(algs, p);
    let f = algs.filter(p);
    let g = f.push(a);
    assert(!f.contains(a));
    assert forall|i: int, j: int| 0 <= i < g.len() && 0 <= j < g.len() && i != j implies g[i] != g[j] by {
        if i < f.len() && j < f.len() {
        } else if i < f.len() {
            assert(f.contains(g[i]));
        } else if j < f.len() {
            assert(f.contains(g[j]));
        }
    }
    assert(g[g.len() - 1] == a);
}

} // verus!
