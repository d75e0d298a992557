use vstd::prelude::*;

pub mod api;
pub mod crypto;
pub mod field;
pub mod kem;
pub mod ntt;
pub mod ntt_math;
pub mod params;
pub mod ring;
pub mod sampling;
pub mod version;

pub use field::{FieldElement, Q};
pub use kem::{
    KemGeneric, ReKem, ReKem1024, CT_LEN, CT_LEN_1024, PK_LEN, PK_LEN_1024, SEED_LEN, SK_LEN,
    SK_LEN_1024, SS_LEN,
};
pub use ntt::{Poly, N};
pub use params::{active, level5_1024, newhope_512, Params};
pub use sampling::{cbd_sample, expand_a};
pub use version::{Algorithm, Envelope, VersionError};

verus! {

} // verus!
