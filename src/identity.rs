use vstd::prelude::*;
use libp2p::identity::{ed25519, DecodingError, Keypair};

verus! {

#[verifier::external_type_specification]
#[verifier::external_body]
pub struct ExKeypair(Keypair);

#[verifier::external_type_specification]
#[verifier::external_body]
pub struct ExDecodingError(DecodingError);

/// Whether the bytes are a valid Ed25519 keypair encoding (secret scalar
/// followed by the compressed public point).
pub uninterp spec fn ed25519_keypair_decodes(b: Seq<u8>) -> bool;

/// Relies on `ed25519::Keypair::generate`: a fresh random keypair.
#[verifier::external_body]
fn generate_ed25519() -> (r: Keypair) {
    Keypair::from(ed25519::Keypair::generate())
}

/// Relies on `ed25519::Keypair::try_from_bytes`: anything but 64 bytes is
/// rejected; otherwise the bytes decide.
#[verifier::external_body]
fn decode_ed25519(bytes: Vec<u8>) -> (r: Result<Keypair, DecodingError>)
    ensures
        r.is_ok() == ed25519_keypair_decodes(bytes@),
        bytes@.len() != 64 ==> r.is_err(),
{
    let mut bytes = bytes;
    ed25519::Keypair::try_from_bytes(&mut bytes[..]).map(Keypair::from)
}

/// Why no signing identity could be produced.
#[derive(Debug, Clone, Copy, PartialEq, Eq, Structural)]
pub enum IdentityError {
    /// Neither generation was asked for nor key material supplied.
    MissingKeySource,
    /// The supplied key material does not decode as a keypair.
    Corrupt,
}

/// Produces the node's signing identity: a fresh keypair when `generate` is
/// set, otherwise the keypair decoded from `key_data`.
pub fn get_keypair(generate: bool, key_data: Option<Vec<u8>>) -> (r: Result<Keypair, IdentityError>)
    ensures
        generate ==> r is Ok,
        !generate && key_data is None ==> r == Err::<Keypair, _>(IdentityError::MissingKeySource),
        !generate && key_data is Some ==> {
            &&& r is Ok <==> ed25519_keypair_decodes(key_data->0@)
            &&& r is Err ==> r == Err::<Keypair, _>(IdentityError::Corrupt)
        },
{
    if generate {
        Ok(generate_ed25519())
    } else {
        match key_data {
            Some(bytes) => match decode_ed25519(bytes) {
                Ok(k) => Ok(k),
                Err(_) => Err(IdentityError::Corrupt),
            },
            None => Err(IdentityError::MissingKeySource),
        }
    }
}

} // verus!
