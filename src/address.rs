use vstd::prelude::*;
use vstd::string::*;
use libp2p::{Multiaddr, PeerId};
use std::str::FromStr;

verus! {

#[verifier::external_type_specification]
#[verifier::external_body]
pub struct ExMultiaddr(Multiaddr);

#[verifier::external_type_specification]
#[verifier::external_body]
pub struct ExPeerId(PeerId);

#[verifier::external_type_specification]
#[verifier::external_body]
pub struct ExMultiaddrError(libp2p::multiaddr::Error);

#[verifier::external_type_specification]
#[verifier::external_body]
pub struct ExPeerIdParseError(libp2p::identity::ParseError);

/// Whether the text is a well-formed multiaddress.
pub uninterp spec fn multiaddr_accepts(s: Seq<char>) -> bool;

/// Whether the text is a well-formed base-58 peer identifier.
pub uninterp spec fn peer_id_accepts(s: Seq<char>) -> bool;

/// Relies on `Multiaddr::from_str`: it succeeds exactly on the texts it
/// accepts, and rejects any non-empty text that does not start with `/`.
#[verifier::external_body]
fn parse_multiaddr(s: &str) -> (r: Result<Multiaddr, libp2p::multiaddr::Error>)
    ensures
        r.is_ok() == multiaddr_accepts(s@),
        s@.len() > 0 && s@[0] != '/' ==> r.is_err(),
{
    Multiaddr::from_str(s)
}

/// Relies on `PeerId::from_str`: base-58 decoding followed by a multihash
/// check; it succeeds exactly on the texts it accepts, and empty text, which
/// decodes to no multihash, is rejected.
#[verifier::external_body]
fn parse_peer_id(s: &str) -> (r: Result<PeerId, libp2p::identity::ParseError>)
    ensures
        r.is_ok() == peer_id_accepts(s@),
        s@.len() == 0 ==> r.is_err(),
{
    PeerId::from_str(s)
}

/// Why a peer address could not be parsed.
#[derive(Debug, Clone, Copy, PartialEq, Eq, Structural)]
pub enum AddressError {
    /// The text holds no `/`, so no peer identifier can be split off.
    MissingSeparator,
    /// The part before the last `/` is not a multiaddress.
    InvalidMultiaddr,
    /// The part after the last `/` is not a peer identifier.
    InvalidPeerId,
}

/// Position of the last `/` in `s`, if any.
pub open spec fn last_slash(s: Seq<char>) -> Option<int>
    decreases s.len(),
{
    if s.len() == 0 {
        None
    } else if s.last() == '/' {
        Some(s.len() - 1)
    } else {
        last_slash(s.drop_last())
    }
}

proof fn lemma_last_slash(s: Seq<char>)
    ensures
        match last_slash(s) {
            Some(i) => 0 <= i < s.len() && s[i] == '/' && forall|j: int|
                i < j < s.len() ==> s[j] != '/',
            None => forall|j: int| 0 <= j < s.len() ==> s[j] != '/',
        },
    decreases s.len(),
{
    if s.len() > 0 && s.last() != '/' {
        let t = s.drop_last();
        lemma_last_slash(t);
        assert forall|j: int| 0 <= j < t.len() implies t[j] == s[j] by {}
        assert(s[s.len() - 1] != '/');
    }
}

/// The text with its first character removed; empty text stays empty.
pub fn without_first(s: &str) -> (r: &str)
    ensures
        r@ == (if s@.len() == 0 { s@ } else { s@.drop_first() }),
{
    let n = s.unicode_len();
    if n == 0 {
        s
    } else {
        let r = s.substring_char(1, n);
        assert(r@ =~= s@.drop_first());
        r
    }
}

/// Finds the last `/` in `s`.
pub fn rfind_slash(s: &str) -> (r: Option<usize>)
    ensures
        match r {
            Some(i) => last_slash(s@) == Some(i as int),
            None => last_slash(s@) is None,
        },
{
    proof {
        lemma_last_slash(s@);
    }
    let n = s.unicode_len();
    let mut i: usize = n;
    while i > 0
        invariant
            i <= n == s@.len(),
            forall|j: int| i <= j < n ==> s@[j] != '/',
            match last_slash(s@) {
                Some(k) => 0 <= k < s@.len() && s@[k] == '/' && forall|j: int|
                    k < j < s@.len() ==> s@[j] != '/',
                None => forall|j: int| 0 <= j < s@.len() ==> s@[j] != '/',
            },
        decreases i,
    {
        if s.get_char(i - 1) == '/' {
            return Some(i - 1);
        }
        i = i - 1;
    }
    None
}

/// The multiaddress part of a peer address: everything before the last `/`.
pub open spec fn address_part(s: Seq<char>) -> Seq<char> {
    s.subrange(0, last_slash(s)->0)
}

/// The peer identifier part of a peer address: everything after the last `/`.
pub open spec fn peer_part(s: Seq<char>) -> Seq<char> {
    s.subrange(last_slash(s)->0 + 1, s.len() as int)
}

/// Splits a peer address of the form `<multiaddr>/<peer id>` at its last `/`
/// and parses both parts.
pub fn parse_address(raw_address: &str) -> (r: Result<(Multiaddr, PeerId), AddressError>)
    ensures
        last_slash(raw_address@) is None ==> r == Err::<(Multiaddr, PeerId), _>(
            AddressError::MissingSeparator,
        ),
        last_slash(raw_address@) is Some ==> {
            let a = address_part(raw_address@);
            let p = peer_part(raw_address@);
            &&& !multiaddr_accepts(a) ==> r == Err::<(Multiaddr, PeerId), _>(
                AddressError::InvalidMultiaddr,
            )
            &&& multiaddr_accepts(a) && !peer_id_accepts(p) ==> r == Err::<
                (Multiaddr, PeerId),
                _,
            >(AddressError::InvalidPeerId)
            &&& r is Ok <==> multiaddr_accepts(a) && peer_id_accepts(p)
        },
{
    let split_i = match rfind_slash(raw_address) {
        Some(i) => i,
        None => return Err(AddressError::MissingSeparator),
    };
    proof {
        lemma_last_slash(raw_address@);
    }
    let n = raw_address.unicode_len();
    let raw_addr = raw_address.substring_char(0, split_i);
    let raw_id_padded = raw_address.substring_char(split_i, n);
    let raw_id = without_first(raw_id_padded);
    assert(raw_id@ =~= peer_part(raw_address@));
    let addr = match parse_multiaddr(raw_addr) {
        Ok(a) => a,
        Err(_) => return Err(AddressError::InvalidMultiaddr),
    };
    let peer_id = match parse_peer_id(raw_id) {
        Ok(p) => p,
        Err(_) => return Err(AddressError::InvalidPeerId),
    };
    Ok((addr, peer_id))
}

} // verus!
