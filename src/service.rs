//! The prover's decisions: header checks, the challenge axis, and the
//! response to each request. Locks, streams and persistence stay with the
//! caller, which hands in the current time.

use vstd::prelude::*;
use vstd::string::StringSliceAdditionalSpecFns;
use vstd::utf8::encode_utf8;
use crate::affine::{identity_tuple, AffineTuple, TupleView};
use crate::algebra::{generator_spec, ClassGroupElement};
use crate::bignum::le_val;
use crate::codec::response_wf;
use crate::error::HtpError;
use crate::folding::root_spec;
use crate::hashing::{append_bytes, blake3_xof, le64, le_bytes, xof};
use crate::primes::{hash_to_prime, htp_search};
use crate::tensor::{coord_of, get_spec, insert_spec, le_to_u64, EntryView, HyperTensor};
use crate::wire::{HtpRequest, HtpResponse, RequestHeader, PROTOCOL_VERSION};

verus! {

/// The most seconds a request's timestamp may differ from the prover's clock.
pub const MAX_CLOCK_SKEW: u64 = 60;

/// Bits of the prime derived for a registered identifier.
pub const USER_PRIME_BITS: u32 = 64;

/// The one message a client sees for an internal failure.
pub open spec fn generic_error_message() -> Seq<char> {
    "An internal server error occurred. Please contact admin."@
}

/// The message sent in place of an internal error's detail.
pub fn sanitize_error(_e: String) -> (r: String)
    ensures
        r@ == generic_error_message(),
{
    String::from_str("An internal server error occurred. Please contact admin.")
}

/// The header is of this version and its timestamp within the allowed skew of `now`.
pub open spec fn header_ok(h: RequestHeader, now: u64) -> bool {
    h.version == PROTOCOL_VERSION && now - MAX_CLOCK_SKEW <= h.timestamp <= now + MAX_CLOCK_SKEW
}

/// Accepts a header of the current version stamped within a minute of `now`.
pub fn validate_header(header: &RequestHeader, now: u64) -> (r: Result<(), HtpError>)
    ensures
        r is Ok <==> header_ok(*header, now),
        r is Err ==> r == Err::<(), HtpError>(HtpError::Protocol),
{
    if header.version != PROTOCOL_VERSION {
        return Err(HtpError::Protocol);
    }
    if header.timestamp < now.saturating_sub(MAX_CLOCK_SKEW) || header.timestamp > now.saturating_add(
        MAX_CLOCK_SKEW,
    ) {
        return Err(HtpError::Protocol);
    }
    Ok(())
}

/// What is hashed for draw `ctr`: the root's `P` bytes, the identifier, the counter.
pub open spec fn axis_input(p_bytes: Seq<u8>, id: Seq<u8>, ctr: nat) -> Seq<u8> {
    p_bytes + id + le_bytes(ctr, 8)
}

pub open spec fn two_pow_64() -> nat {
    0x1_0000_0000_0000_0000
}

/// The first accepted draw from `ctr` on, reduced mod `d`: a draw `v` is
/// accepted below the largest multiple of `d` not above `2^64`. Zero if every
/// counter is rejected.
pub open spec fn axis_search(p_bytes: Seq<u8>, id: Seq<u8>, d: nat, ctr: nat) -> nat
    decreases two_pow_64() - ctr,
{
    if ctr >= two_pow_64() || d == 0 {
        0
    } else {
        let v = le_val(blake3_xof(axis_input(p_bytes, id, ctr), 8));
        if v < (two_pow_64() / d) * d {
            v % d
        } else {
            axis_search(p_bytes, id, d, ctr + 1)
        }
    }
}

/// The challenge axis for an identifier under a root, by rejection sampling.
pub fn challenge_axis(root: &AffineTuple, user_id: &str, d: usize) -> (r: usize)
    requires
        root.wf(),
        d >= 1,
    ensures
        r == axis_search(root.p_factor.bytes@, user_id.spec_bytes(), d as nat, 0),
        r < d,
{
    let p_bytes = root.p_factor.to_le_bytes();
    let ghost id = user_id.spec_bytes();
    let q: u128 = 0x1_0000_0000_0000_0000u128 / d as u128;
    proof {
        vstd::arithmetic::div_mod::lemma_fundamental_div_mod(two_pow_64() as int, d as int);
        let x = two_pow_64() as int;
        let dd = d as int;
        assert(q * dd <= x) by (nonlinear_arith)
            requires
                x == dd * (q as int) + x % dd,
                x % dd >= 0,
        ;
    }
    let limit: u128 = q * d as u128;
    let mut ctr: u64 = 0;
    loop
        invariant
            d >= 1,
            p_bytes@ == root.p_factor.bytes@,
            id == user_id.spec_bytes(),
            limit == (two_pow_64() / d as nat) * d as nat,
            axis_search(p_bytes@, id, d as nat, ctr as nat) == axis_search(p_bytes@, id, d as nat, 0),
        decreases u64::MAX - ctr,
    {
        let mut input: Vec<u8> = Vec::new();
        append_bytes(&mut input, p_bytes.as_slice());
        append_bytes(&mut input, user_id.as_bytes());
        let cb = le64(ctr);
        append_bytes(&mut input, cb.as_slice());
        proof {
            assert(input@ =~= axis_input(p_bytes@, id, ctr as nat));
        }
        let h = xof(&input, 8);
        let v = le_to_u64(h.as_slice());
        if (v as u128) < limit {
            return (v % d as u64) as usize;
        }
        if ctr == u64::MAX {
            proof {
                assert(axis_search(p_bytes@, id, d as nat, ctr as nat + 1) == 0);
            }
            return 0;
        }
        ctr = ctr + 1;
    }
}

/// A bundle of `n` identity tuples and no anchors, for an unoccupied coordinate.
pub fn dummy_path(discriminant: &crate::bignum::BigInt, n: usize) -> (r: Vec<AffineTuple>)
    requires
        discriminant.wf(),
    ensures
        r@.len() == n,
        forall|i: int| 0 <= i < n ==> #[trigger] r@[i]@ == identity_tuple(discriminant@) && r@[i].wf(),
        forall|i: int| 0 <= i < n ==> #[trigger] r@[i].wf(),
{
    let mut path: Vec<AffineTuple> = Vec::new();
    let mut i: usize = 0;
    while i < n
        invariant
            discriminant.wf(),
            i <= n,
            path@.len() == i,
            forall|j: int| 0 <= j < i ==> #[trigger] path@[j]@ == identity_tuple(discriminant@) && path@[j].wf(),
        decreases n - i,
    {
        path.push(AffineTuple::identity(discriminant));
        i = i + 1;
    }
    proof {
        assert forall|j: int| 0 <= j < n implies #[trigger] path@[j].wf() by {
            assert(path@[j]@ == identity_tuple(discriminant@));
        }
    }
    path
}

/// The header of a request.
pub open spec fn header_of(r: HtpRequest) -> RequestHeader {
    match r {
        HtpRequest::GetProof { header, .. } => header,
        HtpRequest::GetGlobalRoot { header } => header,
        HtpRequest::RegisterUser { header, .. } => header,
    }
}

/// The entries after registering the identifier with bytes `id`: its prime
/// paired with the generator, inserted; `PrimeSearchExhausted` without a
/// prime, `SetupExhausted` without a generator, else as the insertion.
pub open spec fn register_spec(s: Seq<EntryView>, id: Seq<u8>, l: nat, n: nat, d: int) -> Result<
    Seq<EntryView>,
    HtpError,
> {
    match htp_search(id, USER_PRIME_BITS as nat, 0) {
        None => Err(HtpError::PrimeSearchExhausted),
        Some(p) => match generator_spec(d) {
            None => Err(HtpError::SetupExhausted),
            Some(g) => insert_spec(s, coord_of(id, l, n), (p, g), l, d),
        },
    }
}

/// `resp` is the proof bundle for `uid` in tensor `t`: request id and epoch
/// echoed; for an unoccupied coordinate `dimensions` identity tuples and no
/// anchors; else the stored tuple, one identity aggregate where the side
/// length exceeds one, and `dimensions - 1` identity anchors.
pub open spec fn bundle_ok(t: HyperTensor, header: RequestHeader, uid: Seq<char>, resp: HtpResponse) -> bool {
    let c = coord_of(encode_utf8(uid), t.side_length as nat, t.dimensions as nat);
    let present = exists|i: int| 0 <= i < t.entries().len() && #[trigger] t.entries()[i].0 == c;
    let d = t.discriminant@;
    match resp {
        HtpResponse::ProofBundle { request_id, primary_path, orthogonal_anchors, epoch } => {
            &&& request_id == header.request_id
            &&& epoch == t.epoch
            &&& !present ==> {
                &&& primary_path@.len() == t.dimensions
                &&& orthogonal_anchors@.len() == 0
                &&& forall|i: int| 0 <= i < primary_path@.len() ==> #[trigger] primary_path@[i]@ == identity_tuple(d)
            }
            &&& present ==> {
                &&& primary_path@.len() == (if t.side_length > 1 { 2int } else { 1int })
                &&& primary_path@[0]@ == get_spec(t.entries(), c, d)
                &&& (t.side_length > 1 ==> primary_path@[1]@ == identity_tuple(d))
                &&& orthogonal_anchors@.len() == t.dimensions - 1
                &&& forall|i: int|
                    0 <= i < orthogonal_anchors@.len() ==> #[trigger] orthogonal_anchors@[i]@ == identity_tuple(d)
            }
        },
        _ => false,
    }
}

/// Answers a root request: the global root, from the cache or folded.
pub fn answer_root(tensor: &mut HyperTensor, header: &RequestHeader, now: u64) -> (r: Result<HtpResponse, HtpError>)
    requires
        old(tensor).wf(),
    ensures
        final(tensor).wf(),
        r matches Ok(resp) ==> response_wf(resp),
        final(tensor).dimensions == old(tensor).dimensions,
        final(tensor).side_length == old(tensor).side_length,
        final(tensor).discriminant == old(tensor).discriminant,
        !header_ok(*header, now) ==> r == Err::<HtpResponse, HtpError>(HtpError::Protocol) && *final(tensor)
            == *old(tensor),
        r is Err ==> *final(tensor) == *old(tensor) || old(tensor).cached_root is None,
        r is Err ==> final(tensor).entries() == old(tensor).entries(),
        header_ok(*header, now) ==> {
                &&& final(tensor).entries() == old(tensor).entries()
                &&& match r {
                    Ok(HtpResponse::GlobalRoot(t)) => root_spec(
                        old(tensor).entries(),
                        old(tensor).dimensions as nat,
                        old(tensor).discriminant@,
                    ) == Ok::<TupleView, HtpError>(t@),
                    Ok(_) => false,
                    Err(e) => root_spec(old(tensor).entries(), old(tensor).dimensions as nat, old(tensor).discriminant@)
                        == Err::<TupleView, HtpError>(e),
                }
        },
{
    validate_header(header, now)?;
    let root = tensor.calculate_global_root()?;
    Ok(HtpResponse::GlobalRoot(root))
}

/// Answers a proof request: after the root, the path and anchors of the
/// identifier's coordinate, or a dummy bundle where it is unoccupied.
#[verifier::rlimit(40)]
pub fn answer_proof(tensor: &mut HyperTensor, header: &RequestHeader, user_id: &String, now: u64) -> (r: Result<
    HtpResponse,
    HtpError,
>)
    requires
        old(tensor).wf(),
    ensures
        final(tensor).wf(),
        r matches Ok(resp) ==> response_wf(resp),
        final(tensor).dimensions == old(tensor).dimensions,
        final(tensor).side_length == old(tensor).side_length,
        final(tensor).discriminant == old(tensor).discriminant,
        !header_ok(*header, now) ==> r == Err::<HtpResponse, HtpError>(HtpError::Protocol) && *final(tensor)
            == *old(tensor),
        r is Err ==> *final(tensor) == *old(tensor) || old(tensor).cached_root is None,
        r is Err ==> final(tensor).entries() == old(tensor).entries(),
        header_ok(*header, now) ==> {
                &&& final(tensor).entries() == old(tensor).entries()
                &&& match r {
                    Ok(resp) => {
                        &&& root_spec(old(tensor).entries(), old(tensor).dimensions as nat, old(tensor).discriminant@) is Ok
                        &&& bundle_ok(*old(tensor), *header, user_id@, resp)
                    },
                    Err(e) => root_spec(old(tensor).entries(), old(tensor).dimensions as nat, old(tensor).discriminant@)
                        == Err::<TupleView, HtpError>(e),
                }
        },
{
    validate_header(header, now)?;
    let root = tensor.calculate_global_root()?;
    answer_proof_with_root(tensor, &root, header, user_id, now)
}

/// The proof bundle for `user_id` given the tensor's global root, read-only:
/// the path and anchors of the identifier's coordinate, or a dummy bundle
/// where it is unoccupied. The root fixes the challenge axis.
pub fn answer_proof_with_root(
    tensor: &HyperTensor,
    root: &AffineTuple,
    header: &RequestHeader,
    user_id: &String,
    now: u64,
) -> (r: Result<HtpResponse, HtpError>)
    requires
        tensor.wf_data(),
        root.wf(),
        root_spec(tensor.entries(), tensor.dimensions as nat, tensor.discriminant@) == Ok::<TupleView, HtpError>(root@),
    ensures
        !header_ok(*header, now) ==> r == Err::<HtpResponse, HtpError>(HtpError::Protocol),
        header_ok(*header, now) ==> (r matches Ok(resp) && bundle_ok(*tensor, *header, user_id@, resp) && response_wf(resp)),
{
    validate_header(header, now)?;
    let coord = tensor.map_id_to_coord_hash(user_id.as_str());
    let axis = challenge_axis(root, user_id.as_str(), tensor.dimensions);
    if !tensor.contains(&coord) {
        let path = dummy_path(&tensor.discriminant, tensor.dimensions);
        return Ok(
            HtpResponse::ProofBundle {
                request_id: header.request_id,
                primary_path: path,
                orthogonal_anchors: Vec::new(),
                epoch: tensor.epoch,
            },
        );
    }
    let path = tensor.get_segment_tree_path(&coord, axis);
    let anchors = tensor.get_orthogonal_anchors(&coord, axis);
    Ok(
        HtpResponse::ProofBundle {
            request_id: header.request_id,
            primary_path: path,
            orthogonal_anchors: anchors,
            epoch: tensor.epoch,
        },
    )
}

/// Answers a registration: the identifier's prime with the generator as
/// shift, inserted, and the epoch advanced.
#[verifier::rlimit(40)]
pub fn answer_register(tensor: &mut HyperTensor, header: &RequestHeader, user_id: &String, now: u64) -> (r: Result<
    HtpResponse,
    HtpError,
>)
    requires
        old(tensor).wf(),
    ensures
        final(tensor).wf(),
        r matches Ok(resp) ==> response_wf(resp),
        final(tensor).dimensions == old(tensor).dimensions,
        final(tensor).side_length == old(tensor).side_length,
        final(tensor).discriminant == old(tensor).discriminant,
        !header_ok(*header, now) ==> r == Err::<HtpResponse, HtpError>(HtpError::Protocol) && *final(tensor)
            == *old(tensor),
        r is Err ==> *final(tensor) == *old(tensor) || old(tensor).cached_root is None,
        r is Err ==> final(tensor).entries() == old(tensor).entries(),
        header_ok(*header, now) ==> {
                let id = encode_utf8(user_id@);
                match r {
                    Ok(resp) => {
                        &&& resp == HtpResponse::RegisterSuccess {
                            request_id: header.request_id,
                            epoch: final(tensor).epoch,
                        }
                        &&& final(tensor).epoch == if old(tensor).epoch < u64::MAX {
                            (old(tensor).epoch + 1) as u64
                        } else {
                            old(tensor).epoch
                        }
                        &&& final(tensor).cached_root is None
                        &&& register_spec(
                            old(tensor).entries(),
                            id,
                            old(tensor).side_length as nat,
                            old(tensor).dimensions as nat,
                            old(tensor).discriminant@,
                        ) == Ok::<Seq<EntryView>, HtpError>(final(tensor).entries())
                    },
                    Err(e) => {
                        &&& *final(tensor) == *old(tensor)
                        &&& register_spec(
                            old(tensor).entries(),
                            id,
                            old(tensor).side_length as nat,
                            old(tensor).dimensions as nat,
                            old(tensor).discriminant@,
                        ) == Err::<Seq<EntryView>, HtpError>(e)
                    },
                }
        },
{
    validate_header(header, now)?;
    let uid = user_id.as_str();
    let p = hash_to_prime(uid, USER_PRIME_BITS)?;
    let q = match ClassGroupElement::generator(&tensor.discriminant) {
        Some(g) => g,
        None => {
            return Err(HtpError::SetupExhausted);
        },
    };
    let tuple = AffineTuple { p_factor: p, q_shift: q };
    proof {
        assert(uid.spec_bytes() == encode_utf8(user_id@));
    }
    tensor.insert(uid, tuple)?;
    tensor.epoch = tensor.epoch.saturating_add(1);
    Ok(HtpResponse::RegisterSuccess { request_id: header.request_id, epoch: tensor.epoch })
}

/// Answers one request against the tensor at time `now`.
///
/// A bad header is a `Protocol` error and changes nothing. A root or a
/// proof asks for the global root first and fails as its fold does. A proof
/// for an unoccupied coordinate is a bundle of `dimensions` identity tuples
/// and no anchors. A registration derives the identifier's prime, pairs it
/// with the generator, inserts it and advances the epoch; any failure on
/// the way leaves the tensor as it was.
pub fn process_request(tensor: &mut HyperTensor, request: &HtpRequest, now: u64) -> (r: Result<
    HtpResponse,
    HtpError,
>)
    requires
        old(tensor).wf(),
    ensures
        final(tensor).wf(),
        r matches Ok(resp) ==> response_wf(resp),
        final(tensor).dimensions == old(tensor).dimensions,
        final(tensor).side_length == old(tensor).side_length,
        final(tensor).discriminant == old(tensor).discriminant,
        !header_ok(header_of(*request), now) ==> r == Err::<HtpResponse, HtpError>(HtpError::Protocol)
            && *final(tensor) == *old(tensor),
        r is Err ==> *final(tensor) == *old(tensor) || old(tensor).cached_root is None,
        r is Err ==> final(tensor).entries() == old(tensor).entries(),
        header_ok(header_of(*request), now) ==> match *request {
            HtpRequest::GetGlobalRoot { .. } => {
                &&& final(tensor).entries() == old(tensor).entries()
                &&& match r {
                    Ok(HtpResponse::GlobalRoot(t)) => root_spec(
                        old(tensor).entries(),
                        old(tensor).dimensions as nat,
                        old(tensor).discriminant@,
                    ) == Ok::<TupleView, HtpError>(t@),
                    Ok(_) => false,
                    Err(e) => root_spec(old(tensor).entries(), old(tensor).dimensions as nat, old(tensor).discriminant@)
                        == Err::<TupleView, HtpError>(e),
                }
            },
            HtpRequest::GetProof { header, user_id } => {
                &&& final(tensor).entries() == old(tensor).entries()
                &&& match r {
                    Ok(resp) => {
                        &&& root_spec(old(tensor).entries(), old(tensor).dimensions as nat, old(tensor).discriminant@) is Ok
                        &&& bundle_ok(*old(tensor), header, user_id@, resp)
                    },
                    Err(e) => root_spec(old(tensor).entries(), old(tensor).dimensions as nat, old(tensor).discriminant@)
                        == Err::<TupleView, HtpError>(e),
                }
            },
            HtpRequest::RegisterUser { header, user_id } => {
                let id = encode_utf8(user_id@);
                match r {
                    Ok(resp) => {
                        &&& resp == HtpResponse::RegisterSuccess {
                            request_id: header.request_id,
                            epoch: final(tensor).epoch,
                        }
                        &&& final(tensor).epoch == if old(tensor).epoch < u64::MAX {
                            (old(tensor).epoch + 1) as u64
                        } else {
                            old(tensor).epoch
                        }
                        &&& final(tensor).cached_root is None
                        &&& register_spec(
                            old(tensor).entries(),
                            id,
                            old(tensor).side_length as nat,
                            old(tensor).dimensions as nat,
                            old(tensor).discriminant@,
                        ) == Ok::<Seq<EntryView>, HtpError>(final(tensor).entries())
                    },
                    Err(e) => {
                        &&& *final(tensor) == *old(tensor)
                        &&& register_spec(
                            old(tensor).entries(),
                            id,
                            old(tensor).side_length as nat,
                            old(tensor).dimensions as nat,
                            old(tensor).discriminant@,
                        ) == Err::<Seq<EntryView>, HtpError>(e)
                    },
                }
            },
        },
{
    match request {
        HtpRequest::GetGlobalRoot { header } => answer_root(tensor, header, now),
        HtpRequest::GetProof { header, user_id } => answer_proof(tensor, header, user_id, now),
        HtpRequest::RegisterUser { header, user_id } => answer_register(tensor, header, user_id, now),
    }
}

/// What goes on the wire for an outcome of `process_request`: the response
/// itself, or an `Error` with the generic message in place of any failure.
pub fn wire_response(outcome: Result<HtpResponse, HtpError>) -> (r: HtpResponse)
    ensures
        match outcome {
            Ok(resp) => r == resp,
            Err(_) => r matches HtpResponse::Error(m) && m@ == generic_error_message(),
        },
{
    match outcome {
        Ok(resp) => resp,
        Err(_) => HtpResponse::Error(sanitize_error(String::new())),
    }
}

} // verus!
