use htp_core::affine::AffineTuple;
use htp_core::algebra::ClassGroupElement;
use htp_core::bignum::{BigInt, BigNat};
use htp_core::error::HtpError;
use htp_core::param::{validate_seed, SystemParameters};
use htp_core::primes::{hash_to_prime, is_probable_prime};
use htp_core::service::{
    answer_proof_with_root, challenge_axis, process_request, sanitize_error, validate_header, wire_response,
};
use htp_core::tensor::HyperTensor;
use htp_core::wire::{HtpRequest, HtpResponse, RequestHeader};

const SEED: &str = "seed_len_at_least_32_bytes_padding";
const NOW: u64 = 1_700_000_000;

fn header(id: u64) -> RequestHeader {
    RequestHeader { version: 1, timestamp: NOW, request_id: id }
}

fn disc() -> BigInt {
    SystemParameters::from_random_seed(SEED.as_bytes(), 128).unwrap().discriminant
}

fn tensor() -> HyperTensor {
    HyperTensor::new(4, 100, disc()).unwrap()
}

fn signed(x: i64) -> BigInt {
    let m = BigInt::from_u64(x.unsigned_abs());
    if x < 0 {
        m.negate()
    } else {
        m
    }
}

fn register(t: &mut HyperTensor, id: &str) -> Result<HtpResponse, HtpError> {
    process_request(t, &HtpRequest::RegisterUser { header: header(7), user_id: id.to_string() }, NOW)
}

fn root(t: &mut HyperTensor) -> Result<HtpResponse, HtpError> {
    process_request(t, &HtpRequest::GetGlobalRoot { header: header(8) }, NOW)
}

fn prove(t: &mut HyperTensor, id: &str) -> Result<HtpResponse, HtpError> {
    process_request(t, &HtpRequest::GetProof { header: header(9), user_id: id.to_string() }, NOW)
}

#[test]
fn empty_root_is_identity() {
    let mut t = tensor();
    let d = disc();
    match root(&mut t) {
        Ok(HtpResponse::GlobalRoot(r)) => assert_eq!(r, AffineTuple::identity(&d)),
        other => panic!("unexpected {:?}", other),
    }
}

#[test]
fn single_register_then_root() {
    let mut t = tensor();
    match register(&mut t, "Alice_001") {
        Ok(HtpResponse::RegisterSuccess { request_id, epoch }) => {
            assert_eq!(request_id, 7);
            assert_eq!(epoch, 2);
        }
        other => panic!("unexpected {:?}", other),
    }
    let p = hash_to_prime("Alice_001", 64).unwrap();
    match root(&mut t) {
        Ok(HtpResponse::GlobalRoot(r)) => assert_eq!(r.p_factor, p),
        other => panic!("unexpected {:?}", other),
    }
}

#[test]
fn member_proof_carries_prime() {
    let mut t = tensor();
    register(&mut t, "Alice_001").unwrap();
    let p = hash_to_prime("Alice_001", 64).unwrap();
    match prove(&mut t, "Alice_001") {
        Ok(HtpResponse::ProofBundle { request_id, primary_path, orthogonal_anchors, .. }) => {
            assert_eq!(request_id, 9);
            assert_eq!(primary_path[0].p_factor, p);
            assert_eq!(orthogonal_anchors.len(), 3);
        }
        other => panic!("unexpected {:?}", other),
    }
}

#[test]
fn non_member_gets_dummy_proof() {
    let mut t = tensor();
    register(&mut t, "Alice_001").unwrap();
    let d = disc();
    match prove(&mut t, "Eve_999") {
        Ok(HtpResponse::ProofBundle { primary_path, orthogonal_anchors, .. }) => {
            assert_eq!(primary_path.len(), 4);
            assert!(orthogonal_anchors.is_empty());
            for p in primary_path {
                assert_eq!(p, AffineTuple::identity(&d));
            }
        }
        other => panic!("unexpected {:?}", other),
    }
}

#[test]
fn challenge_axis_is_deterministic() {
    let mut a = tensor();
    let mut b = tensor();
    register(&mut a, "Alice_001").unwrap();
    register(&mut b, "Alice_001").unwrap();
    let ra = a.calculate_global_root().unwrap();
    let rb = b.calculate_global_root().unwrap();
    let x = challenge_axis(&ra, "Bob_002", 4);
    let y = challenge_axis(&rb, "Bob_002", 4);
    assert_eq!(x, y);
    assert!(x < 4);
    assert_eq!(challenge_axis(&ra, "Bob_002", 1), 0);
}

#[test]
fn three_users_root_with_and_without_intermediate_root() {
    let mut a = tensor();
    for u in ["u1_user", "u2_user", "u3_user"] {
        register(&mut a, u).unwrap();
    }
    let mut b = tensor();
    register(&mut b, "u1_user").unwrap();
    register(&mut b, "u2_user").unwrap();
    let _ = root(&mut b);
    register(&mut b, "u3_user").unwrap();
    assert_eq!(a.data, b.data);
    assert_eq!(root(&mut a), root(&mut b));
    // squaring a non-principal form fails, so two generator shifts do not fold
    assert_eq!(root(&mut a), Err(HtpError::NonCoprimeForms));
}

#[test]
fn dimension_out_of_range_is_rejected() {
    assert_eq!(HyperTensor::new(0, 100, disc()), Err(HtpError::InvalidParameters));
    assert_eq!(HyperTensor::new(21, 100, disc()), Err(HtpError::InvalidParameters));
    assert!(HyperTensor::new(20, 100, disc()).is_ok());
    assert!(HyperTensor::new(1, 100, disc()).is_ok());
    assert_eq!(HyperTensor::new(4, 100, signed(-4)), Err(HtpError::InvalidParameters));
}

#[test]
fn short_seed_is_rejected() {
    assert_eq!(validate_seed(b"short"), Err(HtpError::InvalidParameters));
    assert_eq!(validate_seed(&[7u8; 31]), Err(HtpError::InvalidParameters));
    assert_eq!(validate_seed(SEED.as_bytes()), Ok(()));
}

#[test]
fn prime_search_exhaustion_is_an_error() {
    // with two bits every candidate is 3, which the sieve rejects
    assert_eq!(hash_to_prime("anyone", 2), Err(HtpError::PrimeSearchExhausted));
}

#[test]
fn hash_to_prime_is_deterministic_and_prime() {
    let p = hash_to_prime("Alice_001", 64).unwrap();
    let q = hash_to_prime("Alice_001", 64).unwrap();
    assert_eq!(p, q);
    assert_eq!(p.bits(), 64);
    assert!(p.is_odd());
    assert!(is_probable_prime(&p, 25));
    assert_ne!(p, hash_to_prime("Bob_002", 64).unwrap());
    assert_ne!(hash_to_prime("ab", 64).unwrap(), hash_to_prime("a", 64).unwrap());
}

#[test]
fn state_bloat_is_reported_and_tensor_unchanged() {
    let d = disc();
    let id = ClassGroupElement::identity(&d);
    let big = AffineTuple { p_factor: BigNat::pow2(40_000), q_shift: id.clone() };
    assert_eq!(big.compose(&big, &d), Err(HtpError::StateBloat));
    let mut t = tensor();
    t.insert("Carol", big.clone()).unwrap();
    let before = t.clone();
    assert_eq!(t.insert("Carol", big), Err(HtpError::StateBloat));
    assert_eq!(t, before);
}

#[test]
fn insert_clears_cache_and_merges() {
    let d = disc();
    let mut t = tensor();
    let id = ClassGroupElement::identity(&d);
    let a = AffineTuple { p_factor: BigNat::from_u64(3), q_shift: id.clone() };
    t.insert("Dave", a.clone()).unwrap();
    t.calculate_global_root().unwrap();
    assert!(t.cached_root.is_some());
    t.insert("Dave", a).unwrap();
    assert!(t.cached_root.is_none());
    assert_eq!(t.data.len(), 1);
    let coord = t.map_id_to_coord_hash("Dave");
    assert_eq!(t.get(&coord).p_factor, BigNat::from_u64(9));
    assert_eq!(t.calculate_global_root().unwrap().p_factor, BigNat::from_u64(9));
}

#[test]
fn bad_headers_are_protocol_errors() {
    let mut t = tensor();
    let stale = RequestHeader { version: 1, timestamp: NOW - 61, request_id: 1 };
    let req = HtpRequest::GetGlobalRoot { header: stale };
    assert_eq!(process_request(&mut t, &req, NOW), Err(HtpError::Protocol));
    let v2 = RequestHeader { version: 2, timestamp: NOW, request_id: 1 };
    assert_eq!(validate_header(&v2, NOW), Err(HtpError::Protocol));
    let edge = RequestHeader { version: 1, timestamp: NOW + 60, request_id: 1 };
    assert_eq!(validate_header(&edge, NOW), Ok(()));
    match wire_response(process_request(&mut t, &req, NOW)) {
        HtpResponse::Error(m) => assert_eq!(m, sanitize_error("detail".to_string())),
        other => panic!("unexpected {:?}", other),
    }
}

#[test]
fn generator_is_reduced_and_non_principal() {
    let d = disc();
    let g = ClassGroupElement::generator(&d).unwrap();
    assert!(BigInt::one().lt(&g.a));
    let lhs = g.b.mul(&g.b).sub(&BigInt::from_u64(4).mul(&g.a).mul(&g.c));
    assert_eq!(lhs, d);
    assert!(!g.a.lt(&BigInt::from_nat(g.b.abs())));
    assert!(!g.c.lt(&g.a));
}

#[test]
fn compose_with_identity_gives_form_back() {
    let d = disc();
    let g = ClassGroupElement::generator(&d).unwrap();
    let e = ClassGroupElement::identity(&d);
    assert_eq!(g.compose(&e, &d).unwrap(), g);
    assert_eq!(e.compose(&g, &d).unwrap(), g);
    assert_eq!(e.square(&d).unwrap(), e);
}

#[test]
fn pow_of_non_principal_form() {
    let d = disc();
    let g = ClassGroupElement::generator(&d).unwrap();
    let e = ClassGroupElement::identity(&d);
    assert_eq!(g.pow(&BigNat::zero(), &d).unwrap(), e);
    assert_eq!(g.pow(&BigNat::from_u64(1), &d).unwrap(), g);
    assert_eq!(g.pow(&BigNat::from_u64(2), &d), Err(HtpError::NonCoprimeForms));
    assert_eq!(e.pow(&BigNat::from_u64(1_000_003), &d).unwrap(), e);
    assert_eq!(g.square(&d), Err(HtpError::NonCoprimeForms));
}

#[test]
fn discriminant_shape() {
    let d = disc();
    assert!(d.is_negative());
    assert_eq!(d.rem_euc(&BigInt::from_u64(4)), BigInt::one());
    assert!(is_probable_prime(&d.abs(), 30));
    assert_eq!(d.abs().bits(), 128);
    let e = SystemParameters::from_random_seed(SEED.as_bytes(), 128).unwrap();
    assert_eq!(e.discriminant, d);
}

#[test]
fn binary_xgcd_gives_bezout() {
    let (g, x, y) = ClassGroupElement::binary_xgcd(&signed(240), &signed(46));
    assert_eq!(g, signed(2));
    assert_eq!(x.mul(&signed(240)).add(&y.mul(&signed(46))), signed(2));
    let (g, x, y) = ClassGroupElement::binary_xgcd(&signed(35), &signed(64));
    assert_eq!(g, signed(1));
    assert_eq!(x.mul(&signed(35)).add(&y.mul(&signed(64))), signed(1));
}

#[test]
fn miller_rabin_small_values() {
    for (n, p) in [(0u64, false), (1, false), (2, true), (3, true), (4, false), (5, true), (91, false), (97, true)] {
        assert_eq!(is_probable_prime(&BigNat::from_u64(n), 25), p, "n = {}", n);
    }
    assert!(is_probable_prime(&BigNat::from_u64(18_446_744_073_709_551_557), 25));
    assert!(!is_probable_prime(&BigNat::from_u64(3_215_031_751), 25));
}

#[test]
fn signed_arithmetic() {
    assert_eq!(signed(-7).div_floor(&signed(2)), signed(-4));
    assert_eq!(signed(-7).rem_euc(&signed(2)), signed(1));
    assert_eq!(signed(-8).div_floor(&signed(2)), signed(-4));
    assert_eq!(signed(7).div_floor(&signed(2)), signed(3));
    assert_eq!(signed(-3).add(&signed(5)), signed(2));
    assert_eq!(signed(3).sub(&signed(5)), signed(-2));
    assert_eq!(signed(-3).mul(&signed(5)), signed(-15));
    assert_eq!(signed(-3).mul(&signed(0)), signed(0));
    assert!(signed(-3).lt(&signed(2)));
    assert!(signed(-3).is_odd());
    assert_eq!(signed(5).sub(&signed(5)), BigInt::zero());
}

#[test]
fn natural_arithmetic_through_the_big_integer_backend() {
    let a = BigNat::from_u64(300);
    assert_eq!(a.bytes, vec![44u8, 1]);
    assert_eq!(a.mul(&BigNat::from_u64(5)), BigNat::from_u64(1500));
    assert_eq!(a.add(&BigNat::from_u64(5)), BigNat::from_u64(305));
    assert_eq!(a.sub(&BigNat::from_u64(300)), BigNat::zero());
    assert_eq!(a.div(&BigNat::from_u64(7)), BigNat::from_u64(42));
    assert_eq!(a.rem(&BigNat::from_u64(7)), BigNat::from_u64(6));
    assert!(BigNat::from_u64(5).lt(&a));
    assert_eq!(BigNat::from_u64(4).modpow(&BigNat::from_u64(13), &BigNat::from_u64(497)), BigNat::from_u64(445));
    assert_eq!(BigNat::pow2(10), BigNat::from_u64(1024));
    assert_eq!(a.bits(), 9);
    assert_eq!(BigNat::from_le_bytes(&vec![1, 0, 0]), BigNat::from_u64(1));
}

#[test]
fn numeric_coordinates() {
    let t = tensor();
    assert_eq!(t.map_id_to_coord(12_345_678), vec![78, 56, 34, 12]);
    assert_eq!(t.map_id_to_coord(0), vec![0, 0, 0, 0]);
}

#[test]
fn hashed_coordinates_follow_blake3() {
    let t = HyperTensor::new(2, 1 << 32, disc()).unwrap();
    let c = t.map_id_to_coord_hash("Alice_001");
    let digest = blake3::hash(b"Alice_001:htp:coord:v2");
    let v = u128::from_le_bytes(digest.as_bytes()[0..16].try_into().unwrap());
    assert_eq!(c, vec![(v % (1u128 << 32)) as usize, ((v >> 32) % (1u128 << 32)) as usize]);
}

#[test]
fn segment_path_and_anchors() {
    let d = disc();
    let mut t = tensor();
    register(&mut t, "Alice_001").unwrap();
    let coord = t.map_id_to_coord_hash("Alice_001");
    let path = t.get_segment_tree_path(&coord, 0);
    assert_eq!(path.len(), 2);
    assert_eq!(path[0].p_factor, hash_to_prime("Alice_001", 64).unwrap());
    assert_eq!(path[1], AffineTuple::identity(&d));
    let anchors = t.get_orthogonal_anchors(&coord, 2);
    assert_eq!(anchors.len(), 3);
    assert!(t.contains(&coord));
    assert_eq!(t.get(&vec![1, 2, 3, 4]), AffineTuple::identity(&d));
}

#[test]
fn affine_compose_is_not_commutative() {
    let d = disc();
    let id = ClassGroupElement::identity(&d);
    let g = ClassGroupElement::generator(&d).unwrap();
    let a = AffineTuple { p_factor: BigNat::from_u64(2), q_shift: id };
    let b = AffineTuple { p_factor: BigNat::from_u64(1), q_shift: g.clone() };
    assert_eq!(a.compose(&b, &d), Ok(AffineTuple { p_factor: BigNat::from_u64(2), q_shift: g }));
    assert_eq!(b.compose(&a, &d), Err(HtpError::NonCoprimeForms));
}

#[test]
fn affine_compose_groups_either_way() {
    let d = disc();
    let id = ClassGroupElement::identity(&d);
    let g = ClassGroupElement::generator(&d).unwrap();
    let a = AffineTuple { p_factor: BigNat::from_u64(3), q_shift: id.clone() };
    let b = AffineTuple { p_factor: BigNat::from_u64(5), q_shift: id };
    let c = AffineTuple { p_factor: BigNat::from_u64(7), q_shift: g };
    let left = a.compose(&b, &d).unwrap().compose(&c, &d).unwrap();
    let right = a.compose(&b.compose(&c, &d).unwrap(), &d).unwrap();
    assert_eq!(left, right);
    assert_eq!(left.p_factor, BigNat::from_u64(105));
}

#[test]
fn wire_response_passes_success_and_hides_failure() {
    let ok = HtpResponse::RegisterSuccess { request_id: 3, epoch: 4 };
    assert_eq!(wire_response(Ok(ok.clone())), ok);
    let generic = sanitize_error(String::new());
    assert_eq!(wire_response(Err(HtpError::NonCoprimeForms)), HtpResponse::Error(generic.clone()));
    assert_eq!(wire_response(Err(HtpError::CapacityReached)), HtpResponse::Error(generic));
}

#[test]
fn one_bit_searches_exhaust() {
    assert_eq!(hash_to_prime("anyone", 1), Err(HtpError::PrimeSearchExhausted));
    assert_eq!(SystemParameters::from_random_seed(SEED.as_bytes(), 1), Err(HtpError::SetupExhausted));
}

#[test]
fn proof_from_a_read_only_tensor_matches_the_full_answer() {
    let d = disc();
    let mut t = tensor();
    register(&mut t, "Alice_001").unwrap();
    let r = t.calculate_global_root().unwrap();
    let h = header(9);
    let direct = answer_proof_with_root(&t, &r, &h, &"Alice_001".to_string(), NOW).unwrap();
    assert_eq!(Ok(direct.clone()), prove(&mut t, "Alice_001"));
    match direct {
        HtpResponse::ProofBundle { primary_path, orthogonal_anchors, epoch, .. } => {
            assert_eq!(primary_path.len(), 2);
            assert_eq!(primary_path[1], AffineTuple::identity(&d));
            assert!(orthogonal_anchors.iter().all(|a| *a == AffineTuple::identity(&d)));
            assert_eq!(epoch, 2);
        }
        other => panic!("unexpected {:?}", other),
    }
}
