use htp_core::affine::AffineTuple;
use htp_core::algebra::ClassGroupElement;
use htp_core::bignum::{BigInt, BigNat};
use htp_core::codec::{
    decode_request, decode_response, decode_snapshot, encode_request, encode_response, encode_snapshot, get_int,
    put_int,
};
use htp_core::param::SystemParameters;
use htp_core::service::process_request;
use htp_core::tensor::HyperTensor;
use htp_core::wire::{HtpRequest, HtpResponse, RequestHeader};

const SEED: &str = "seed_len_at_least_32_bytes_padding";
const NOW: u64 = 1_700_000_000;

fn disc() -> BigInt {
    SystemParameters::from_random_seed(SEED.as_bytes(), 128).unwrap().discriminant
}

fn small(x: i64) -> BigInt {
    let m = BigInt::from_u64(x.unsigned_abs());
    if x < 0 {
        m.negate()
    } else {
        m
    }
}

fn int_bytes(x: i64) -> Vec<u8> {
    let mut out = Vec::new();
    put_int(&mut out, &small(x));
    out[8..].to_vec()
}

#[test]
fn twos_complement_forms() {
    assert_eq!(int_bytes(0), Vec::<u8>::new());
    assert_eq!(int_bytes(1), vec![1]);
    assert_eq!(int_bytes(127), vec![127]);
    assert_eq!(int_bytes(128), vec![128, 0]);
    assert_eq!(int_bytes(-1), vec![255]);
    assert_eq!(int_bytes(-128), vec![128]);
    assert_eq!(int_bytes(-129), vec![127, 255]);
    assert_eq!(int_bytes(-256), vec![0, 255]);
    for x in [0i64, 1, -1, 127, 128, -128, -129, 255, -256, 65_535, -65_536, i64::MAX, i64::MIN + 1] {
        let mut out = Vec::new();
        put_int(&mut out, &small(x));
        out.push(9);
        let (v, q) = get_int(&out, 0).unwrap();
        assert_eq!(v, small(x));
        assert_eq!(q, out.len() - 1);
    }
}

#[test]
fn requests_round_trip() {
    let header = RequestHeader { version: 1, timestamp: NOW, request_id: 42 };
    for r in [
        HtpRequest::GetProof { header, user_id: "Alice_001".to_string() },
        HtpRequest::GetGlobalRoot { header },
        HtpRequest::RegisterUser { header, user_id: "Zoë ünïcode".to_string() },
    ] {
        let mut bytes = encode_request(&r);
        assert_eq!(decode_request(&bytes), Some(r.clone()));
        bytes.extend_from_slice(&[1, 2, 3]);
        assert_eq!(decode_request(&bytes), Some(r));
    }
    assert_eq!(decode_request(&[]), None);
    assert_eq!(decode_request(&[7, 1, 0]), None);
}

#[test]
fn responses_round_trip() {
    let d = disc();
    let g = ClassGroupElement::generator(&d).unwrap();
    let t = AffineTuple { p_factor: BigNat::from_u64(1_000_003), q_shift: g };
    let id = AffineTuple::identity(&d);
    for r in [
        HtpResponse::ProofBundle {
            request_id: 5,
            primary_path: vec![t.clone(), id.clone()],
            orthogonal_anchors: vec![id.clone(), id.clone(), id.clone()],
            epoch: 3,
        },
        HtpResponse::GlobalRoot(t.clone()),
        HtpResponse::RegisterSuccess { request_id: 6, epoch: 7 },
        HtpResponse::Error("An internal server error occurred. Please contact admin.".to_string()),
    ] {
        let bytes = encode_response(&r);
        assert_eq!(decode_response(&bytes), Some(r));
    }
    assert_eq!(decode_response(&[9]), None);
}

#[test]
fn snapshot_round_trip() {
    let mut t = HyperTensor::new(4, 100, disc()).unwrap();
    for (i, u) in ["Alice_001", "Bob_002", "Carol_003"].iter().enumerate() {
        let h = RequestHeader { version: 1, timestamp: NOW, request_id: i as u64 };
        process_request(&mut t, &HtpRequest::RegisterUser { header: h, user_id: u.to_string() }, NOW).unwrap();
    }
    let bytes = encode_snapshot(&t);
    let mut back = decode_snapshot(&bytes).unwrap();
    assert_eq!(back.dimensions, t.dimensions);
    assert_eq!(back.side_length, t.side_length);
    assert_eq!(back.discriminant, t.discriminant);
    assert_eq!(back.data, t.data);
    assert_eq!(back.epoch, t.epoch);
    assert!(back.cached_root.is_none());
    assert_eq!(back.calculate_global_root(), t.calculate_global_root());
    assert_eq!(decode_snapshot(&bytes[..bytes.len() - 1]), None);
    let mut single = HyperTensor::new(2, 10, disc()).unwrap();
    let h = RequestHeader { version: 1, timestamp: NOW, request_id: 1 };
    process_request(&mut single, &HtpRequest::RegisterUser { header: h, user_id: "solo".to_string() }, NOW).unwrap();
    let mut again = decode_snapshot(&encode_snapshot(&single)).unwrap();
    assert_eq!(again.calculate_global_root().unwrap(), single.calculate_global_root().unwrap());
}
