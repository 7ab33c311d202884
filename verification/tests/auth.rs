//! Signed requests.
use arkel::client::manifest::{etag_from_data, etag_from_hash, sign_manifest, verify_manifest};
use arkel::index::auth::{auth_headers, verify_request, AuthError};

const SECRET: [u8; 32] = [42u8; 32];

fn public() -> [u8; 32] {
    *iroh::SecretKey::from_bytes(&SECRET).public().as_bytes()
}

fn refusal(time: Option<&str>, authorization: Option<&str>) -> AuthError {
    verify_request("PUT", "/b/k", b"body", time, authorization, 1000).unwrap_err()
}

#[test]
fn signed_requests_are_admitted() {
    let (authorization, time) = auth_headers(&SECRET, "PUT", "/b/k", b"body", 1000);
    assert_eq!(time, "1000");
    let payload = format!("PUT /b/k {} 1000", blake3::hash(b"body").to_hex());
    let signature = iroh::SecretKey::from_bytes(&SECRET).sign(payload.as_bytes());
    assert_eq!(
        authorization,
        format!("Arkel {}:{}", hex::encode(public()), hex::encode(signature.to_bytes()))
    );
    for now in [940, 1000, 1060] {
        let caller =
            verify_request("PUT", "/b/k", b"body", Some(&time), Some(&authorization), now);
        assert_eq!(caller, Ok(public()));
    }
}

#[test]
fn clocks_may_differ_by_a_minute() {
    let (authorization, time) = auth_headers(&SECRET, "PUT", "/b/k", b"body", 1000);
    for now in [0, 939, 1061, u64::MAX] {
        let caller =
            verify_request("PUT", "/b/k", b"body", Some(&time), Some(&authorization), now);
        assert_eq!(caller, Err(AuthError::OutsideSkew));
    }
}

#[test]
fn signatures_cover_method_path_body_and_time() {
    let (authorization, time) = auth_headers(&SECRET, "PUT", "/b/k", b"body", 1000);
    let a = Some(authorization.as_str());
    let t = Some(time.as_str());
    let rejected = Err(AuthError::Rejected);
    assert_eq!(verify_request("GET", "/b/k", b"body", t, a, 1000), rejected);
    assert_eq!(verify_request("PUT", "/b/x", b"body", t, a, 1000), rejected);
    assert_eq!(verify_request("PUT", "/b/k", b"bodY", t, a, 1000), rejected);
    assert_eq!(verify_request("PUT", "/b/k", b"body", Some("1001"), a, 1000), rejected);
}

#[test]
fn bare_and_stale_requests_are_refused() {
    let (authorization, time) = auth_headers(&SECRET, "PUT", "/b/k", b"body", 1000);
    let a = Some(authorization.as_str());
    let t = Some(time.as_str());
    let at = |t, a, now| verify_request("PUT", "/b/k", b"body", t, a, now);
    assert_eq!(at(t, a, 1060), Ok(public()));
    assert_eq!(at(t, a, 1061), Err(AuthError::OutsideSkew));
    assert_eq!(at(None, a, 1000), Err(AuthError::MissingTime));
    assert_eq!(at(t, None, 1000), Err(AuthError::MissingAuthorization));
}

#[test]
fn every_refusal_has_its_reason() {
    let key = hex::encode(public());
    let signature = hex::encode([1u8; 64]);
    let with = |credentials: &str| refusal(Some("1000"), Some(&format!("Arkel {}", credentials)));
    assert_eq!(refusal(None, None).message(), "missing x-arkel-time");
    assert_eq!(refusal(Some("soon"), None).message(), "bad x-arkel-time");
    assert_eq!(refusal(Some("-1"), None), AuthError::BadTime);
    assert_eq!(refusal(Some("18446744073709551616"), None), AuthError::BadTime);
    assert_eq!(refusal(Some("1"), None).message(), "x-arkel-time outside skew window");
    assert_eq!(refusal(Some("1000"), None).message(), "missing authorization");
    assert_eq!(refusal(Some("1000"), Some("Basic x:y")).message(), "bad auth scheme");
    assert_eq!(with(&key).message(), "bad auth format");
    assert_eq!(with(&format!("zz:{}", signature)), AuthError::BadPubkey);
    assert_eq!(with(&format!("{}:zz", key)).message(), "bad signature");
    assert_eq!(with(&format!("00:{}", signature)).message(), "bad pubkey len");
    assert_eq!(with(&format!("{}:{}", key, "00")).message(), "bad sig len");
    assert_eq!(with(&format!("{}:{}", key, signature)).message(), "signature verification failed");
    assert_eq!(with(&format!("{}:{}:00", key, signature)), AuthError::BadSignature);
}

#[test]
fn keys_must_be_points_of_the_curve() {
    // About half of all byte strings are no public key.
    let mut bytes = [0u8; 32];
    while iroh::PublicKey::from_bytes(&bytes).is_ok() {
        bytes[0] += 1;
    }
    let authorization = format!("Arkel {}:{}", hex::encode(bytes), hex::encode([1u8; 64]));
    let error = refusal(Some("1000"), Some(&authorization));
    assert_eq!(error, AuthError::BadPubkey);
    assert_eq!(error.message(), "bad pubkey");
}

#[test]
fn manifests_are_signed_by_their_owner() {
    let signature = sign_manifest(b"manifest", &SECRET);
    assert_eq!(signature, iroh::SecretKey::from_bytes(&SECRET).sign(b"manifest").to_bytes());
    assert!(verify_manifest(b"manifest", &signature, &public()));
    assert!(!verify_manifest(b"manifesto", &signature, &public()));
    let other = *iroh::SecretKey::from_bytes(&[7u8; 32]).public().as_bytes();
    assert!(!verify_manifest(b"manifest", &signature, &other));
}

#[test]
fn etags_are_hexadecimal_digests() {
    assert_eq!(
        etag_from_data(b""),
        "af1349b9f5f9a1a6a0404dea36dcc9499bcb25c9adc112b7cc9a93cae41f3262"
    );
    assert_eq!(etag_from_hash(blake3::hash(b"x").as_bytes()), etag_from_data(b"x"));
    let mut hash = [0u8; 32];
    hash[0] = 0xab;
    hash[31] = 0x0c;
    assert_eq!(etag_from_hash(&hash), format!("ab{}0c", "00".repeat(30)));
}
