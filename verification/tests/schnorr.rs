use zk_proofs::schnorr::{SchnorrKeypair, SchnorrParams, SchnorrProof, GENERATOR, MODULUS};

const P: u64 = 2305843009213693951;
const Q: u64 = P - 1;

#[test]
fn fixed_parameters() {
    let params = SchnorrParams::new();
    assert_eq!(params.p, P);
    assert_eq!(params.g, 2);
    assert_eq!(MODULUS, P);
    assert_eq!(GENERATOR, 2);
}

#[test]
fn mod_pow_zero_exponent_is_one() {
    let params = SchnorrParams::new();
    assert_eq!(params.mod_pow(0, 0), 1);
    assert_eq!(params.mod_pow(params.p, 0), 1);
    assert_eq!(params.mod_pow(5, 0), 1);
    assert_eq!(params.mod_pow(u64::MAX, 0), 1);
}

#[test]
fn mod_pow_known_values() {
    let params = SchnorrParams::new();
    assert_eq!(params.mod_pow(2, 5), 32);
    assert_eq!(params.mod_pow(2, 7), 128);
    assert_eq!(params.mod_pow(2, 22), 4194304);
    assert_eq!(params.mod_pow(7, 1), 7);
    // the base is reduced first, so base == p acts like base 0
    assert_eq!(params.mod_pow(params.p, 3), 0);
    // a large unstructured case, checked against independent computation
    assert_eq!(params.mod_pow(123456789, 987654321), 50357601586279104);
}

#[test]
fn fermat_little_theorem_on_generator() {
    let params = SchnorrParams::new();
    assert_eq!(params.mod_pow(params.g, params.p - 1), 1);
}

#[test]
fn documented_scenario_verifies() {
    let params = SchnorrParams::new();
    let secret_key = 5u64;
    let public_key = params.mod_pow(params.g, secret_key);
    assert_eq!(public_key, 32);

    let blinding_factor = 7u64;
    let commitment = params.mod_pow(params.g, blinding_factor);
    assert_eq!(commitment, 128);

    let challenge = 3u64;
    let response = SchnorrProof::create_response(blinding_factor, challenge, secret_key, params.p);
    assert_eq!(response, 22);

    let proof = SchnorrProof {
        commitment,
        challenge,
        response,
    };
    assert!(proof.verify(&params, public_key));
}

#[test]
fn wrong_public_key_rejected() {
    let params = SchnorrParams::new();
    // the honest transcript for secret key 5 ...
    let proof = SchnorrProof {
        commitment: 128,
        challenge: 3,
        response: 22,
    };
    // ... checked against the public key of secret key 6
    let unrelated_key = params.mod_pow(params.g, 6);
    assert_eq!(unrelated_key, 64);
    assert!(!proof.verify(&params, unrelated_key));
}

#[test]
fn larger_scenario_verifies() {
    let params = SchnorrParams::new();
    let secret_key = 123456789012345679u64;
    let blinding_factor = 987654321098765433u64;
    let challenge = 555555555555555556u64;

    let public_key = params.mod_pow(params.g, secret_key);
    assert_eq!(public_key, 32);
    let commitment = params.mod_pow(params.g, blinding_factor);
    assert_eq!(commitment, 131072);
    let response = SchnorrProof::create_response(blinding_factor, challenge, secret_key, params.p);
    assert_eq!(response, 1081738401718578607);

    let proof = SchnorrProof {
        commitment,
        challenge,
        response,
    };
    assert!(proof.verify(&params, public_key));
}

#[test]
fn generated_keypair_is_well_formed() {
    let params = SchnorrParams::new();
    for _ in 0..8 {
        let keypair = SchnorrKeypair::generate(&params);
        assert!(1 <= keypair.secret_key && keypair.secret_key < params.p - 1);
        assert_eq!(keypair.public_key, params.mod_pow(params.g, keypair.secret_key));
    }
}

#[test]
fn commitment_is_well_formed() {
    let params = SchnorrParams::new();
    for _ in 0..8 {
        let (commitment, blinding_factor) = SchnorrProof::create_commitment(&params);
        assert!(1 <= blinding_factor && blinding_factor < params.p - 1);
        assert_eq!(commitment, params.mod_pow(params.g, blinding_factor));
    }
}

#[test]
fn full_protocol_with_random_keys_verifies() {
    let params = SchnorrParams::new();
    for challenge in [1u64, 3, 12345, Q - 1] {
        let keypair = SchnorrKeypair::generate(&params);
        let (commitment, blinding_factor) = SchnorrProof::create_commitment(&params);
        let response =
            SchnorrProof::create_response(blinding_factor, challenge, keypair.secret_key, params.p);
        assert!(response < params.p - 1);
        let proof = SchnorrProof {
            commitment,
            challenge,
            response,
        };
        assert!(proof.verify(&params, keypair.public_key));
    }
}

#[test]
fn blinding_factor_reuse_recovers_secret() {
    // The documented weakness behind the single-use contract: two
    // sessions that share a blinding factor leak the secret key.
    let params = SchnorrParams::new();
    let secret_key = 5u64;
    let blinding_factor = 7u64;
    let challenge1 = 20u64;
    let challenge2 = 3u64;

    let response1 =
        SchnorrProof::create_response(blinding_factor, challenge1, secret_key, params.p);
    let response2 =
        SchnorrProof::create_response(blinding_factor, challenge2, secret_key, params.p);
    assert_eq!(response1, 107);
    assert_eq!(response2, 22);

    // the modular inverse of challenge1 - challenge2 == 17 modulo p - 1
    let inverse_of_17 = 1763291712928118903u64;
    assert_eq!((17u128 * inverse_of_17 as u128) % Q as u128, 1);

    let response_diff = (response1 as u128 + Q as u128 - response2 as u128) % Q as u128;
    let recovered = (response_diff * inverse_of_17 as u128) % Q as u128;
    assert_eq!(recovered as u64, secret_key);
}
