use certificate_contract::CertificateContract;
use certificate_contract::Identity;
use certificate_contract::RegistryError;

#[test]
fn test_certificate_lifecycle() {
    let mut contract = CertificateContract::new();

    let admin = Identity { id: 1 };
    let issuer = Identity { id: 2 };
    let developer = Identity { id: 3 };

    contract.initialize(admin, admin).unwrap();
    contract.authorize_issuer(admin, issuer).unwrap();

    let event_id = String::from("RUST_BOOT_2025");
    let event_name = String::from("Rust Bootcamp 2025");
    let date_issued = 1704067200u64;

    let cert_id = contract
        .mint_certificate(
            issuer,
            issuer,
            developer,
            event_id.clone(),
            event_name.clone(),
            date_issued,
        )
        .unwrap();

    assert_eq!(cert_id, 0);

    let certs = contract.get_certificates(developer);
    assert_eq!(certs.len(), 1);
    assert_eq!(certs[0].event_name, event_name);

    let is_valid = contract.verify_certificate(developer, issuer, &event_id);
    assert!(is_valid);
}

#[test]
fn test_multiple_certificates() {
    let mut contract = CertificateContract::new();

    let admin = Identity { id: 1 };
    let issuer1 = Identity { id: 2 };
    let issuer2 = Identity { id: 3 };
    let developer = Identity { id: 4 };

    contract.initialize(admin, admin).unwrap();
    contract.authorize_issuer(admin, issuer1).unwrap();
    contract.authorize_issuer(admin, issuer2).unwrap();

    contract
        .mint_certificate(
            issuer1,
            issuer1,
            developer,
            String::from("EVENT_1"),
            String::from("First Event"),
            1704067200u64,
        )
        .unwrap();

    contract
        .mint_certificate(
            issuer2,
            issuer2,
            developer,
            String::from("EVENT_2"),
            String::from("Second Event"),
            1704153600u64,
        )
        .unwrap();

    let certs = contract.get_certificates(developer);
    assert_eq!(certs.len(), 2);
    assert_eq!(certs[0].issuer, issuer1);
    assert_eq!(certs[0].event_id, "EVENT_1");
    assert_eq!(certs[1].issuer, issuer2);
    assert_eq!(certs[1].event_id, "EVENT_2");
}

#[test]
fn test_revoke_issuer() {
    let mut contract = CertificateContract::new();

    let admin = Identity { id: 1 };
    let issuer = Identity { id: 2 };
    let developer = Identity { id: 3 };

    contract.initialize(admin, admin).unwrap();
    contract.authorize_issuer(admin, issuer).unwrap();

    contract
        .mint_certificate(
            issuer,
            issuer,
            developer,
            String::from("EVENT_1"),
            String::from("First Event"),
            1704067200u64,
        )
        .unwrap();

    contract.revoke_issuer(admin, issuer).unwrap();

    let result = contract.mint_certificate(
        issuer,
        issuer,
        developer,
        String::from("EVENT_2"),
        String::from("Second Event"),
        1704153600u64,
    );

    assert!(result.is_err());
}

// Scenario: mint succeeds under an authorized issuer (id 0), a mint after
// revocation fails, and the certificate minted before the revocation is
// still returned unchanged by an identifier lookup.
#[test]
fn test_revoked_issuer_certificates_remain() {
    let mut contract = CertificateContract::new();

    let admin = Identity { id: 1 };
    let issuer = Identity { id: 2 };
    let developer = Identity { id: 3 };

    contract.initialize(admin, admin).unwrap();
    contract.authorize_issuer(admin, issuer).unwrap();

    let cert_id = contract
        .mint_certificate(
            issuer,
            issuer,
            developer,
            String::from("EVENT_1"),
            String::from("First Event"),
            1704067200u64,
        )
        .unwrap();
    assert_eq!(cert_id, 0);

    contract.revoke_issuer(admin, issuer).unwrap();

    let failed = contract.mint_certificate(
        issuer,
        issuer,
        developer,
        String::from("EVENT_2"),
        String::from("Second Event"),
        1704153600u64,
    );
    assert_eq!(failed, Err(RegistryError::UnauthorizedIssuer));

    let kept = contract.get_certificate(0).unwrap();
    assert_eq!(kept.issuer, issuer);
    assert_eq!(kept.event_id, "EVENT_1");
    assert_eq!(kept.event_name, "First Event");
    assert_eq!(kept.date_issued, 1704067200u64);
}

// Identifiers are handed out consecutively from 0, in call order, across
// issuers and subjects.
#[test]
fn test_identifiers_consecutive() {
    let mut contract = CertificateContract::new();

    let admin = Identity { id: 1 };
    let issuer = Identity { id: 2 };
    let dev_a = Identity { id: 3 };
    let dev_b = Identity { id: 4 };

    contract.initialize(admin, admin).unwrap();
    contract.authorize_issuer(admin, issuer).unwrap();

    for expected in 0u64..5u64 {
        let subject = if expected % 2 == 0 { dev_a } else { dev_b };
        let id = contract
            .mint_certificate(
                issuer,
                issuer,
                subject,
                format!("EVENT_{}", expected),
                String::from("Event"),
                expected,
            )
            .unwrap();
        assert_eq!(id, expected);
    }
}

// Each subject gets back exactly the certificates minted to it, in mint
// order, even when mints to different subjects interleave.
#[test]
fn test_index_per_subject() {
    let mut contract = CertificateContract::new();

    let admin = Identity { id: 1 };
    let issuer = Identity { id: 2 };
    let dev_a = Identity { id: 3 };
    let dev_b = Identity { id: 4 };

    contract.initialize(admin, admin).unwrap();
    contract.authorize_issuer(admin, issuer).unwrap();

    contract
        .mint_certificate(
            issuer,
            issuer,
            dev_a,
            String::from("A1"),
            String::from("First for a"),
            10u64,
        )
        .unwrap();
    contract
        .mint_certificate(
            issuer,
            issuer,
            dev_b,
            String::from("B1"),
            String::from("First for b"),
            20u64,
        )
        .unwrap();
    contract
        .mint_certificate(
            issuer,
            issuer,
            dev_a,
            String::from("A2"),
            String::from("Second for a"),
            30u64,
        )
        .unwrap();

    let certs_a = contract.get_certificates(dev_a);
    assert_eq!(certs_a.len(), 2);
    assert_eq!(certs_a[0].event_id, "A1");
    assert_eq!(certs_a[1].event_id, "A2");

    let certs_b = contract.get_certificates(dev_b);
    assert_eq!(certs_b.len(), 1);
    assert_eq!(certs_b[0].event_id, "B1");

    let none = contract.get_certificates(Identity { id: 99 });
    assert_eq!(none.len(), 0);
}
