use certificate_contract::CertificateContract;
use certificate_contract::Identity;
use certificate_contract::RegistryError;

// Minting from an issuer that was never authorized fails, and leaves the
// registry unchanged: the next successful mint still gets identifier 0.
#[test]
fn test_unauthorized_issuer() {
    let mut contract = CertificateContract::new();

    let admin = Identity { id: 1 };
    let unauthorized = Identity { id: 2 };
    let developer = Identity { id: 3 };

    contract.initialize(admin, admin).unwrap();

    let result = contract.mint_certificate(
        unauthorized,
        unauthorized,
        developer,
        String::from("TEST"),
        String::from("Test Event"),
        0u64,
    );
    assert_eq!(result, Err(RegistryError::UnauthorizedIssuer));

    assert_eq!(contract.get_certificates(developer).len(), 0);
    contract.authorize_issuer(admin, unauthorized).unwrap();
    let id = contract
        .mint_certificate(
            unauthorized,
            unauthorized,
            developer,
            String::from("TEST"),
            String::from("Test Event"),
            0u64,
        )
        .unwrap();
    assert_eq!(id, 0);
}

#[test]
fn test_initialize_requires_self_attestation() {
    let mut contract = CertificateContract::new();
    let admin = Identity { id: 1 };
    let other = Identity { id: 2 };

    let r = contract.initialize(other, admin);
    assert_eq!(r, Err(RegistryError::Authentication));
}

#[test]
fn test_double_initialize() {
    let mut contract = CertificateContract::new();
    let admin = Identity { id: 1 };

    contract.initialize(admin, admin).unwrap();
    let r = contract.initialize(admin, admin);
    assert_eq!(r, Err(RegistryError::AlreadyInitialized));
}

#[test]
fn test_admin_ops_before_initialize() {
    let mut contract = CertificateContract::new();
    let admin = Identity { id: 1 };
    let issuer = Identity { id: 2 };

    let grant = contract.authorize_issuer(admin, issuer);
    assert_eq!(grant, Err(RegistryError::NotInitialized));

    let revoke = contract.revoke_issuer(admin, issuer);
    assert_eq!(revoke, Err(RegistryError::NotInitialized));
}

#[test]
fn test_admin_ops_need_admin_caller() {
    let mut contract = CertificateContract::new();
    let admin = Identity { id: 1 };
    let intruder = Identity { id: 2 };
    let issuer = Identity { id: 3 };

    contract.initialize(admin, admin).unwrap();

    let grant = contract.authorize_issuer(intruder, issuer);
    assert_eq!(grant, Err(RegistryError::Authentication));

    let revoke = contract.revoke_issuer(intruder, issuer);
    assert_eq!(revoke, Err(RegistryError::Authentication));
}

#[test]
fn test_mint_needs_issuer_caller() {
    let mut contract = CertificateContract::new();
    let admin = Identity { id: 1 };
    let issuer = Identity { id: 2 };
    let developer = Identity { id: 3 };

    contract.initialize(admin, admin).unwrap();
    contract.authorize_issuer(admin, issuer).unwrap();

    let r = contract.mint_certificate(
        admin,
        issuer,
        developer,
        String::from("E"),
        String::from("Event"),
        1u64,
    );
    assert_eq!(r, Err(RegistryError::Authentication));
}

// Granting and revoking are idempotent: a second grant changes nothing,
// and revoking an issuer that is not authorized is not an error.
#[test]
fn test_grant_revoke_idempotent() {
    let mut contract = CertificateContract::new();
    let admin = Identity { id: 1 };
    let issuer = Identity { id: 2 };
    let developer = Identity { id: 3 };

    contract.initialize(admin, admin).unwrap();
    contract.revoke_issuer(admin, issuer).unwrap();

    contract.authorize_issuer(admin, issuer).unwrap();
    contract.authorize_issuer(admin, issuer).unwrap();

    let id = contract
        .mint_certificate(
            issuer,
            issuer,
            developer,
            String::from("E"),
            String::from("Event"),
            1u64,
        )
        .unwrap();
    assert_eq!(id, 0);

    contract.revoke_issuer(admin, issuer).unwrap();
    contract.revoke_issuer(admin, issuer).unwrap();
    let r = contract.mint_certificate(
        issuer,
        issuer,
        developer,
        String::from("E"),
        String::from("Event"),
        2u64,
    );
    assert_eq!(r, Err(RegistryError::UnauthorizedIssuer));
}

#[test]
fn test_get_certificate_unminted() {
    let mut contract = CertificateContract::new();
    let admin = Identity { id: 1 };

    assert!(contract.get_certificate(0).is_none());
    contract.initialize(admin, admin).unwrap();
    assert!(contract.get_certificate(0).is_none());
    assert!(contract.get_certificate(7).is_none());
}

// Verification is exactly membership: true only for the minted
// issuer/event pair, false for a wrong issuer, a wrong event, or a
// subject with no certificates.
#[test]
fn test_verify_membership() {
    let mut contract = CertificateContract::new();
    let admin = Identity { id: 1 };
    let issuer = Identity { id: 2 };
    let other_issuer = Identity { id: 3 };
    let developer = Identity { id: 4 };
    let stranger = Identity { id: 5 };

    contract.initialize(admin, admin).unwrap();
    contract.authorize_issuer(admin, issuer).unwrap();
    contract
        .mint_certificate(
            issuer,
            issuer,
            developer,
            String::from("EVENT_1"),
            String::from("First Event"),
            1u64,
        )
        .unwrap();

    let event = String::from("EVENT_1");
    let wrong_event = String::from("EVENT_2");
    assert!(contract.verify_certificate(developer, issuer, &event));
    assert!(!contract.verify_certificate(developer, other_issuer, &event));
    assert!(!contract.verify_certificate(developer, issuer, &wrong_event));
    assert!(!contract.verify_certificate(stranger, issuer, &event));
}
