use pdfsigner::signature_config::{PadesLevel, SignatureConfig};

#[test]
fn test_signature_config_default() {
    let config = SignatureConfig::default();
    assert_eq!(config.pades_level, PadesLevel::BLT);
    assert!(config.validate_icp_brasil);
}

#[test]
fn test_pades_level_comparison() {
    assert!(PadesLevel::BT >= PadesLevel::BB);
    assert!(PadesLevel::BLT >= PadesLevel::BT);
    assert!(PadesLevel::BLTA >= PadesLevel::BLT);
}

#[test]
fn default_configuration() {
    let config = SignatureConfig::default();
    assert_eq!(config.reason, "Assinatura digital conforme ICP-Brasil");
    assert_eq!(config.location, "Brasil");
    assert_eq!(config.contact_info, "");
    assert_eq!(config.tsa_url, Some("http://timestamp.iti.gov.br/".to_string()));
    assert!(config.include_ocsp);
    assert!(config.include_crl);
}

#[test]
fn overrides_replace_the_texts_that_are_given() {
    let config = SignatureConfig::with_overrides(None, None, None);
    assert_eq!(config.reason, "Assinatura digital conforme ICP-Brasil");
    assert_eq!(config.location, "Brasil");
    assert_eq!(config.contact_info, "");
    let config = SignatureConfig::with_overrides(
        Some("Approval".to_string()),
        None,
        Some("alice@example.org".to_string()),
    );
    assert_eq!(config.reason, "Approval");
    assert_eq!(config.location, "Brasil");
    assert_eq!(config.contact_info, "alice@example.org");
    assert_eq!(config.pades_level, PadesLevel::BLT);
    let config = SignatureConfig::with_overrides(None, Some("Lisbon".to_string()), None);
    assert_eq!(config.location, "Lisbon");
}

#[test]
fn levels_are_ordered_as_declared() {
    assert!(PadesLevel::BB < PadesLevel::BT);
    assert!(PadesLevel::BT < PadesLevel::BLT);
    assert!(PadesLevel::BLT < PadesLevel::BLTA);
    assert_eq!(PadesLevel::BLTA.max(PadesLevel::BB), PadesLevel::BLTA);
}
