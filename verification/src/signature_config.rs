//! What a signature says about itself.

use vstd::prelude::*;

verus! {

/// Level of the PAdES profile asked for. Only the basic level shapes the
/// signature that is written; the others are carried for the caller.
#[derive(Debug, Clone, Copy, PartialEq, Eq, PartialOrd, Ord)]
pub enum PadesLevel {
    /// Basic signature.
    BB,
    /// Signature with a time stamp.
    BT,
    /// Signature with long-term validation data.
    BLT,
    /// Signature with an archive time stamp.
    BLTA,
}

/// The texts written into the signature dictionary, and the options of the
/// profile.
///
/// `reason`, `location` and `contact_info` are written between parentheses
/// as they are: the caller keeps them free of `(`, `)` and `\`.
#[derive(Debug, Clone)]
pub struct SignatureConfig {
    pub reason: String,
    pub location: String,
    pub contact_info: String,
    /// Address of a time-stamp authority.
    pub tsa_url: Option<String>,
    pub validate_icp_brasil: bool,
    pub include_ocsp: bool,
    pub include_crl: bool,
    pub pades_level: PadesLevel,
}

impl Default for SignatureConfig {
    fn default() -> (config: Self)
        ensures
            config.reason@ == "Assinatura digital conforme ICP-Brasil"@,
            config.location@ == "Brasil"@,
            config.contact_info@ == Seq::<char>::empty(),
            config.tsa_url matches Some(url) && url@ == "http://timestamp.iti.gov.br/"@,
            config.validate_icp_brasil,
            config.include_ocsp,
            config.include_crl,
            config.pades_level == PadesLevel::BLT,
    {
        SignatureConfig {
            reason: "Assinatura digital conforme ICP-Brasil".to_owned(),
            location: "Brasil".to_owned(),
            contact_info: String::new(),
            tsa_url: Some("http://timestamp.iti.gov.br/".to_owned()),
            validate_icp_brasil: true,
            include_ocsp: true,
            include_crl: true,
            pades_level: PadesLevel::BLT,
        }
    }
}

impl SignatureConfig {
    /// The default configuration with each text replaced by the one given,
    /// where one is given.
    pub fn with_overrides(
        reason: Option<String>,
        location: Option<String>,
        contact_info: Option<String>,
    ) -> (config: Self)
        ensures
            config.reason@ == (match reason {
                Some(r) => r@,
                None => "Assinatura digital conforme ICP-Brasil"@,
            }),
            config.location@ == (match location {
                Some(l) => l@,
                None => "Brasil"@,
            }),
            config.contact_info@ == (match contact_info {
                Some(c) => c@,
                None => Seq::<char>::empty(),
            }),
            config.tsa_url matches Some(url) && url@ == "http://timestamp.iti.gov.br/"@,
            config.validate_icp_brasil,
            config.include_ocsp,
            config.include_crl,
            config.pades_level == PadesLevel::BLT,
    {
        let mut config = SignatureConfig::default();
        if let Some(r) = reason {
            config.reason = r;
        }
        if let Some(l) = location {
            config.location = l;
        }
        if let Some(c) = contact_info {
            config.contact_info = c;
        }
        config
    }
}

} // verus!
