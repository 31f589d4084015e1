//! Why signing a document can fail.

use vstd::prelude::*;
use vstd::string::*;

verus! {

/// A failure while loading a signer or signing a document. No failure
/// leaves a partial document behind.
#[derive(Debug, Clone)]
pub enum PdfSignError {
    /// A file could not be read or written.
    IoError(String),
    /// The document lacks a catalog or a first page, or the update that was
    /// laid out cannot be described by a byte range of the fixed width.
    InvalidPdf(String),
    /// A value that was to overwrite a placeholder differs from it in
    /// length, or the clock gave no moment that is written as a time stamp
    /// of 14 digits.
    PlaceholderMismatch,
    /// The signature does not fit the slot reserved for it.
    SignatureTooLarge,
    /// The signing backend failed; its message is kept.
    CryptoError(String),
    /// The key or a certificate could not be loaded, or the chain is empty.
    CertificateError(String),
}

/// What a step of signing returns.
pub type Result<T> = core::result::Result<T, PdfSignError>;

impl PdfSignError {
    /// The message of the failure, as text.
    pub open spec fn message_text(&self) -> Seq<char> {
        match self {
            PdfSignError::IoError(detail) => "Erro ao ler arquivo: "@ + detail@,
            PdfSignError::InvalidPdf(detail) => "PDF inválido: "@ + detail@,
            PdfSignError::PlaceholderMismatch => "Placeholder com tamanho diferente do valor"@,
            PdfSignError::SignatureTooLarge => "Assinatura maior que o espaço reservado"@,
            PdfSignError::CryptoError(detail) => "Erro ao assinar: "@ + detail@,
            PdfSignError::CertificateError(detail) => "Certificado inválido ou senha incorreta: "@
                + detail@,
        }
    }

    /// The message of the failure.
    pub fn message(&self) -> (text: String)
        ensures
            text@ == self.message_text(),
    {
        match self {
            PdfSignError::IoError(detail) => "Erro ao ler arquivo: ".to_owned().concat(
                detail.as_str(),
            ),
            PdfSignError::InvalidPdf(detail) => "PDF inválido: ".to_owned().concat(
                detail.as_str(),
            ),
            PdfSignError::PlaceholderMismatch => "Placeholder com tamanho diferente do valor".to_owned(),
            PdfSignError::SignatureTooLarge => "Assinatura maior que o espaço reservado".to_owned(),
            PdfSignError::CryptoError(detail) => "Erro ao assinar: ".to_owned().concat(
                detail.as_str(),
            ),
            PdfSignError::CertificateError(detail) => "Certificado inválido ou senha incorreta: ".to_owned().concat(
                detail.as_str(),
            ),
        }
    }
}

} // verus!
