use vstd::prelude::*;

verus! {

/// The kinds of failure that a single query, or a listener, can run into.
#[derive(PartialEq, Eq, Structural, Debug, Clone, Copy)]
pub enum Error {
    /// Bounds or structure violation in a DNS message.
    MalformedDns,
    /// DNSCrypt decryption failed, or no parameters match the client magic.
    Undecryptable,
    /// The decrypted plaintext does not end in valid padding.
    BadPadding,
    /// A plaintext query that is not a certificate request.
    UnencryptedQuery,
    /// The response cannot fit under the transport's size cap.
    TooLarge,
    /// Network failure to or from the upstream resolver.
    UpstreamIo,
    /// A response from the upstream resolver has an unacceptable length.
    UpstreamSizeInvalid,
    /// Listener or accept failure.
    AcceptIo,
    /// Authenticated decryption failed.
    Crypto,
}

impl Error {
    /// A short human-readable description of the error.
    pub fn message(&self) -> (r: &'static str) {
        match self {
            Error::MalformedDns => "malformed DNS message",
            Error::Undecryptable => "undecryptable query",
            Error::BadPadding => "bad padding",
            Error::UnencryptedQuery => "unencrypted query",
            Error::TooLarge => "response too large",
            Error::UpstreamIo => "upstream I/O error",
            Error::UpstreamSizeInvalid => "unexpected upstream response size",
            Error::AcceptIo => "accept error",
            Error::Crypto => "authentication failure",
        }
    }
}

} // verus!
