//! What can go wrong while a configuration is built.

use vstd::prelude::*;
use vstd::string::*;

verus! {

/// The reasons for which a build stops.
#[derive(Debug)]
pub enum BuildError {
    /// A node of the seed configuration names no key type.
    KeyTypeMissing,
    /// A node of the seed configuration has a key of this type, which is not supported.
    UnsupportedKeyType(String),
    /// A node of the seed configuration has no key.
    KeyMissing,
    /// A text of the seed configuration is not base64; the decoder's words.
    InvalidBase64(String),
    /// A key of the seed configuration is shorter than 32 bytes.
    KeyTooShort,
    /// The seed configuration has no complete node.
    NoSeedNodes,
    /// None of the seed nodes was accepted by the network.
    NoAcceptedSeeds,
    /// A node has a key of which no identifier can be made; the reason.
    NoKeyId(String),
    /// A node has a key that is no Ed25519 key.
    UnsupportedPublicKey,
    /// A node has no address that can be written down.
    NoUdpAddresses,
    /// The seed configuration has no `dht` object.
    NoDhtObject,
    /// The seed configuration has no `dht.static_nodes` object.
    NoStaticNodesObject,
    /// The crawl was told of something that it had not asked for.
    OutOfTurn,
}

/// What a `BuildError` says.
pub enum ErrorView {
    KeyTypeMissing,
    UnsupportedKeyType(Seq<char>),
    KeyMissing,
    InvalidBase64(Seq<char>),
    KeyTooShort,
    NoSeedNodes,
    NoAcceptedSeeds,
    NoKeyId(Seq<char>),
    UnsupportedPublicKey,
    NoUdpAddresses,
    NoDhtObject,
    NoStaticNodesObject,
    OutOfTurn,
}

impl View for BuildError {
    type V = ErrorView;

    open spec fn view(&self) -> ErrorView {
        match self {
            BuildError::KeyTypeMissing => ErrorView::KeyTypeMissing,
            BuildError::UnsupportedKeyType(kind) => ErrorView::UnsupportedKeyType(kind@),
            BuildError::KeyMissing => ErrorView::KeyMissing,
            BuildError::InvalidBase64(reason) => ErrorView::InvalidBase64(reason@),
            BuildError::KeyTooShort => ErrorView::KeyTooShort,
            BuildError::NoSeedNodes => ErrorView::NoSeedNodes,
            BuildError::NoAcceptedSeeds => ErrorView::NoAcceptedSeeds,
            BuildError::NoKeyId(reason) => ErrorView::NoKeyId(reason@),
            BuildError::UnsupportedPublicKey => ErrorView::UnsupportedPublicKey,
            BuildError::NoUdpAddresses => ErrorView::NoUdpAddresses,
            BuildError::NoDhtObject => ErrorView::NoDhtObject,
            BuildError::NoStaticNodesObject => ErrorView::NoStaticNodesObject,
            BuildError::OutOfTurn => ErrorView::OutOfTurn,
        }
    }
}

impl ErrorView {
    /// The error in words.
    pub open spec fn text(self) -> Seq<char> {
        match self {
            ErrorView::KeyTypeMissing => "DHT node key type is missing"@,
            ErrorView::UnsupportedKeyType(kind) => "unsupported DHT node key type "@ + kind,
            ErrorView::KeyMissing => "DHT node public key is missing"@,
            ErrorView::InvalidBase64(reason) => reason,
            ErrorView::KeyTooShort => "DHT node public key is shorter than 32 bytes"@,
            ErrorView::NoSeedNodes => "seed config has no valid DHT static nodes"@,
            ErrorView::NoAcceptedSeeds =>
                "seed config has no signed DHT nodes accepted by ever-adnl"@,
            ErrorView::NoKeyId(reason) => reason,
            ErrorView::UnsupportedPublicKey => "DHT node has unsupported public key type"@,
            ErrorView::NoUdpAddresses => "DHT node has no serializable UDP addresses"@,
            ErrorView::NoDhtObject => "global config has no dht object"@,
            ErrorView::NoStaticNodesObject => "global config has no dht.static_nodes object"@,
            ErrorView::OutOfTurn => "the crawl did not ask for this"@,
        }
    }
}

impl BuildError {
    /// The error in words.
    pub fn message(&self) -> (r: String)
        ensures
            r@ == self@.text(),
    {
        match self {
            BuildError::KeyTypeMissing => "DHT node key type is missing".to_owned(),
            BuildError::UnsupportedKeyType(kind) => {
                let mut r = "unsupported DHT node key type ".to_owned();
                r.append(kind.as_str());
                r
            },
            BuildError::KeyMissing => "DHT node public key is missing".to_owned(),
            BuildError::InvalidBase64(reason) => reason.clone(),
            BuildError::KeyTooShort => "DHT node public key is shorter than 32 bytes".to_owned(),
            BuildError::NoSeedNodes => "seed config has no valid DHT static nodes".to_owned(),
            BuildError::NoAcceptedSeeds =>
                "seed config has no signed DHT nodes accepted by ever-adnl".to_owned(),
            BuildError::NoKeyId(reason) => reason.clone(),
            BuildError::UnsupportedPublicKey =>
                "DHT node has unsupported public key type".to_owned(),
            BuildError::NoUdpAddresses => "DHT node has no serializable UDP addresses".to_owned(),
            BuildError::NoDhtObject => "global config has no dht object".to_owned(),
            BuildError::NoStaticNodesObject =>
                "global config has no dht.static_nodes object".to_owned(),
            BuildError::OutOfTurn => "the crawl did not ask for this".to_owned(),
        }
    }
}

} // verus!
