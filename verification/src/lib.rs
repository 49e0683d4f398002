//! Core of the Sigil secure-messaging research prototype: symbol composition,
//! opaque symbol streams, layered authenticated encryption with replay
//! protection, erasure-coded opaque fragments, pseudonymous identity and trust,
//! contact visual markers, privacy-network planning, media transfer planning,
//! and the logic of a single-process loopback demonstrator.

mod aead;
mod bytes;
mod digest;
mod entropy;
mod erasure;
mod seqs;
mod text;
mod wipe;
pub mod composer;
pub mod crypto;
pub mod fragmentation;
pub mod identity;
pub mod media;
pub mod network;
pub mod symbol_stream;
pub mod visual;
pub mod wasm_demo;

pub use composer::{ComposerError, EphemeralToken, LayoutSession, SensitiveBuffer, SymbolId};
pub use crypto::{CryptoError, LayeredEnvelope, MessageSecret, ReplayGuard, TransportSecret};
pub use fragmentation::{
    FragmentBundle, FragmentCapability, FragmentError, FragmentManifest, FragmentPolicy, OpaqueFragment,
};
pub use identity::{
    build_identity_bound_application_aad, ContactAlias, ContactRecord, IdentityFingerprint, IdentityPublicKey,
    TrustState,
};
pub use media::{ChunkPlan, MediaKind, MediaNormalization, MediaPlanError, MediaTransferPlan};
pub use network::{
    DeliveryEpoch, DeliveryToken, MessageEpoch, NodeId, NodePool, NodeRole, NodeVisibility, PrivacyMode,
    PrivacyPolicy, RouteError, RoutePlan, RoutingToken, TrafficSizeClass,
};
pub use symbol_stream::{SecureSymbolStream, SymbolMapKey, SymbolStreamError};
pub use visual::{ContactVisualMarker, LocalVisualSecret, VisualEpochId, VisualRenderEpoch};
pub use wasm_demo::{DemoError, DemoReport, DemoSession};
