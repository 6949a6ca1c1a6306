//! Bookkeeping types for threshold-ECDSA key generation: transcript
//! references, dealings and the quadruple-in-creation state, modeled over
//! plain identifiers.

use vstd::prelude::*;

verus! {

/// A block height.
pub type Height = u64;

/// A node identifier.
pub type NodeId = u64;

/// A transcript identifier.
pub type IDkgTranscriptId = u64;

/// How a transcript hides its value.
#[derive(Clone, Copy, Debug, PartialEq, Eq, Structural)]
pub enum IDkgTranscriptType {
    /// The transcript's value is masked.
    Masked,
    /// The transcript's value is unmasked.
    Unmasked,
}

/// The configuration a transcript is created from.
#[derive(Clone, Copy, Debug, PartialEq, Eq, Structural)]
pub struct IDkgTranscriptParams {
    /// The identifier the created transcript will carry.
    pub transcript_id: IDkgTranscriptId,
}

/// A completed transcript.
#[derive(Clone, Copy, Debug, PartialEq, Eq, Structural)]
pub struct IDkgTranscript {
    /// The transcript's identifier.
    pub transcript_id: IDkgTranscriptId,
    /// How the transcript hides its value.
    pub transcript_type: IDkgTranscriptType,
}

/// The dealing content generated by a dealer.
#[derive(Clone, Debug)]
pub struct IDkgDealing {
    /// Identifier of the transcript this dealing belongs to.
    pub transcript_id: IDkgTranscriptId,
    /// The raw dealing.
    pub internal_dealing_raw: Vec<u8>,
}

/// A value together with a signature over it.
#[derive(Clone, Debug)]
pub struct Signed<C, S> {
    /// The signed content.
    pub content: C,
    /// The signature.
    pub signature: S,
}

/// A basic signature: the signing node and its signature bytes.
#[derive(Clone, Debug)]
pub struct BasicSignature {
    /// The signature bytes.
    pub signature: Vec<u8>,
    /// The node that signed.
    pub signer: NodeId,
}

/// The dealing content a dealer sends, bound to the height of the block
/// that requested the transcript.
#[derive(Clone, Debug)]
pub struct EcdsaDealing {
    /// Height of the finalized block that requested the transcript.
    pub requested_height: Height,
    /// The crypto dealing.
    pub idkg_dealing: IDkgDealing,
}

/// The signed dealing sent by dealers.
pub type EcdsaSignedDealing = Signed<EcdsaDealing, BasicSignature>;

impl EcdsaSignedDealing {
    /// The dealing this signature covers.
    pub fn get(&self) -> (r: &EcdsaDealing)
        ensures
            *r == self.content,
    {
        &self.content
    }
}

/// An attribute of an ECDSA artifact: its kind and the height it refers to.
#[derive(Clone, Copy, Debug, PartialEq, Eq, Structural)]
pub enum EcdsaMessageAttribute {
    /// A signed dealing at the given height.
    EcdsaSignedDealing(Height),
    /// A dealing-support share at the given height.
    EcdsaDealingSupport(Height),
    /// A signature share at the given height.
    EcdsaSigShare(Height),
}

/// A transcript reference known to be unmasked.
#[derive(Clone, Copy, Debug, PartialEq, Eq, Structural)]
pub struct Unmasked<T> {
    value: T,
}

/// An unmasked transcript.
pub type UnmaskedTranscript = Unmasked<IDkgTranscript>;

impl UnmaskedTranscript {
    /// The wrapped transcript.
    pub closed spec fn spec_transcript(self) -> IDkgTranscript {
        self.value
    }

    /// Wrap a transcript that is known to be unmasked.
    pub fn from_transcript(value: IDkgTranscript) -> (r: Self)
        requires
            value.transcript_type == IDkgTranscriptType::Unmasked,
        ensures
            r.spec_transcript() == value,
    {
        Unmasked { value }
    }

    /// The identifier of the wrapped transcript.
    pub fn transcript_id(&self) -> (r: IDkgTranscriptId)
        ensures
            r == self.spec_transcript().transcript_id,
    {
        self.value.transcript_id
    }
}

/// A transcript reference known to be masked.
#[derive(Clone, Copy, Debug, PartialEq, Eq, Structural)]
pub struct Masked<T> {
    value: T,
}

/// A masked transcript.
pub type MaskedTranscript = Masked<IDkgTranscript>;

impl MaskedTranscript {
    /// The wrapped transcript.
    pub closed spec fn spec_transcript(self) -> IDkgTranscript {
        self.value
    }

    /// Wrap a transcript that is known to be masked.
    pub fn from_transcript(value: IDkgTranscript) -> (r: Self)
        requires
            value.transcript_type == IDkgTranscriptType::Masked,
        ensures
            r.spec_transcript() == value,
    {
        Masked { value }
    }

    /// The identifier of the wrapped transcript.
    pub fn transcript_id(&self) -> (r: IDkgTranscriptId)
        ensures
            r == self.spec_transcript().transcript_id,
    {
        self.value.transcript_id
    }
}

/// The failure of casting a transcript to a masked or unmasked reference.
#[derive(Clone, Copy, Debug, PartialEq, Eq, Structural)]
pub struct TranscriptCastError {
    /// The identifier of the transcript that failed to cast.
    pub transcript_id: IDkgTranscriptId,
    /// The type the transcript actually had.
    pub from_type: IDkgTranscriptType,
    /// The type the cast expected.
    pub expected_type: IDkgTranscriptType,
}

/// Marker for request identifiers.
#[derive(Clone, Copy, Debug, PartialEq, Eq, Structural)]
pub struct RequestIdTag;

/// A complaint against a dealing.
#[derive(Clone, Copy, Debug, PartialEq, Eq, Structural)]
pub struct EcdsaComplaint;

/// An opening answering a complaint.
#[derive(Clone, Copy, Debug, PartialEq, Eq, Structural)]
pub struct EcdsaOpening;

/// Identifier of a pre-signature quadruple.
#[derive(Clone, Copy, Debug, PartialEq, Eq, Structural)]
pub struct QuadrupleId(pub usize);

impl QuadrupleId {
    /// The next identifier.
    pub fn increment(self) -> (r: QuadrupleId)
        requires
            self.0 < usize::MAX,
        ensures
            r.0 == self.0 + 1,
    {
        QuadrupleId(self.0 + 1)
    }
}

/// The creation path of an ECDSA key transcript: a random transcript is
/// reshared into the first key, or the current key is reshared into the
/// next one.
#[derive(Clone, Copy, Debug, PartialEq, Eq, Structural)]
pub enum KeyTranscriptCreation {
    /// Configuration to create the initial random transcript.
    RandomTranscriptParams(IDkgTranscriptParams),
    /// Configuration to reshare the random transcript into a key.
    ReshareOfMaskedParams(IDkgTranscriptParams),
    /// Configuration to reshare the current key transcript.
    ReshareOfUnmaskedParams(IDkgTranscriptParams),
    /// The key transcript is created.
    Created(UnmaskedTranscript),
}

/// A pre-signature quadruple while it is being created: two random
/// transcripts, the unmasking of the first, and two products, each present
/// once the corresponding transcript completes.
#[derive(Clone, Copy, Debug, PartialEq, Eq, Structural)]
pub struct QuadrupleInCreation {
    /// Configuration of the kappa transcript.
    pub kappa_config: IDkgTranscriptParams,
    /// The masked kappa transcript, once created.
    pub kappa_masked: Option<MaskedTranscript>,
    /// Configuration of the lambda transcript.
    pub lambda_config: IDkgTranscriptParams,
    /// The masked lambda transcript, once created.
    pub lambda_masked: Option<MaskedTranscript>,
    /// Configuration for unmasking kappa, once both inputs exist.
    pub unmask_kappa_config: Option<IDkgTranscriptParams>,
    /// The unmasked kappa transcript, once created.
    pub kappa_unmasked: Option<UnmaskedTranscript>,
    /// Configuration of the key-times-lambda product.
    pub key_times_lambda_config: Option<IDkgTranscriptParams>,
    /// The key-times-lambda transcript, once created.
    pub key_times_lambda: Option<MaskedTranscript>,
    /// Configuration of the kappa-times-lambda product.
    pub kappa_times_lambda_config: Option<IDkgTranscriptParams>,
    /// The kappa-times-lambda transcript, once created.
    pub kappa_times_lambda: Option<MaskedTranscript>,
}

/// The transcript configurations of a quadruple that still await their
/// results, in a fixed order.
pub open spec fn spec_configs_in_creation(q: QuadrupleInCreation) -> Seq<IDkgTranscriptParams> {
    let s0 = Seq::<IDkgTranscriptParams>::empty();
    let s1 = if q.kappa_masked is None {
        s0.push(q.kappa_config)
    } else {
        s0
    };
    let s2 = if q.lambda_masked is None {
        s1.push(q.lambda_config)
    } else {
        s1
    };
    let s3 = if q.unmask_kappa_config is Some && q.kappa_unmasked is None {
        s2.push(q.unmask_kappa_config->0)
    } else {
        s2
    };
    let s4 = if q.key_times_lambda_config is Some && q.key_times_lambda is None {
        s3.push(q.key_times_lambda_config->0)
    } else {
        s3
    };
    if q.kappa_times_lambda_config is Some && q.kappa_times_lambda is None {
        s4.push(q.kappa_times_lambda_config->0)
    } else {
        s4
    }
}

impl QuadrupleInCreation {
    /// Start a quadruple from the two random-transcript configurations.
    pub fn new(kappa_config: IDkgTranscriptParams, lambda_config: IDkgTranscriptParams) -> (r:
        QuadrupleInCreation)
        ensures
            r == (QuadrupleInCreation {
                kappa_config,
                kappa_masked: None,
                lambda_config,
                lambda_masked: None,
                unmask_kappa_config: None,
                kappa_unmasked: None,
                key_times_lambda_config: None,
                key_times_lambda: None,
                kappa_times_lambda_config: None,
                kappa_times_lambda: None,
            }),
    {
        QuadrupleInCreation {
            kappa_config,
            kappa_masked: None,
            lambda_config,
            lambda_masked: None,
            unmask_kappa_config: None,
            kappa_unmasked: None,
            key_times_lambda_config: None,
            key_times_lambda: None,
            kappa_times_lambda_config: None,
            kappa_times_lambda: None,
        }
    }

    /// The transcript configurations that have no matching results yet.
    pub fn iter_transcript_configs_in_creation(&self) -> (r: Vec<IDkgTranscriptParams>)
        ensures
            r@ == spec_configs_in_creation(*self),
    {
        let mut params: Vec<IDkgTranscriptParams> = Vec::new();
        if self.kappa_masked.is_none() {
            params.push(self.kappa_config);
        }
        if self.lambda_masked.is_none() {
            params.push(self.lambda_config);
        }
        if let Some(config) = self.unmask_kappa_config {
            if self.kappa_unmasked.is_none() {
                params.push(config);
            }
        }
        if let Some(config) = self.key_times_lambda_config {
            if self.key_times_lambda.is_none() {
                params.push(config);
            }
        }
        if let Some(config) = self.kappa_times_lambda_config {
            if self.kappa_times_lambda.is_none() {
                params.push(config);
            }
        }
        proof {
            assert(params@ =~= spec_configs_in_creation(*self));
        }
        params
    }
}

} // verus!
