use vstd::prelude::*;

use crate::bytes::{append_bytes, bytes_equal, bytes_to_vec, copy_range, zeros};
use crate::digest::{blake3_hash, hash, hash_matches};
use crate::entropy::{fill_random, shuffle};
use crate::erasure::{
    agrees_with, encodable, erasure_encoded, erasure_reconstructed, present_count, present_have_len,
    reconstructible,
};
use crate::media::{chunks_needed, lemma_chunk_count};
use crate::seqs::{lemma_permutation_map, lemma_pigeonhole};
use crate::wipe::wipe_bytes;

verus! {

broadcast use {vstd::seq_lib::group_seq_properties, vstd::seq::group_seq_axioms};

/// Fewest data shards a policy may use.
pub const MIN_DATA_SHARDS: usize = 2;
/// Fewest parity shards a policy may use.
pub const MIN_PARITY_SHARDS: usize = 1;
/// Most shards in one coded set (the GF(2^8) code's limit, less one).
pub const MAX_TOTAL_SHARDS: usize = 255;
/// Length in bytes of a fragment capability.
pub const CAPABILITY_LEN: usize = 32;

/// A random 256-bit locator for one network-facing fragment. It is not an
/// identity and not an authenticator.
#[derive(Debug, Clone, Copy, PartialEq, Eq, Hash)]
pub struct FragmentCapability([u8; CAPABILITY_LEN]);

impl View for FragmentCapability {
    type V = Seq<u8>;

    closed spec fn view(&self) -> Seq<u8> {
        self.0@
    }
}

impl FragmentCapability {
    /// The capability's bytes.
    pub fn as_bytes(&self) -> (bytes: &[u8; CAPABILITY_LEN])
        ensures
            bytes@ == self@,
    {
        &self.0
    }
}

/// A validated erasure-coding policy: how many data and parity shards one coded
/// set has.
#[derive(Debug, Clone, Copy, PartialEq, Eq)]
pub struct FragmentPolicy {
    data_shards: usize,
    parity_shards: usize,
}

/// The counts that a fragment policy accepts: at least two data shards, at least
/// one parity shard, and at most 255 shards in all.
pub open spec fn valid_policy(data_shards: nat, parity_shards: nat) -> bool {
    &&& data_shards >= MIN_DATA_SHARDS
    &&& parity_shards >= MIN_PARITY_SHARDS
    &&& data_shards + parity_shards <= MAX_TOTAL_SHARDS
}

impl View for FragmentPolicy {
    /// (data shards, parity shards)
    type V = (nat, nat);

    closed spec fn view(&self) -> (nat, nat) {
        (self.data_shards as nat, self.parity_shards as nat)
    }
}

impl FragmentPolicy {
    #[verifier::type_invariant]
    spec fn is_valid(self) -> bool {
        valid_policy(self.data_shards as nat, self.parity_shards as nat)
    }

    /// Builds a policy, rejecting fewer than two data shards, no parity shard, or
    /// more than 255 shards in all.
    pub fn new(data_shards: usize, parity_shards: usize) -> (result: Result<Self, FragmentError>)
        ensures
            match result {
                Ok(policy) => valid_policy(data_shards as nat, parity_shards as nat)
                    && policy@ == (data_shards as nat, parity_shards as nat),
                Err(e) => !valid_policy(data_shards as nat, parity_shards as nat)
                    && e == FragmentError::InvalidPolicy,
            },
    {
        if data_shards < MIN_DATA_SHARDS || parity_shards < MIN_PARITY_SHARDS
            || parity_shards > MAX_TOTAL_SHARDS - data_shards.min(MAX_TOTAL_SHARDS)
            || data_shards > MAX_TOTAL_SHARDS
        {
            return Err(FragmentError::InvalidPolicy);
        }
        Ok(FragmentPolicy { data_shards, parity_shards })
    }

    /// Number of data shards (the number of fragments needed to reconstruct).
    pub fn data_shards(self) -> (count: usize)
        ensures
            count == self@.0,
            valid_policy(self@.0, self@.1),
    {
        proof {
            use_type_invariant(self);
        }
        self.data_shards
    }

    /// Number of parity shards (how many fragments may be lost).
    pub fn parity_shards(self) -> (count: usize)
        ensures
            count == self@.1,
    {
        self.parity_shards
    }

    /// Number of shards in a coded set.
    pub fn total_shards(self) -> (count: usize)
        ensures
            count == self@.0 + self@.1,
    {
        proof {
            use_type_invariant(self);
        }
        self.data_shards + self.parity_shards
    }
}

impl Default for FragmentPolicy {
    /// The default policy: 12 data shards and 8 parity shards, so any 12 of the
    /// 20 fragments reconstruct.
    fn default() -> (policy: Self)
        ensures
            policy@ == (12nat, 8nat),
    {
        FragmentPolicy { data_shards: 12, parity_shards: 8 }
    }
}

/// A network-facing piece: a random capability and opaque shard bytes. It does
/// not carry its coding index.
#[derive(Debug, Clone, PartialEq, Eq)]
pub struct OpaqueFragment {
    capability: FragmentCapability,
    payload: Vec<u8>,
}

impl View for OpaqueFragment {
    /// (capability bytes, payload bytes)
    type V = (Seq<u8>, Seq<u8>);

    closed spec fn view(&self) -> (Seq<u8>, Seq<u8>) {
        (self.capability@, self.payload@)
    }
}

impl OpaqueFragment {
    /// The fragment's capability.
    pub fn capability(&self) -> (capability: &FragmentCapability)
        ensures
            capability@ == self@.0,
    {
        &self.capability
    }

    /// The fragment's shard bytes.
    pub fn payload(&self) -> (payload: &[u8])
        ensures
            payload@ == self@.1,
    {
        self.payload.as_slice()
    }

    /// A fragment with the given capability and shard bytes, as received from
    /// the network.
    pub fn new(capability: FragmentCapability, payload: Vec<u8>) -> (fragment: OpaqueFragment)
        ensures
            fragment@ == (capability@, payload@),
    {
        OpaqueFragment { capability, payload }
    }

    /// A copy of the fragment.
    pub(crate) fn duplicate(&self) -> (copy: OpaqueFragment)
        ensures
            copy@ == self@,
    {
        OpaqueFragment { capability: self.capability, payload: bytes_to_vec(self.payload.as_slice()) }
    }
}

/// The views of a sequence of fragments.
pub open spec fn fragment_views(fragments: Seq<OpaqueFragment>) -> Seq<(Seq<u8>, Seq<u8>)> {
    fragments.map_values(|f: OpaqueFragment| f@)
}

#[derive(Debug, Clone, PartialEq, Eq)]
struct ManifestEntry {
    capability: FragmentCapability,
    shard_index: usize,
}

/// What an endpoint keeps to rebuild a wire object from fragments.
#[derive(Debug, PartialEq, Eq)]
pub struct FragmentManifest {
    original_len: usize,
    shard_len: usize,
    policy: FragmentPolicy,
    ciphertext_digest: [u8; 32],
    entries: Vec<ManifestEntry>,
}

/// The mathematical content of a manifest.
pub ghost struct ManifestModel {
    /// Length of the object that was split.
    pub original_len: nat,
    /// Length of every shard.
    pub shard_len: nat,
    pub data_shards: nat,
    pub parity_shards: nat,
    /// BLAKE3 digest of the object that was split.
    pub digest: Seq<u8>,
    /// `capabilities[i]` locates the shard at coding position `i`.
    pub capabilities: Seq<Seq<u8>>,
}

impl ManifestModel {
    pub open spec fn total_shards(self) -> nat {
        self.data_shards + self.parity_shards
    }

    /// What every manifest satisfies: a valid policy, one distinct 32-byte
    /// capability per coding position, nonempty shards that can hold the
    /// object.
    pub open spec fn well_formed(self) -> bool {
        &&& valid_policy(self.data_shards, self.parity_shards)
        &&& self.capabilities.len() == self.total_shards()
        &&& self.capabilities.no_duplicates()
        &&& forall|i: int| 0 <= i < self.capabilities.len() ==> (#[trigger] self.capabilities[i]).len() == CAPABILITY_LEN
        &&& self.shard_len > 0
        &&& self.original_len <= self.data_shards * self.shard_len
        &&& self.digest.len() == 32
    }

    /// The coding position whose capability is `capability`, if any.
    pub open spec fn position_of(self, capability: Seq<u8>) -> Option<int> {
        if exists|i: int| 0 <= i < self.capabilities.len() && self.capabilities[i] == capability {
            Some(choose|i: int| 0 <= i < self.capabilities.len() && self.capabilities[i] == capability)
        } else {
            None
        }
    }

    /// Places the received fragments at their coding positions, in order,
    /// stopping at the first fragment of the wrong length, with an unknown
    /// capability, or for a position already filled. On success: the partial
    /// shard set and how many positions were filled.
    pub open spec fn place(self, received: Seq<(Seq<u8>, Seq<u8>)>) -> Result<(Seq<Option<Seq<u8>>>, nat), FragmentError>
        decreases received.len(),
    {
        if received.len() == 0 {
            Ok((Seq::new(self.total_shards(), |_i: int| None::<Seq<u8>>), 0nat))
        } else {
            match self.place(received.drop_last()) {
                Err(e) => Err(e),
                Ok((shards, filled)) => {
                    let fragment = received.last();
                    if fragment.1.len() != self.shard_len {
                        Err(FragmentError::InvalidFragmentLength)
                    } else {
                        match self.position_of(fragment.0) {
                            None => Err(FragmentError::UnknownFragment),
                            Some(position) => if shards[position] is Some {
                                Err(FragmentError::DuplicateFragment)
                            } else {
                                Ok((shards.update(position, Some(fragment.1)), filled + 1))
                            },
                        }
                    }
                },
            }
        }
    }

    /// Once placing a prefix of the received fragments fails, placing any longer
    /// prefix fails the same way.
    pub proof fn lemma_place_error_persists(self, received: Seq<(Seq<u8>, Seq<u8>)>, n: int, m: int)
        requires
            0 <= n <= m <= received.len(),
            self.place(received.take(n)) is Err,
        ensures
            self.place(received.take(m)) == self.place(received.take(n)),
        decreases m - n,
    {
        if m > n {
            self.lemma_place_error_persists(received, n, m - 1);
            assert(received.take(m).drop_last() =~= received.take(m - 1));
        }
    }

    /// What `FragmentManifest::reconstruct` returns for `received`: too few
    /// fragments, a placement error, a coding failure, a digest mismatch, or the
    /// data shards of the reconstructed set joined and cut to the original length.
    pub open spec fn reconstruct(self, received: Seq<(Seq<u8>, Seq<u8>)>) -> Result<Seq<u8>, FragmentError> {
        if received.len() < self.data_shards {
            Err(FragmentError::InsufficientFragments)
        } else {
            match self.place(received) {
                Err(e) => Err(e),
                Ok((shards, filled)) => if filled < self.data_shards {
                    Err(FragmentError::InsufficientFragments)
                } else if !reconstructible(self.data_shards, self.parity_shards, shards) {
                    Err(FragmentError::CodingFailure)
                } else {
                    let full = erasure_reconstructed(self.data_shards, self.parity_shards, shards);
                    let joined = full.take(self.data_shards as int).flatten();
                    let object = if self.original_len <= joined.len() {
                        joined.take(self.original_len as int)
                    } else {
                        joined
                    };
                    if self.digest == blake3_hash(object) {
                        Ok(object)
                    } else {
                        Err(FragmentError::DigestMismatch)
                    }
                },
            }
        }
    }
}

/// The bytes of a `Result<Vec<u8>, E>`.
pub open spec fn bytes_result<E>(result: Result<Vec<u8>, E>) -> Result<Seq<u8>, E> {
    match result {
        Ok(bytes) => Ok(bytes@),
        Err(e) => Err(e),
    }
}

impl View for FragmentManifest {
    type V = ManifestModel;

    closed spec fn view(&self) -> ManifestModel {
        ManifestModel {
            original_len: self.original_len as nat,
            shard_len: self.shard_len as nat,
            data_shards: self.policy@.0,
            parity_shards: self.policy@.1,
            digest: self.ciphertext_digest@,
            capabilities: self.entries@.map_values(|e: ManifestEntry| e.capability@),
        }
    }
}

impl Clone for FragmentManifest {
    /// A copy of the manifest.
    fn clone(&self) -> (copy: Self)
        ensures
            copy@ == self@,
    {
        proof {
            use_type_invariant(self);
        }
        FragmentManifest {
            original_len: self.original_len,
            shard_len: self.shard_len,
            policy: self.policy,
            ciphertext_digest: self.ciphertext_digest,
            entries: self.copy_entries(),
        }
    }
}

impl FragmentManifest {
    /// A copy of the entries.
    fn copy_entries(&self) -> (entries: Vec<ManifestEntry>)
        ensures
            entries@ == self.entries@,
    {
        let mut entries: Vec<ManifestEntry> = Vec::with_capacity(self.entries.len());
        let mut i: usize = 0;
        while i < self.entries.len()
            invariant
                i <= self.entries@.len(),
                entries@ == self.entries@.take(i as int),
            decreases self.entries@.len() - i,
        {
            let entry = &self.entries[i];
            entries.push(ManifestEntry { capability: entry.capability, shard_index: entry.shard_index });
            i = i + 1;
            assert(entries@ =~= self.entries@.take(i as int));
        }
        assert(self.entries@.take(i as int) =~= self.entries@);
        entries
    }

    #[verifier::type_invariant]
    spec fn is_well_formed(self) -> bool {
        &&& self@.well_formed()
        &&& forall|i: int| 0 <= i < self.entries@.len() ==> #[trigger] self.entries@[i].shard_index == i
    }

    /// Number of fragments needed to reconstruct (the data shard count).
    pub fn required_fragments(&self) -> (count: usize)
        ensures
            count == self@.data_shards,
    {
        self.policy.data_shards()
    }

    /// Number of fragments the object was split into.
    pub fn total_fragments(&self) -> (count: usize)
        ensures
            count == self@.total_shards(),
    {
        self.policy.total_shards()
    }

    /// Length of every shard.
    pub fn shard_len(&self) -> (len: usize)
        ensures
            len == self@.shard_len,
    {
        self.shard_len
    }

    /// The capability that locates the shard at coding position `position`
    /// (data shards first), if there is such a position.
    pub fn capability_at(&self, position: usize) -> (capability: Option<FragmentCapability>)
        ensures
            match capability {
                Some(c) => position < self@.capabilities.len() && c@ == self@.capabilities[position as int],
                None => position >= self@.capabilities.len(),
            },
    {
        if position < self.entries.len() {
            Some(self.entries[position].capability)
        } else {
            None
        }
    }

    /// The coding position of `capability`, by a scan of the entries.
    fn position_of(&self, capability: &FragmentCapability) -> (position: Option<usize>)
        ensures
            match position {
                Some(i) => self@.position_of(capability@) == Some(i as int),
                None => self@.position_of(capability@) is None,
            },
    {
        proof {
            use_type_invariant(self);
        }
        let ghost caps = self@.capabilities;
        let mut i: usize = 0;
        while i < self.entries.len()
            invariant
                caps == self@.capabilities,
                caps.len() == self.entries@.len(),
                self@.well_formed(),
                forall|k: int| 0 <= k < self.entries@.len() ==> #[trigger] self.entries@[k].shard_index == k,
                i <= self.entries@.len(),
                forall|j: int| 0 <= j < i ==> caps[j] != capability@,
            decreases self.entries@.len() - i,
        {
            if bytes_equal(&self.entries[i].capability.0, &capability.0) {
                assert(caps[i as int] == capability@);
                let ghost chosen = choose|k: int| 0 <= k < caps.len() && caps[k] == capability@;
                assert(caps[chosen] == caps[i as int]);
                assert(chosen == i) by {
                    if chosen != i {
                        assert(!caps.no_duplicates());
                    }
                }
                return Some(self.entries[i].shard_index);
            }
            i = i + 1;
        }
        None
    }

    /// Rebuilds the original object from at least `required_fragments()`
    /// fragments in any order. Fragments of the wrong length, unknown to this
    /// manifest, or repeated are rejected; the erasure code fills the missing
    /// shards, and the joined data shards must match the manifest's BLAKE3
    /// digest before they are returned.
    pub fn reconstruct(&self, received: &[OpaqueFragment]) -> (result: Result<Vec<u8>, FragmentError>)
        ensures
            bytes_result(result) == self@.reconstruct(fragment_views(received@)),
            result matches Ok(object) ==> object@.len() == self@.original_len,
    {
        proof {
            use_type_invariant(self);
        }
        let ghost model = self@;
        let ghost views = fragment_views(received@);
        let data_shards = self.policy.data_shards();
        let parity_shards = self.policy.parity_shards();
        let total = self.policy.total_shards();
        if received.len() < data_shards {
            return Err(FragmentError::InsufficientFragments);
        }
        let mut shards: Vec<Option<Vec<u8>>> = Vec::with_capacity(total);
        let mut k: usize = 0;
        while k < total
            invariant
                k <= total,
                shards@.len() == k,
                forall|i: int| 0 <= i < k ==> shards@[i] is None,
            decreases total - k,
        {
            shards.push(None);
            k = k + 1;
        }
        assert(shards.deep_view() =~= Seq::new(total as nat, |_i: int| None::<Seq<u8>>));
        assert(views.take(0) =~= Seq::<(Seq<u8>, Seq<u8>)>::empty());
        let mut filled: usize = 0;
        let mut j: usize = 0;
        while j < received.len()
            invariant
                model == self@,
                model.well_formed(),
                views == fragment_views(received@),
                views.len() == received@.len(),
                data_shards == model.data_shards,
                total == model.total_shards(),
                j <= received@.len(),
                received@.len() >= data_shards,
                model.place(views.take(j as int)) == Ok::<_, FragmentError>((shards.deep_view(), filled as nat)),
                shards.deep_view().len() == total,
                filled <= j,
                model.shard_len == self.shard_len,
                forall|t: int| 0 <= t < total && #[trigger] shards.deep_view()[t] is Some
                    ==> shards.deep_view()[t]->0.len() == model.shard_len,
            decreases received@.len() - j,
        {
            let fragment = &received[j];
            assert(views[j as int] == fragment@);
            assert(views.take(j as int + 1).drop_last() =~= views.take(j as int));
            assert(views.take(j as int + 1).last() == fragment@);
            if fragment.payload.len() != self.shard_len {
                proof {
                    assert(model.place(views.take(j as int + 1)) == Err::<(Seq<Option<Seq<u8>>>, nat), FragmentError>(FragmentError::InvalidFragmentLength));
                    assert(views.take(views.len() as int) =~= views);
                    model.lemma_place_error_persists(views, j as int + 1, views.len() as int);
                }
                return Err(FragmentError::InvalidFragmentLength);
            }
            let position = match self.position_of(&fragment.capability) {
                Some(i) => i,
                None => {
                    proof {
                        assert(model.place(views.take(j as int + 1)) == Err::<(Seq<Option<Seq<u8>>>, nat), FragmentError>(FragmentError::UnknownFragment));
                        assert(views.take(views.len() as int) =~= views);
                        model.lemma_place_error_persists(views, j as int + 1, views.len() as int);
                    }
                    return Err(FragmentError::UnknownFragment);
                },
            };
            if shards[position].is_some() {
                proof {
                    assert(model.place(views.take(j as int + 1)) == Err::<(Seq<Option<Seq<u8>>>, nat), FragmentError>(FragmentError::DuplicateFragment));
                    assert(views.take(views.len() as int) =~= views);
                    model.lemma_place_error_persists(views, j as int + 1, views.len() as int);
                }
                return Err(FragmentError::DuplicateFragment);
            }
            let ghost before = shards.deep_view();
            shards.set(position, Some(bytes_to_vec(fragment.payload.as_slice())));
            assert(shards.deep_view() =~~= before.update(position as int, Some(fragment@.1)));
            filled = filled + 1;
            j = j + 1;
        }
        assert(views.take(received@.len() as int) =~= views);
        if filled < data_shards {
            return Err(FragmentError::InsufficientFragments);
        }
        let ghost placed = shards.deep_view();
        match crate::erasure::reconstruct(data_shards, parity_shards, &mut shards) {
            Ok(()) => {},
            Err(_) => {
                return Err(FragmentError::CodingFailure);
            },
        }
        let ghost full = erasure_reconstructed(model.data_shards, model.parity_shards, placed);
        assert(full.len() == total && forall|t: int| 0 <= t < total ==> #[trigger] shards.deep_view()[t] == Some(full[t]));
        proof {
            lemma_present_exists(placed);
            let p = choose|p: int| 0 <= p < placed.len() && #[trigger] placed[p] is Some;
            assert(placed[p]->0.len() == model.shard_len);
            assert forall|t: int| 0 <= t < total implies (#[trigger] full[t]).len() == model.shard_len by {
                assert(shards.deep_view()[t] == Some(full[t]));
            }
        }
        let mut joined: Vec<u8> = Vec::new();
        let mut i: usize = 0;
        while i < data_shards
            invariant
                i <= data_shards,
                data_shards == model.data_shards,
                data_shards <= total,
                full.len() == total,
                shards.deep_view().len() == total,
                forall|t: int| 0 <= t < total ==> #[trigger] shards.deep_view()[t] == Some(full[t]),
                forall|t: int| 0 <= t < total ==> (#[trigger] full[t]).len() == model.shard_len,
                joined@ == full.take(i as int).flatten(),
                joined@.len() == i * model.shard_len,
            decreases data_shards - i,
        {
            match &shards[i] {
                Some(bytes) => {
                    assert(shards.deep_view()[i as int] == Some(bytes@));
                    append_bytes(&mut joined, bytes.as_slice());
                    assert((i + 1) * model.shard_len == i * model.shard_len + model.shard_len) by (nonlinear_arith);
                    assert(full.take(i as int + 1) =~= full.take(i as int).push(full[i as int]));
                    proof {
                        full.take(i as int).lemma_flatten_push(full[i as int]);
                    }
                },
                None => {
                    assert(shards.deep_view()[i as int] is None);
                    return Err(FragmentError::CodingFailure);
                },
            }
            i = i + 1;
        }
        assert(joined@.len() >= model.original_len) by (nonlinear_arith)
            requires
                joined@.len() == data_shards * model.shard_len,
                model.original_len <= model.data_shards * model.shard_len,
                data_shards == model.data_shards,
        ;
        joined.truncate(self.original_len);
        if !hash_matches(&self.ciphertext_digest, joined.as_slice()) {
            wipe_bytes(&mut joined);
            return Err(FragmentError::DigestMismatch);
        }
        Ok(joined)
    }
}

/// How many random capabilities are drawn before falling back to a scan of
/// candidates that share 31 fresh random bytes and differ in the first. A
/// collision among 256-bit random values is practically impossible, so the
/// scan only guarantees termination while the result stays unpredictable.
const RANDOM_DRAWS: usize = 64;

/// The capabilities of a list of manifest entries.
spec fn entry_capabilities(entries: Seq<ManifestEntry>) -> Seq<Seq<u8>> {
    entries.map_values(|e: ManifestEntry| e.capability@)
}

/// The `k`-th fallback candidate built on the random `base`: byte 0 is `k`,
/// the others are those of `base`.
spec fn fallback_capability(base: Seq<u8>, k: int) -> Seq<u8> {
    base.update(0, k as u8)
}

/// Whether `candidate` is already the capability of one of `entries`.
fn capability_in_use(entries: &Vec<ManifestEntry>, candidate: &[u8; CAPABILITY_LEN]) -> (in_use: bool)
    ensures
        in_use == entry_capabilities(entries@).contains(candidate@),
{
    let ghost caps = entry_capabilities(entries@);
    let mut i: usize = 0;
    while i < entries.len()
        invariant
            caps == entry_capabilities(entries@),
            i <= entries@.len(),
            forall|j: int| 0 <= j < i ==> caps[j] != candidate@,
        decreases entries@.len() - i,
    {
        if bytes_equal(&entries[i].capability.0, candidate) {
            assert(caps[i as int] == candidate@);
            return true;
        }
        i = i + 1;
    }
    false
}

/// A capability that none of `entries` uses: a random one, or after
/// `RANDOM_DRAWS` collisions the first unused fixed fallback.
fn fresh_capability(entries: &Vec<ManifestEntry>) -> (capability: FragmentCapability)
    requires
        entries@.len() < 256,
    ensures
        !entry_capabilities(entries@).contains(capability@),
{
    let mut attempt: usize = 0;
    while attempt < RANDOM_DRAWS
        invariant
            attempt <= RANDOM_DRAWS,
        decreases RANDOM_DRAWS - attempt,
    {
        let mut bytes = [0u8; CAPABILITY_LEN];
        fill_random(&mut bytes);
        if !capability_in_use(entries, &bytes) {
            return FragmentCapability(bytes);
        }
        attempt = attempt + 1;
    }
    let ghost caps = entry_capabilities(entries@);
    let mut base = [0u8; CAPABILITY_LEN];
    fill_random(&mut base);
    let mut k: usize = 0;
    while k < 256
        invariant
            caps == entry_capabilities(entries@),
            caps.len() < 256,
            base@.len() == CAPABILITY_LEN,
            k <= 256,
            forall|j: int| 0 <= j < k ==> caps.contains(#[trigger] fallback_capability(base@, j)),
        decreases 256 - k,
    {
        let mut bytes = base;
        bytes[0] = k as u8;
        assert(bytes@ =~= fallback_capability(base@, k as int));
        if !capability_in_use(entries, &bytes) {
            return FragmentCapability(bytes);
        }
        k = k + 1;
    }
    proof {
        let candidates = Seq::new(256, |j: int| fallback_capability(base@, j));
        assert forall|a: int, b: int| 0 <= a < b < 256 implies candidates[a] != candidates[b] by {
            assert(candidates[a][0] == a as u8);
            assert(candidates[b][0] == b as u8);
        }
        assert forall|j: int| 0 <= j < candidates.len() implies caps.contains(#[trigger] candidates[j]) by {
            assert(caps.contains(fallback_capability(base@, j)));
        }
        lemma_pigeonhole(candidates, caps);
    }
    FragmentCapability([0u8; CAPABILITY_LEN])
}

/// The shard set handed to the encoder: the padded object cut into `data_shards`
/// shards of `shard_len` bytes, followed by `parity_shards` zero shards.
pub open spec fn shard_input(padded: Seq<u8>, data_shards: nat, parity_shards: nat, shard_len: nat) -> Seq<Seq<u8>> {
    Seq::new(data_shards, |i: int| padded.subrange(i * shard_len, i * shard_len + shard_len))
        + Seq::new(parity_shards, |_i: int| Seq::new(shard_len, |_j: int| 0u8))
}

/// One fragment per coding position: its capability and its coded shard.
pub open spec fn coded_fragments(capabilities: Seq<Seq<u8>>, coded: Seq<Seq<u8>>) -> Seq<(Seq<u8>, Seq<u8>)> {
    Seq::new(capabilities.len(), |i: int| (capabilities[i], coded[i]))
}

/// `manifest` and `fragments` are what splitting `ciphertext` produces when the
/// object is padded to `padded`: the manifest records the length, the BLAKE3
/// digest and one capability per coding position; the shards are the padded
/// object cut into equal data shards followed by the parity shards the encoder
/// computed, and the erasure code fills any accepted partial copy of them back
/// in; and the fragments are the (capability, shard) pairs in some order.
pub open spec fn split_with(
    manifest: ManifestModel,
    fragments: Seq<(Seq<u8>, Seq<u8>)>,
    ciphertext: Seq<u8>,
    padded: Seq<u8>,
) -> bool {
    let input = shard_input(padded, manifest.data_shards, manifest.parity_shards, manifest.shard_len);
    let coded = erasure_encoded(manifest.data_shards, manifest.parity_shards, input);
    &&& manifest.well_formed()
    &&& manifest.original_len == ciphertext.len()
    &&& manifest.digest == blake3_hash(ciphertext)
    &&& manifest.shard_len == chunks_needed(ciphertext.len(), manifest.data_shards)
    &&& padded.len() == manifest.data_shards * manifest.shard_len
    &&& padded.take(ciphertext.len() as int) == ciphertext
    &&& encodable(manifest.data_shards, manifest.parity_shards, input)
    &&& coded.len() == manifest.total_shards()
    &&& coded.take(manifest.data_shards as int) == input.take(manifest.data_shards as int)
    &&& forall|i: int| 0 <= i < coded.len() ==> #[trigger] coded[i].len() == manifest.shard_len
    &&& forall|partial: Seq<Option<Seq<u8>>>|
        reconstructible(manifest.data_shards, manifest.parity_shards, partial) && agrees_with(partial, coded)
        ==> #[trigger] erasure_reconstructed(manifest.data_shards, manifest.parity_shards, partial) == coded
    &&& fragments.to_multiset() == coded_fragments(manifest.capabilities, coded).to_multiset()
}

/// `manifest` and `fragments` are a split of `ciphertext`, for some random
/// alignment padding.
pub open spec fn is_split_of(manifest: ManifestModel, fragments: Seq<(Seq<u8>, Seq<u8>)>, ciphertext: Seq<u8>) -> bool {
    exists|padded: Seq<u8>| split_with(manifest, fragments, ciphertext, padded)
}

/// An encrypted wire object split into opaque fragments, with the endpoint
/// manifest that rebuilds it.
#[derive(Debug, PartialEq, Eq)]
pub struct FragmentBundle {
    manifest: FragmentManifest,
    fragments: Vec<OpaqueFragment>,
}

impl View for FragmentBundle {
    /// (manifest, fragment views)
    type V = (ManifestModel, Seq<(Seq<u8>, Seq<u8>)>);

    closed spec fn view(&self) -> (ManifestModel, Seq<(Seq<u8>, Seq<u8>)>) {
        (self.manifest@, fragment_views(self.fragments@))
    }
}

/// The first `k` of the `len`-byte pieces of `padded`, joined, are the first
/// `k * len` bytes of `padded`.
proof fn lemma_chunks_prefix(padded: Seq<u8>, count: nat, len: nat, k: nat)
    requires
        padded.len() == count * len,
        k <= count,
    ensures
        Seq::new(count, |i: int| padded.subrange(i * len, i * len + len)).take(k as int).flatten()
            == padded.take((k * len) as int),
    decreases k,
{
    let chunks = Seq::new(count, |i: int| padded.subrange(i * len, i * len + len));
    if k == 0 {
        assert(chunks.take(0) =~= Seq::<Seq<u8>>::empty());
        assert(padded.take(0) =~= Seq::<u8>::empty());
    } else {
        let m = (k - 1) as nat;
        lemma_chunks_prefix(padded, count, len, m);
        assert(chunks.take(k as int) =~= chunks.take(m as int).push(chunks[m as int]));
        chunks.take(m as int).lemma_flatten_push(chunks[m as int]);
        assert(k * len == m * len + len) by (nonlinear_arith)
            requires
                k == m + 1,
        ;
        assert(m * len + len <= count * len) by (nonlinear_arith)
            requires
                m < count,
        ;
        assert(padded.take((m * len) as int) + padded.subrange((m * len) as int, (m * len + len) as int)
            =~= padded.take((k * len) as int));
    }
}

/// The object cut into `count` pieces of `len` bytes, joined again, is the object.
proof fn lemma_chunks_flatten(padded: Seq<u8>, count: nat, len: nat)
    requires
        padded.len() == count * len,
    ensures
        Seq::new(count, |i: int| padded.subrange(i * len, i * len + len)).flatten() == padded,
{
    lemma_chunks_prefix(padded, count, len, count);
    let chunks = Seq::new(count, |i: int| padded.subrange(i * len, i * len + len));
    assert(chunks.take(count as int) =~= chunks);
    assert(padded.take((count * len) as int) =~= padded);
}

impl Clone for FragmentBundle {
    /// A copy of the manifest and of every fragment, in the same order.
    fn clone(&self) -> (copy: Self)
        ensures
            copy@ == self@,
    {
        let mut fragments: Vec<OpaqueFragment> = Vec::with_capacity(self.fragments.len());
        let mut i: usize = 0;
        while i < self.fragments.len()
            invariant
                i <= self.fragments@.len(),
                fragments@.len() == i,
                forall|k: int| 0 <= k < i ==> (#[trigger] fragments@[k])@ == self.fragments@[k]@,
            decreases self.fragments@.len() - i,
        {
            fragments.push(self.fragments[i].duplicate());
            i = i + 1;
        }
        assert(fragment_views(fragments@) =~= fragment_views(self.fragments@));
        FragmentBundle { manifest: self.manifest.clone(), fragments }
    }
}

impl FragmentBundle {
    /// Splits an encrypted wire object into `policy.total_shards()` opaque
    /// fragments: the object is padded with random bytes to a whole number of
    /// equal data shards, the erasure code adds the parity shards, each shard
    /// gets a fresh random capability that the manifest maps back to its coding
    /// position, and the fragments are shuffled. An empty object is rejected.
    pub fn split(ciphertext: &[u8], policy: FragmentPolicy) -> (result: Result<Self, FragmentError>)
        requires
            chunks_needed(ciphertext@.len(), policy@.0) * policy@.0 <= usize::MAX,
        ensures
            ciphertext@.len() == 0 ==> result == Err::<Self, FragmentError>(FragmentError::EmptyCiphertext),
            ciphertext@.len() > 0 ==> result is Ok,
            result matches Ok(bundle) ==> {
                &&& is_split_of(bundle@.0, bundle@.1, ciphertext@)
                &&& bundle@.0.data_shards == policy@.0
                &&& bundle@.0.parity_shards == policy@.1
            },
    {
        if ciphertext.len() == 0 {
            return Err(FragmentError::EmptyCiphertext);
        }
        let checked = FragmentPolicy::new(policy.data_shards(), policy.parity_shards());
        if checked.is_err() {
            return Err(FragmentError::InvalidPolicy);
        }
        let data_shards = policy.data_shards();
        let parity_shards = policy.parity_shards();
        let total = policy.total_shards();
        let len = ciphertext.len();
        let shard_len = (len - 1) / data_shards + 1;
        proof {
            lemma_chunk_count(len as nat, data_shards as nat);
        }
        let padded_len = shard_len * data_shards;
        assert(len <= padded_len) by (nonlinear_arith)
            requires
                len <= (1 + (len - 1) / (data_shards as int)) * data_shards,
                shard_len == 1 + (len - 1) / (data_shards as int),
                padded_len == shard_len * data_shards,
        ;

        let mut padded = bytes_to_vec(ciphertext);
        let mut alignment = zeros(padded_len - len);
        if padded_len > len {
            fill_random(alignment.as_mut_slice());
        }
        append_bytes(&mut padded, alignment.as_slice());
        let ghost padded_view = padded@;
        assert(padded_view.take(len as int) =~= ciphertext@);

        let mut shards: Vec<Vec<u8>> = Vec::with_capacity(total);
        let mut i: usize = 0;
        while i < data_shards
            invariant
                i <= data_shards,
                padded@ == padded_view,
                padded_view.len() == padded_len,
                padded_len == shard_len * data_shards,
                shards.deep_view() =~= Seq::new(i as nat, |k: int| padded_view.subrange(k * shard_len, k * shard_len + shard_len)),
            decreases data_shards - i,
        {
            assert(i * shard_len + shard_len <= padded_len) by (nonlinear_arith)
                requires
                    i < data_shards,
                    padded_len == shard_len * data_shards,
            ;
            let start = i * shard_len;
            let ghost before = shards.deep_view();
            let piece = copy_range(padded.as_slice(), start, start + shard_len);
            shards.push(piece);
            assert(shards.deep_view() =~~= before.push(piece@));
            i = i + 1;
        }
        wipe_bytes(&mut padded);
        wipe_bytes(&mut alignment);
        let mut j: usize = 0;
        while j < parity_shards
            invariant
                j <= parity_shards,
                shards.deep_view() =~= Seq::new(data_shards as nat, |k: int| padded_view.subrange(k * shard_len, k * shard_len + shard_len))
                    + Seq::new(j as nat, |_i: int| Seq::new(shard_len as nat, |_j: int| 0u8)),
            decreases parity_shards - j,
        {
            let ghost before = shards.deep_view();
            let piece = zeros(shard_len);
            shards.push(piece);
            assert(shards.deep_view() =~~= before.push(piece@));
            j = j + 1;
        }
        let ghost input = shard_input(padded_view, data_shards as nat, parity_shards as nat, shard_len as nat);
        assert(shards.deep_view() == input);
        assert(encodable(data_shards as nat, parity_shards as nat, input)) by {
            assert(input[0].len() == shard_len);
            assert forall|k: int| 0 <= k < input.len() implies #[trigger] input[k].len() == input[0].len() by {
                if k < data_shards {
                    assert(k * shard_len + shard_len <= padded_len) by (nonlinear_arith)
                        requires
                            0 <= k < data_shards,
                            padded_len == shard_len * data_shards,
                    ;
                }
            }
        }
        match crate::erasure::encode(data_shards, parity_shards, &mut shards) {
            Ok(()) => {},
            Err(_) => {
                return Err(FragmentError::CodingFailure);
            },
        }
        let ghost coded = erasure_encoded(data_shards as nat, parity_shards as nat, input);
        assert(coded.take(data_shards as int) =~= input.take(data_shards as int));

        let mut entries: Vec<ManifestEntry> = Vec::with_capacity(total);
        let mut fragments: Vec<OpaqueFragment> = Vec::with_capacity(total);
        let mut index: usize = 0;
        while index < total
            invariant
                index <= total,
                total <= MAX_TOTAL_SHARDS,
                shards.deep_view() == coded,
                coded.len() == total,
                entries@.len() == index,
                fragments@.len() == index,
                forall|k: int| 0 <= k < index ==> #[trigger] entries@[k].shard_index == k,
                entry_capabilities(entries@).no_duplicates(),
                fragment_views(fragments@) =~= coded_fragments(entry_capabilities(entries@), coded.take(index as int)),
            decreases total - index,
        {
            let capability = fresh_capability(&entries);
            let ghost before = entry_capabilities(entries@);
            entries.push(ManifestEntry { capability, shard_index: index });
            assert(entry_capabilities(entries@) =~= before.push(capability@));
            let payload = bytes_to_vec(shards[index].as_slice());
            assert(shards.deep_view()[index as int] == shards@[index as int]@);
            let ghost views_before = fragment_views(fragments@);
            let fragment = OpaqueFragment { capability, payload };
            fragments.push(fragment);
            assert(fragment_views(fragments@) =~= views_before.push(fragment@));
            index = index + 1;
            assert(coded.take(index as int) =~= coded.take(index as int - 1).push(coded[index as int - 1]));
        }
        assert(coded.take(total as int) =~= coded);
        let ghost ordered = fragments@;
        shuffle(&mut fragments);
        proof {
            lemma_permutation_map(fragments@, ordered, |f: OpaqueFragment| f@);
        }
        let ciphertext_digest = hash(ciphertext);
        proof {
            use_type_invariant(&policy);
            assert(len <= data_shards * shard_len) by (nonlinear_arith)
                requires
                    len <= padded_len,
                    padded_len == shard_len * data_shards,
            ;
        }
        let manifest = FragmentManifest {
            original_len: len,
            shard_len,
            policy,
            ciphertext_digest,
            entries,
        };
        let bundle = FragmentBundle { manifest, fragments };
        assert(padded_view.len() == data_shards * shard_len) by (nonlinear_arith)
            requires
                padded_view.len() == padded_len,
                padded_len == shard_len * data_shards,
        ;
        assert(split_with(bundle@.0, bundle@.1, ciphertext@, padded_view));
        Ok(bundle)
    }

    /// The endpoint manifest.
    pub fn manifest(&self) -> (manifest: &FragmentManifest)
        ensures
            manifest@ == self@.0,
    {
        &self.manifest
    }

    /// The network-facing fragments, in shuffled order.
    pub fn fragments(&self) -> (fragments: &[OpaqueFragment])
        ensures
            fragment_views(fragments@) == self@.1,
    {
        self.fragments.as_slice()
    }

    /// The manifest and the fragments, taken apart.
    pub fn into_parts(self) -> (parts: (FragmentManifest, Vec<OpaqueFragment>))
        ensures
            parts.0@ == self@.0,
            fragment_views(parts.1@) == self@.1,
    {
        (self.manifest, self.fragments)
    }
}

/// `received` is at least `threshold` distinct fragments taken from
/// `fragments`, in any order.
pub open spec fn is_selection(
    fragments: Seq<(Seq<u8>, Seq<u8>)>,
    received: Seq<(Seq<u8>, Seq<u8>)>,
    threshold: nat,
) -> bool {
    &&& received.len() >= threshold
    &&& received.no_duplicates()
    &&& forall|i: int| 0 <= i < received.len() ==> fragments.contains(#[trigger] received[i])
}

/// A shard set that counts a present shard has one at some position.
proof fn lemma_present_exists(shards: Seq<Option<Seq<u8>>>)
    requires
        present_count(shards) > 0,
    ensures
        exists|p: int| 0 <= p < shards.len() && #[trigger] shards[p] is Some,
    decreases shards.len(),
{
    if shards.last() is Some {
        assert(shards[shards.len() - 1] is Some);
    } else {
        lemma_present_exists(shards.drop_last());
        let p = choose|p: int| 0 <= p < shards.drop_last().len() && #[trigger] shards.drop_last()[p] is Some;
        assert(shards[p] is Some);
    }
}

/// A shard set with no shard present counts none.
proof fn lemma_present_count_empty(count: nat)
    ensures
        present_count(Seq::new(count, |_i: int| None::<Seq<u8>>)) == 0,
    decreases count,
{
    if count > 0 {
        lemma_present_count_empty((count - 1) as nat);
        assert(Seq::new(count, |_i: int| None::<Seq<u8>>).drop_last()
            =~= Seq::new((count - 1) as nat, |_i: int| None::<Seq<u8>>));
    }
}

/// Filling an empty position adds one present shard.
proof fn lemma_present_count_fill(shards: Seq<Option<Seq<u8>>>, k: int, shard: Seq<u8>)
    requires
        0 <= k < shards.len(),
        shards[k] is None,
    ensures
        present_count(shards.update(k, Some(shard))) == present_count(shards) + 1,
    decreases shards.len(),
{
    if k == shards.len() - 1 {
        assert(shards.update(k, Some(shard)).drop_last() =~= shards.drop_last());
    } else {
        lemma_present_count_fill(shards.drop_last(), k, shard);
        assert(shards.update(k, Some(shard)).drop_last() =~= shards.drop_last().update(k, Some(shard)));
    }
}

/// Placing the first `n` fragments of a selection of coded fragments succeeds:
/// each lands at its own coding position with its coded shard, and `n`
/// positions are filled.
proof fn lemma_selection_placement(
    manifest: ManifestModel,
    coded: Seq<Seq<u8>>,
    received: Seq<(Seq<u8>, Seq<u8>)>,
    n: nat,
) -> (shards: Seq<Option<Seq<u8>>>)
    requires
        manifest.well_formed(),
        coded.len() == manifest.total_shards(),
        forall|i: int| 0 <= i < coded.len() ==> #[trigger] coded[i].len() == manifest.shard_len,
        n <= received.len(),
        received.no_duplicates(),
        forall|i: int| 0 <= i < received.len()
            ==> coded_fragments(manifest.capabilities, coded).contains(#[trigger] received[i]),
    ensures
        manifest.place(received.take(n as int)) == Ok::<_, FragmentError>((shards, n)),
        shards.len() == manifest.total_shards(),
        present_count(shards) == n,
        forall|k: int| 0 <= k < shards.len() && #[trigger] shards[k] is Some ==> shards[k] == Some(coded[k]),
        forall|k: int| 0 <= k < shards.len() && #[trigger] shards[k] is Some
            ==> exists|j: int| 0 <= j < n && received[j].0 == manifest.capabilities[k],
    decreases n,
{
    let caps = manifest.capabilities;
    let fragments = coded_fragments(caps, coded);
    if n == 0 {
        assert(received.take(0) =~= Seq::<(Seq<u8>, Seq<u8>)>::empty());
        lemma_present_count_empty(manifest.total_shards());
        Seq::new(manifest.total_shards(), |_i: int| None::<Seq<u8>>)
    } else {
        let m = (n - 1) as nat;
        let previous = lemma_selection_placement(manifest, coded, received, m);
        let r = received[m as int];
        assert(fragments.contains(r));
        let k = choose|k: int| 0 <= k < fragments.len() && fragments[k] == r;
        assert(r.0 == caps[k] && r.1 == coded[k]);
        assert(received.take(n as int).drop_last() =~= received.take(m as int));
        assert(received.take(n as int).last() == r);
        let chosen = choose|i: int| 0 <= i < caps.len() && caps[i] == r.0;
        assert(chosen == k) by {
            if chosen != k {
                assert(caps[chosen] == caps[k]);
            }
        }
        assert(manifest.position_of(r.0) == Some(k));
        assert(previous[k] is None) by {
            if previous[k] is Some {
                let j = choose|j: int| 0 <= j < m && received[j].0 == caps[k];
                assert(fragments.contains(received[j]));
                let k2 = choose|k2: int| 0 <= k2 < fragments.len() && fragments[k2] == received[j];
                assert(caps[k2] == caps[k]);
                assert(k2 == k) by {
                    if k2 != k {
                        assert(caps[k2] == caps[k]);
                    }
                }
                assert(received[j] == received[m as int]);
            }
        }
        let shards = previous.update(k, Some(coded[k]));
        lemma_present_count_fill(previous, k, coded[k]);
        assert forall|t: int| 0 <= t < shards.len() && #[trigger] shards[t] is Some
            implies exists|j: int| 0 <= j < n && received[j].0 == manifest.capabilities[t] by {
            if t == k {
                assert(received[m as int].0 == caps[t]);
            } else {
                assert(previous[t] is Some);
                let j = choose|j: int| 0 <= j < m && received[j].0 == caps[t];
                assert(0 <= j < n && received[j].0 == caps[t]);
            }
        }
        shards
    }
}

/// Any `required_fragments()` or more distinct fragments of a split, in any
/// order, rebuild the object that was split: losing up to `parity_shards`
/// fragments loses nothing.
pub proof fn lemma_threshold_fragments_reconstruct(
    manifest: ManifestModel,
    fragments: Seq<(Seq<u8>, Seq<u8>)>,
    ciphertext: Seq<u8>,
    received: Seq<(Seq<u8>, Seq<u8>)>,
)
    requires
        is_split_of(manifest, fragments, ciphertext),
        is_selection(fragments, received, manifest.data_shards),
    ensures
        manifest.reconstruct(received) == Ok::<Seq<u8>, FragmentError>(ciphertext),
{
    let padded = choose|padded: Seq<u8>| split_with(manifest, fragments, ciphertext, padded);
    let d = manifest.data_shards;
    let p = manifest.parity_shards;
    let len = manifest.shard_len;
    let input = shard_input(padded, d, p, len);
    let coded = erasure_encoded(d, p, input);
    let listed = coded_fragments(manifest.capabilities, coded);
    assert forall|i: int| 0 <= i < received.len() implies listed.contains(#[trigger] received[i]) by {
        crate::seqs::lemma_permutation_contains(fragments, listed, received[i]);
    }
    let shards = lemma_selection_placement(manifest, coded, received, received.len());
    assert(received.take(received.len() as int) =~= received);
    assert(present_have_len(shards, len));
    assert(agrees_with(shards, coded));
    assert(reconstructible(d, p, shards));
    assert(erasure_reconstructed(d, p, shards) == coded);
    let chunks = Seq::new(d, |i: int| padded.subrange(i * len, i * len + len));
    assert(input.take(d as int) =~= chunks);
    lemma_chunks_flatten(padded, d, len);
    assert(coded.take(d as int).flatten() == padded);
}

/// Why fragmenting or reconstructing failed.
#[derive(Debug, Clone, Copy, PartialEq, Eq, Structural)]
pub enum FragmentError {
    EmptyCiphertext,
    InvalidPolicy,
    InsufficientFragments,
    UnknownFragment,
    DuplicateFragment,
    InvalidFragmentLength,
    CodingFailure,
    DigestMismatch,
}

/// The human-readable text of a fragmentation error.
pub open spec fn fragment_error_text(error: FragmentError) -> Seq<char> {
    match error {
        FragmentError::EmptyCiphertext => "ciphertext cannot be empty"@,
        FragmentError::InvalidPolicy => "invalid fragment policy"@,
        FragmentError::InsufficientFragments => "not enough fragments to reconstruct"@,
        FragmentError::UnknownFragment => "fragment capability is not in the manifest"@,
        FragmentError::DuplicateFragment => "duplicate fragment"@,
        FragmentError::InvalidFragmentLength => "fragment length does not match manifest"@,
        FragmentError::CodingFailure => "erasure coding failed"@,
        FragmentError::DigestMismatch => "reconstructed ciphertext digest mismatch"@,
    }
}

impl FragmentError {
    /// The error as text.
    pub fn message(&self) -> (text: String)
        ensures
            text@ == fragment_error_text(*self),
    {
        match self {
            FragmentError::EmptyCiphertext => String::from_str("ciphertext cannot be empty"),
            FragmentError::InvalidPolicy => String::from_str("invalid fragment policy"),
            FragmentError::InsufficientFragments => String::from_str("not enough fragments to reconstruct"),
            FragmentError::UnknownFragment => String::from_str("fragment capability is not in the manifest"),
            FragmentError::DuplicateFragment => String::from_str("duplicate fragment"),
            FragmentError::InvalidFragmentLength => String::from_str("fragment length does not match manifest"),
            FragmentError::CodingFailure => String::from_str("erasure coding failed"),
            FragmentError::DigestMismatch => String::from_str("reconstructed ciphertext digest mismatch"),
        }
    }
}

} // verus!
