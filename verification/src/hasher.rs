//! Rotation-invariant canonical perceptual hashing.
//!
//! The perceptual hash of an image and of its three 90-degree-step
//! rotations are four candidate encodings; the canonical hash is the
//! lexicographically smallest of them, so two images differing only by
//! a multiple-of-90-degree rotation always canonicalise to the same
//! encoded value.

use vstd::prelude::*;

use crate::cache::{
    forget_spec, lookup_spec, record_spec, FileMetadata, HashCache, StoreModel,
};
use crate::cluster::{HashedFile, HashedFileV};
use crate::encoding::{decode_hash, decoded_bits, is_valid_encoding, HashBits};
use crate::errors::CoreError;
use crate::order::{
    lemma_lex_le_antisymmetric, lemma_lex_le_reflexive, lemma_lex_le_total,
    lemma_lex_le_transitive, lex_le, str_lt,
};

verus! {

#[verifier::external_type_specification]
#[verifier::external_body]
pub struct ExPerceptualHasher(imghash::perceptual::PerceptualHasher);

#[verifier::external_type_specification]
#[verifier::external_body]
pub struct ExImageHashError(imghash::ImageHashError);

#[verifier::external_type_specification]
#[verifier::external_body]
pub struct ExDynamicImage(image::DynamicImage);

#[verifier::external_type_specification]
#[verifier::external_body]
pub struct ExImageError(image::ImageError);

/// Relies on imghash's `PerceptualHasher::default`: the 8 x 8 hasher
/// with scaling factor 4 that every hash in the store is produced with.
#[verifier::external_body]
pub fn perceptual_hasher_default() -> imghash::perceptual::PerceptualHasher {
    imghash::perceptual::PerceptualHasher::default()
}

/// The encoded perceptual hash a hasher computes for a decoded
/// image, when the computation succeeds. The result — success
/// included — depends on the hasher's geometry and the image's
/// pixels alone.
pub uninterp spec fn phash_enc_of(
    hasher: imghash::perceptual::PerceptualHasher,
    img: image::DynamicImage,
) -> Option<Seq<char>>;

/// The image turned a quarter turn clockwise.
pub uninterp spec fn rot90_of(img: image::DynamicImage) -> image::DynamicImage;

/// The image turned a half turn.
pub uninterp spec fn rot180_of(img: image::DynamicImage) -> image::DynamicImage;

/// The image turned three quarter turns clockwise.
pub uninterp spec fn rot270_of(img: image::DynamicImage) -> image::DynamicImage;

/// Relies on imghash's `ImageHasher::hash_from_img` and
/// `ImageHash::encode`: hashes a decoded image with the given hasher
/// and encodes the bit matrix as a hexadecimal string. Both steps
/// are pure functions of the hasher and the pixels.
#[verifier::external_body]
fn hash_image_encoded(
    hasher: &imghash::perceptual::PerceptualHasher,
    img: &image::DynamicImage,
) -> (r: Result<String, imghash::ImageHashError>)
    ensures
        r is Ok <==> phash_enc_of(*hasher, *img) is Some,
        r is Ok ==> r->Ok_0@ == phash_enc_of(*hasher, *img)->0,
{
    match imghash::ImageHasher::hash_from_img(hasher, img) {
        Ok(h) => h.encode(),
        Err(e) => Err(e),
    }
}

/// Relies on image's `DynamicImage::rotate90`: the image turned a
/// quarter turn clockwise, a pure function of the pixels.
#[verifier::external_body]
fn rotate_quarter(img: &image::DynamicImage) -> (r: image::DynamicImage)
    ensures
        r == rot90_of(*img),
{
    img.rotate90()
}

/// Relies on image's `DynamicImage::rotate180`: a pure function of
/// the pixels.
#[verifier::external_body]
fn rotate_half(img: &image::DynamicImage) -> (r: image::DynamicImage)
    ensures
        r == rot180_of(*img),
{
    img.rotate180()
}

/// Relies on image's `DynamicImage::rotate270`: a pure function of
/// the pixels.
#[verifier::external_body]
fn rotate_three_quarters(img: &image::DynamicImage) -> (r: image::DynamicImage)
    ensures
        r == rot270_of(*img),
{
    img.rotate270()
}

/// Relies on image's `open`: reads and decodes the image file at
/// `path`, failing on unreadable files and unsupported formats.
#[verifier::external_body]
fn open_image_file(path: &String) -> Result<image::DynamicImage, image::ImageError> {
    image::open(path)
}

/// The lexicographically smallest of a list of candidate encodings.
pub open spec fn lex_min(cands: Seq<Seq<char>>) -> Seq<char>
    recommends
        cands.len() > 0,
    decreases cands.len(),
{
    if cands.len() <= 1 {
        cands[0]
    } else {
        let rest = lex_min(cands.drop_last());
        if lex_le(rest, cands.last()) {
            rest
        } else {
            cands.last()
        }
    }
}

/// The minimum is a member of the list and below every member.
pub proof fn lemma_lex_min_characterisation(cands: Seq<Seq<char>>)
    requires
        cands.len() > 0,
    ensures
        cands.contains(lex_min(cands)),
        forall|i: int| 0 <= i < cands.len() ==> lex_le(lex_min(cands), #[trigger] cands[i]),
    decreases cands.len(),
{
    if cands.len() == 1 {
        lemma_lex_le_reflexive(cands[0]);
        assert(cands.contains(cands[0]));
    } else {
        let pre = cands.drop_last();
        lemma_lex_min_characterisation(pre);
        lemma_lex_le_total(lex_min(pre), cands.last());
        lemma_lex_le_reflexive(cands.last());
        let m = lex_min(cands);
        assert forall|i: int| 0 <= i < cands.len() implies lex_le(m, #[trigger] cands[i]) by {
            if i < pre.len() {
                assert(pre[i] == cands[i]);
                if !lex_le(lex_min(pre), cands.last()) {
                    lemma_lex_le_total(lex_min(pre), cands.last());
                    lemma_lex_le_transitive(cands.last(), lex_min(pre), cands[i]);
                }
            }
        }
        if lex_le(lex_min(pre), cands.last()) {
            let j = choose|j: int| 0 <= j < pre.len() && pre[j] == m;
            assert(cands[j] == m);
            assert(cands.contains(m));
        } else {
            assert(cands[cands.len() - 1] == m);
            assert(cands.contains(m));
        }
    }
}

/// Two candidate lists with the same members have the same minimum.
pub proof fn lemma_lex_min_permutation(a: Seq<Seq<char>>, b: Seq<Seq<char>>)
    requires
        a.len() > 0,
        b.len() > 0,
        forall|i: int| 0 <= i < a.len() ==> b.contains(#[trigger] a[i]),
        forall|i: int| 0 <= i < b.len() ==> a.contains(#[trigger] b[i]),
    ensures
        lex_min(a) == lex_min(b),
{
    lemma_lex_min_characterisation(a);
    lemma_lex_min_characterisation(b);
    let ma = lex_min(a);
    let mb = lex_min(b);
    let ia = choose|i: int| 0 <= i < a.len() && a[i] == ma;
    assert(b.contains(ma));
    let ib = choose|i: int| 0 <= i < b.len() && b[i] == ma;
    assert(lex_le(mb, ma));
    let jb = choose|i: int| 0 <= i < b.len() && b[i] == mb;
    assert(a.contains(mb));
    let ja = choose|i: int| 0 <= i < a.len() && a[i] == mb;
    assert(lex_le(ma, mb));
    lemma_lex_le_antisymmetric(ma, mb);
}

/// Rotation invariance of canonicalisation: advancing every candidate
/// by one quarter turn cyclically permutes the candidate list, and the
/// chosen minimum is unchanged. Together with the geometric fact that
/// the four rotations of a turned image are the four rotations of the
/// original, this makes the canonical hash of an image equal to that
/// of any of its 90-degree-step rotations.
pub proof fn lemma_canonical_rotation_invariant(
    c0: Seq<char>,
    c1: Seq<char>,
    c2: Seq<char>,
    c3: Seq<char>,
)
    ensures
        lex_min(seq![c0, c1, c2, c3]) == lex_min(seq![c1, c2, c3, c0]),
{
    let a = seq![c0, c1, c2, c3];
    let b = seq![c1, c2, c3, c0];
    assert(a.contains(c0) && a.contains(c1) && a.contains(c2) && a.contains(c3)) by {
        assert(a[0] == c0 && a[1] == c1 && a[2] == c2 && a[3] == c3);
    }
    assert(b.contains(c0) && b.contains(c1) && b.contains(c2) && b.contains(c3)) by {
        assert(b[3] == c0 && b[0] == c1 && b[1] == c2 && b[2] == c3);
    }
    lemma_lex_min_permutation(a, b);
}

/// Selects the lexicographically smallest candidate encoding.
///
/// Returns `None` exactly on an empty candidate list.
pub fn canonical_min(cands: &Vec<String>) -> (r: Option<String>)
    ensures
        r is Some <==> cands@.len() > 0,
        r is Some ==> r->0@ == lex_min(cands.deep_view()),
{
    if cands.len() == 0 {
        return None;
    }
    let mut best: String = cands[0].clone();
    let mut i: usize = 1;
    while i < cands.len()
        invariant
            1 <= i <= cands@.len(),
            best@ == lex_min(cands.deep_view().subrange(0, i as int)),
        decreases cands@.len() - i,
    {
        let ghost pre = cands.deep_view().subrange(0, i as int);
        let ghost cur = cands.deep_view().subrange(0, i as int + 1);
        let ghost x = cands@[i as int]@;
        proof {
            assert(cur.drop_last() =~= pre);
            assert(cands.deep_view()[i as int] == x);
            assert(cur.last() == x);
        }
        if str_lt(cands[i].as_str(), best.as_str()) {
            proof {
                if lex_le(best@, x) {
                    lemma_lex_le_antisymmetric(best@, x);
                }
                assert(lex_min(cur) == x);
            }
            best = cands[i].clone();
        } else {
            proof {
                if x == best@ {
                    lemma_lex_le_reflexive(best@);
                } else {
                    lemma_lex_le_total(best@, x);
                }
                assert(lex_le(best@, x));
                assert(lex_min(cur) == best@);
            }
        }
        i = i + 1;
    }
    proof {
        assert(cands.deep_view().subrange(0, cands.deep_view().len() as int) =~= cands.deep_view());
    }
    Some(best)
}

/// The four candidate encodings of an image: its own perceptual
/// hash and the hashes of its three quarter-turn rotations.
pub open spec fn rotation_candidates(
    hasher: imghash::perceptual::PerceptualHasher,
    img: image::DynamicImage,
) -> Seq<Option<Seq<char>>> {
    seq![
        phash_enc_of(hasher, img),
        phash_enc_of(hasher, rot90_of(img)),
        phash_enc_of(hasher, rot180_of(img)),
        phash_enc_of(hasher, rot270_of(img)),
    ]
}

/// Whether every candidate was produced.
pub open spec fn all_candidates_present(cs: Seq<Option<Seq<char>>>) -> bool {
    forall|i: int| 0 <= i < cs.len() ==> (#[trigger] cs[i]) is Some
}

/// The produced candidate encodings.
pub open spec fn candidate_values(cs: Seq<Option<Seq<char>>>) -> Seq<Seq<char>> {
    cs.map_values(|c: Option<Seq<char>>| c->0)
}

/// Produces the rotation-invariant canonical hash of a decoded image:
/// the lexicographically smallest of the encoded perceptual hashes of
/// the image and of its three quarter-turn rotations.
///
/// Fails with `HashGenerationFailed` exactly when the underlying
/// primitive fails to produce one of the four candidates (a
/// degenerate image).
pub fn generate_rotation_invariant_hash_safe(
    hasher: &imghash::perceptual::PerceptualHasher,
    img: &image::DynamicImage,
) -> (r: Result<String, CoreError>)
    ensures
        r is Err ==> r->Err_0 is HashGenerationFailed,
        r is Ok <==> all_candidates_present(rotation_candidates(*hasher, *img)),
        r is Ok ==> r->Ok_0@ == lex_min(candidate_values(rotation_candidates(*hasher, *img))),
{
    let ghost cs = rotation_candidates(*hasher, *img);
    let mut cands: Vec<String> = Vec::new();
    match hash_image_encoded(hasher, img) {
        Ok(s) => cands.push(s),
        Err(_) => {
            proof {
                assert(cs[0] is None);
            }
            return Err(CoreError::HashGenerationFailed);
        },
    }
    let quarter = rotate_quarter(img);
    match hash_image_encoded(hasher, &quarter) {
        Ok(s) => cands.push(s),
        Err(_) => {
            proof {
                assert(cs[1] is None);
            }
            return Err(CoreError::HashGenerationFailed);
        },
    }
    let half = rotate_half(img);
    match hash_image_encoded(hasher, &half) {
        Ok(s) => cands.push(s),
        Err(_) => {
            proof {
                assert(cs[2] is None);
            }
            return Err(CoreError::HashGenerationFailed);
        },
    }
    let three_quarters = rotate_three_quarters(img);
    match hash_image_encoded(hasher, &three_quarters) {
        Ok(s) => cands.push(s),
        Err(_) => {
            proof {
                assert(cs[3] is None);
            }
            return Err(CoreError::HashGenerationFailed);
        },
    }
    proof {
        assert(cands.deep_view() =~= candidate_values(cs));
        assert(all_candidates_present(cs)) by {
            assert(cs[0] is Some && cs[1] is Some && cs[2] is Some && cs[3] is Some);
        }
    }
    match canonical_min(&cands) {
        Some(best) => Ok(best),
        None => {
            proof {
                assert(false);
            }
            Err(CoreError::HashGenerationFailed)
        },
    }
}

// ---------------------------------------------------------------------------
// The batch pipeline: parallel compute, sequential commit
// ---------------------------------------------------------------------------
/// The identity of a candidate file: its path with the size and
/// content digest the caller read for it.
pub struct ImageMetadata {
    pub path: String,
    pub size: u64,
    pub sha256: String,
}

/// The mathematical view of a candidate's identity.
pub struct ImageMetadataV {
    pub path: Seq<char>,
    pub size: u64,
    pub sha256: Seq<char>,
}

impl View for ImageMetadata {
    type V = ImageMetadataV;

    open spec fn view(&self) -> ImageMetadataV {
        ImageMetadataV { path: self.path@, size: self.size, sha256: self.sha256@ }
    }
}

impl DeepView for ImageMetadata {
    type V = ImageMetadataV;

    open spec fn deep_view(&self) -> ImageMetadataV {
        self@
    }
}

impl Clone for ImageMetadata {
    fn clone(&self) -> (r: Self)
        ensures
            r == *self,
    {
        ImageMetadata { path: self.path.clone(), size: self.size, sha256: self.sha256.clone() }
    }
}

/// What became of one cache miss: hashed successfully, or failed to
/// open or hash (the file is then dropped and evicted).
pub enum ProcessOutcome {
    Hashed { meta: ImageMetadata, encoded: String, bits: HashBits },
    Failed { path: String },
}

/// The mathematical view of an outcome.
pub enum ProcessOutcomeV {
    Hashed { meta: ImageMetadataV, encoded: Seq<char>, bits: Seq<bool> },
    Failed { path: Seq<char> },
}

impl View for ProcessOutcome {
    type V = ProcessOutcomeV;

    open spec fn view(&self) -> ProcessOutcomeV {
        match self {
            ProcessOutcome::Hashed { meta, encoded, bits } => ProcessOutcomeV::Hashed {
                meta: meta@,
                encoded: encoded@,
                bits: bits@,
            },
            ProcessOutcome::Failed { path } => ProcessOutcomeV::Failed { path: path@ },
        }
    }
}

impl DeepView for ProcessOutcome {
    type V = ProcessOutcomeV;

    open spec fn deep_view(&self) -> ProcessOutcomeV {
        self@
    }
}

/// Whether a probe finds a usable cached hash: the store must answer
/// the exact (path, size, digest) lookup and the stored encoding must
/// decode (a corrupt cached value is defensively treated as a miss).
pub open spec fn probe_hit(m: StoreModel, p: ImageMetadataV) -> bool {
    &&& lookup_spec(m, p.path, p.size, p.sha256) is Some
    &&& is_valid_encoding(lookup_spec(m, p.path, p.size, p.sha256)->0)
}

/// The accessible probes of a batch.
pub open spec fn live_probes(probes: Seq<Option<ImageMetadataV>>) -> Seq<ImageMetadataV> {
    probes.filter(|o: Option<ImageMetadataV>| o is Some).map_values(
        |o: Option<ImageMetadataV>| o->0,
    )
}

/// The cache hits of a batch, already decoded.
pub open spec fn hits_of(m: StoreModel, probes: Seq<Option<ImageMetadataV>>) -> Seq<HashedFileV> {
    live_probes(probes).filter(|p: ImageMetadataV| probe_hit(m, p)).map_values(
        |p: ImageMetadataV|
            HashedFileV {
                path: p.path,
                bits: decoded_bits(lookup_spec(m, p.path, p.size, p.sha256)->0),
            },
    )
}

/// The cache misses of a batch: accessible probes the store cannot
/// answer.
pub open spec fn misses_of(m: StoreModel, probes: Seq<Option<ImageMetadataV>>) -> Seq<
    ImageMetadataV,
> {
    live_probes(probes).filter(|p: ImageMetadataV| !probe_hit(m, p))
}

/// One probe extends the hit and miss partitions by at most one
/// element, according to whether it is accessible and found.
proof fn lemma_partition_step(
    m: StoreModel,
    pre: Seq<Option<ImageMetadataV>>,
    cur: Seq<Option<ImageMetadataV>>,
)
    requires
        cur.len() == pre.len() + 1,
        cur.drop_last() == pre,
    ensures
        cur.last() is None ==> hits_of(m, cur) == hits_of(m, pre) && misses_of(m, cur)
            == misses_of(m, pre),
        cur.last() is Some && probe_hit(m, cur.last()->0) ==> hits_of(m, cur) == hits_of(
            m,
            pre,
        ).push(
            HashedFileV {
                path: cur.last()->0.path,
                bits: decoded_bits(
                    lookup_spec(m, cur.last()->0.path, cur.last()->0.size, cur.last()->0.sha256)->0,
                ),
            },
        ) && misses_of(m, cur) == misses_of(m, pre),
        cur.last() is Some && !probe_hit(m, cur.last()->0) ==> hits_of(m, cur) == hits_of(m, pre)
            && misses_of(m, cur) == misses_of(m, pre).push(cur.last()->0),
{
    reveal(Seq::filter);
    let some_pred = |o: Option<ImageMetadataV>| o is Some;
    let get = |o: Option<ImageMetadataV>| o->0;
    let hit_pred = |p: ImageMetadataV| probe_hit(m, p);
    let miss_pred = |p: ImageMetadataV| !probe_hit(m, p);
    let lpp = live_probes(pre);
    let lpc = live_probes(cur);
    if cur.last() is None {
        assert(cur.filter(some_pred) == pre.filter(some_pred));
        assert(lpc == lpp);
    } else {
        let p = cur.last()->0;
        assert(cur.filter(some_pred) == pre.filter(some_pred).push(cur.last()));
        assert(lpc =~= lpp.push(p));
        assert(lpc.drop_last() =~= lpp);
        assert(lpc.last() == p);
        if probe_hit(m, p) {
            assert(lpc.filter(hit_pred) == lpc.drop_last().filter(hit_pred).push(p));
            assert(lpc.drop_last().filter(hit_pred) == lpp.filter(hit_pred));
            assert(hits_of(m, cur) =~= hits_of(m, pre).push(
                HashedFileV {
                    path: p.path,
                    bits: decoded_bits(lookup_spec(m, p.path, p.size, p.sha256)->0),
                },
            ));
            assert(lpc.filter(miss_pred) == lpc.drop_last().filter(miss_pred));
            assert(misses_of(m, cur) =~= misses_of(m, pre));
        } else {
            assert(lpc.filter(miss_pred) == lpc.drop_last().filter(miss_pred).push(p));
            assert(lpc.drop_last().filter(miss_pred) == lpp.filter(miss_pred));
            assert(misses_of(m, cur) =~= misses_of(m, pre).push(p));
            assert(lpc.filter(hit_pred) == lpc.drop_last().filter(hit_pred));
            assert(hits_of(m, cur) =~= hits_of(m, pre));
        }
    }
}

/// The first phase of the batch: consults the store for every
/// accessible probe and separates decodable hits from misses. Read
/// only; inaccessible probes (`None`) are dropped and never reach
/// the store.
pub fn partition_batch(cache: &HashCache, probes: &Vec<Option<ImageMetadata>>) -> (r: (
    Vec<HashedFile>,
    Vec<ImageMetadata>,
))
    requires
        cache.wf(),
    ensures
        r.0.deep_view() == hits_of(cache@, probes.deep_view()),
        r.1.deep_view() == misses_of(cache@, probes.deep_view()),
        forall|i: int| 0 <= i < r.0@.len() ==> (#[trigger] r.0@[i]).bits.wf(),
{
    let ghost pv = probes.deep_view();
    let mut hits: Vec<HashedFile> = Vec::new();
    let mut misses: Vec<ImageMetadata> = Vec::new();
    let mut i: usize = 0;
    proof {
        reveal(Seq::filter);
        assert(hits.deep_view() =~= hits_of(cache@, pv.subrange(0, 0)));
        assert(misses.deep_view() =~= misses_of(cache@, pv.subrange(0, 0)));
    }
    while i < probes.len()
        invariant
            cache.wf(),
            pv == probes.deep_view(),
            pv.len() == probes@.len(),
            i <= probes@.len(),
            hits.deep_view() == hits_of(cache@, pv.subrange(0, i as int)),
            misses.deep_view() == misses_of(cache@, pv.subrange(0, i as int)),
            forall|q: int| 0 <= q < hits@.len() ==> (#[trigger] hits@[q]).bits.wf(),
        decreases probes@.len() - i,
    {
        let ghost pre = pv.subrange(0, i as int);
        let ghost cur = pv.subrange(0, i as int + 1);
        proof {
            assert(cur.drop_last() =~= pre);
            assert(cur.last() == pv[i as int]);
        }
        match &probes[i] {
            None => {
                proof {
                    lemma_partition_step(cache@, pre, cur);
                    assert(hits.deep_view() =~= hits_of(cache@, cur));
                    assert(misses.deep_view() =~= misses_of(cache@, cur));
                }
            },
            Some(meta) => {
                let ghost p = pv[i as int]->0;
                let looked = cache.get_cached_hash(
                    meta.path.as_str(),
                    meta.size,
                    meta.sha256.as_str(),
                );
                let mut taken: bool = false;
                match looked {
                    Some(encoded) => {
                        match decode_hash(encoded.as_str()) {
                            Some(bits) => {
                                let ghost before = hits.deep_view();
                                hits.push(HashedFile { path: meta.path.clone(), bits });
                                taken = true;
                                proof {
                                    assert(probe_hit(cache@, p));
                                    lemma_partition_step(cache@, pre, cur);
                                    assert(hits.deep_view() =~= before.push(
                                        HashedFileV {
                                            path: p.path,
                                            bits: decoded_bits(
                                                lookup_spec(cache@, p.path, p.size, p.sha256)->0,
                                            ),
                                        },
                                    ));
                                    assert(hits.deep_view() =~= hits_of(cache@, cur));
                                    assert(misses.deep_view() =~= misses_of(cache@, cur));
                                }
                            },
                            None => {},
                        }
                    },
                    None => {},
                }
                if !taken {
                    let ghost before = misses.deep_view();
                    misses.push(meta.clone());
                    proof {
                        assert(!probe_hit(cache@, p));
                        lemma_partition_step(cache@, pre, cur);
                        assert(misses.deep_view() =~= before.push(p));
                        assert(hits.deep_view() =~= hits_of(cache@, cur));
                        assert(misses.deep_view() =~= misses_of(cache@, cur));
                    }
                }
            },
        }
        i = i + 1;
    }
    proof {
        assert(pv.subrange(0, pv.len() as int) =~= pv);
    }
    (hits, misses)
}

/// What the per-file processing promises of its outcome, whatever
/// the disk held: a success carries the probe's own identity, a
/// well-formed encoding, and the decoded bits of that encoding; a
/// failure carries the probe's path.
pub open spec fn outcome_for(meta: ImageMetadataV, o: ProcessOutcomeV) -> bool {
    match o {
        ProcessOutcomeV::Hashed { meta: m2, encoded, bits } => {
            &&& m2 == meta
            &&& is_valid_encoding(encoded)
            &&& bits == decoded_bits(encoded)
            &&& bits.len() == 64
        },
        ProcessOutcomeV::Failed { path } => path == meta.path,
    }
}

/// Opens and canonically hashes one cache miss. Decode failures,
/// hash failures and an undecodable encoding all fail closed into
/// `Failed`, never aborting the batch.
pub fn process_one(
    hasher: &imghash::perceptual::PerceptualHasher,
    meta: &ImageMetadata,
) -> (r: ProcessOutcome)
    ensures
        outcome_for(meta@, r@),
{
    let img = match open_image_file(&meta.path) {
        Ok(img) => img,
        Err(_) => {
            return ProcessOutcome::Failed { path: meta.path.clone() };
        },
    };
    let encoded = match generate_rotation_invariant_hash_safe(hasher, &img) {
        Ok(encoded) => encoded,
        Err(_) => {
            return ProcessOutcome::Failed { path: meta.path.clone() };
        },
    };
    match decode_hash(encoded.as_str()) {
        Some(bits) => ProcessOutcome::Hashed { meta: meta.clone(), encoded, bits },
        None => ProcessOutcome::Failed { path: meta.path.clone() },
    }
}

/// Relies on rayon's `par_iter().map().collect()`: runs the verified
/// per-file processing over every miss in parallel, collecting the
/// outcomes in input order; each outcome satisfies the per-file
/// contract for its own probe.
#[verifier::external_body]
fn par_process(
    hasher: &imghash::perceptual::PerceptualHasher,
    misses: &Vec<ImageMetadata>,
) -> (r: Vec<ProcessOutcome>)
    ensures
        r@.len() == misses@.len(),
        forall|k: int| 0 <= k < r@.len() ==> outcome_for(misses@[k]@, (#[trigger] r@[k])@),
{
    rayon::iter::ParallelIterator::collect(
        rayon::iter::ParallelIterator::map(
            rayon::iter::IntoParallelRefIterator::par_iter(misses.as_slice()),
            |m: &ImageMetadata| process_one(hasher, m),
        ),
    )
}

/// One committed outcome: a success is recorded, a failure is
/// evicted (a previously cached but now broken file must not
/// linger).
pub open spec fn commit_step(m: StoreModel, o: ProcessOutcomeV) -> StoreModel {
    match o {
        ProcessOutcomeV::Hashed { meta, encoded, bits } => record_spec(
            m,
            meta.path,
            meta.size,
            meta.sha256,
            encoded,
        ),
        ProcessOutcomeV::Failed { path } => forget_spec(m, path),
    }
}

/// The store after committing a sequence of outcomes in order.
pub open spec fn commit_all(m: StoreModel, outcomes: Seq<ProcessOutcomeV>) -> StoreModel
    decreases outcomes.len(),
{
    if outcomes.len() == 0 {
        m
    } else {
        commit_step(commit_all(m, outcomes.drop_last()), outcomes.last())
    }
}

/// The result items of the successful outcomes, in order.
pub open spec fn hashed_items(outcomes: Seq<ProcessOutcomeV>) -> Seq<HashedFileV> {
    outcomes.filter(|o: ProcessOutcomeV| o is Hashed).map_values(
        |o: ProcessOutcomeV| HashedFileV { path: o->Hashed_meta.path, bits: o->Hashed_bits },
    )
}

/// The second, strictly sequential phase of the batch: writes every
/// outcome back through the store, in order — successes are
/// recorded, failures are evicted — and appends the successes to the
/// result list. A store failure aborts the batch after some prefix
/// of the outcomes has been committed.
pub fn commit_outcomes(
    cache: &mut HashCache,
    outcomes: &Vec<ProcessOutcome>,
    results: &mut Vec<HashedFile>,
) -> (r: Result<(), CoreError>)
    requires
        old(cache).wf(),
    ensures
        final(cache).wf(),
        r is Ok ==> final(cache)@ == commit_all(old(cache)@, outcomes.deep_view()),
        r is Ok ==> final(results).deep_view() == old(results).deep_view() + hashed_items(
            outcomes.deep_view(),
        ),
        r is Err ==> r->Err_0 is Store && (exists|k: int|
            0 <= k <= outcomes.deep_view().len() && final(cache)@ == commit_all(
                old(cache)@,
                #[trigger] outcomes.deep_view().subrange(0, k),
            )),
    {
    let ghost ov = outcomes.deep_view();
    let ghost base = results.deep_view();
    let mut i: usize = 0;
    proof {
        reveal(Seq::filter);
        assert(ov.subrange(0, 0) =~= Seq::<ProcessOutcomeV>::empty());
        assert(results.deep_view() =~= base + hashed_items(ov.subrange(0, 0)));
    }
    while i < outcomes.len()
        invariant
            outcomes.deep_view() == ov,
            ov.len() == outcomes@.len(),
            i <= outcomes@.len(),
            cache.wf(),
            cache@ == commit_all(old(cache)@, ov.subrange(0, i as int)),
            results.deep_view() == base + hashed_items(ov.subrange(0, i as int)),
        decreases outcomes@.len() - i,
    {
        let ghost pre = ov.subrange(0, i as int);
        let ghost cur = ov.subrange(0, i as int + 1);
        proof {
            reveal(Seq::filter);
            assert(cur.drop_last() =~= pre);
            assert(cur.last() == ov[i as int]);
        }
        match &outcomes[i] {
            ProcessOutcome::Hashed { meta, encoded, bits } => {
                let fm = FileMetadata {
                    path: meta.path.clone(),
                    size: meta.size,
                    sha256: meta.sha256.clone(),
                    perceptual_hash: encoded.clone(),
                };
                match cache.store_hash(&fm) {
                    Ok(()) => {},
                    Err(e) => {
                        proof {
                            assert(cache@ == commit_all(old(cache)@, pre));
                        }
                        return Err(e);
                    },
                }
                let ghost before = results.deep_view();
                results.push(HashedFile { path: meta.path.clone(), bits: bits.clone() });
                proof {
                    reveal(Seq::filter);
                    assert(results.deep_view() =~= before.push(
                        HashedFileV { path: ov[i as int]->Hashed_meta.path, bits: ov[i as int]->Hashed_bits },
                    ));
                    assert(hashed_items(cur) =~= hashed_items(pre).push(
                        HashedFileV { path: ov[i as int]->Hashed_meta.path, bits: ov[i as int]->Hashed_bits },
                    ));
                    assert(results.deep_view() =~= base + hashed_items(cur));
                }
            },
            ProcessOutcome::Failed { path } => {
                match cache.remove_file_entry(path.as_str()) {
                    Ok(()) => {},
                    Err(e) => {
                        proof {
                            assert(cache@ == commit_all(old(cache)@, pre));
                        }
                        return Err(e);
                    },
                }
                proof {
                    reveal(Seq::filter);
                    assert(hashed_items(cur) =~= hashed_items(pre));
                    assert(results.deep_view() =~= base + hashed_items(cur));
                }
            },
        }
        i = i + 1;
    }
    proof {
        assert(ov.subrange(0, ov.len() as int) =~= ov);
    }
    Ok(())
}

/// The batch result: all usable (path, decoded hash) pairs — cache
/// hits first, then the successfully hashed misses — with the hit
/// and miss counts.
pub struct BatchResult {
    pub hashes: Vec<HashedFile>,
    pub cache_hits: usize,
    pub cache_misses: usize,
}

/// Runs the whole batch over the store: partitions the probes into
/// hits and misses, hashes the misses in parallel (pure, side-effect
/// free work), then commits every outcome sequentially — the store
/// is never written concurrently. Inaccessible probes are dropped
/// before the store is consulted; files that fail to decode or hash
/// are dropped and evicted. A store failure aborts the batch.
pub fn generate_hashes_with_cache(
    probes: &Vec<Option<ImageMetadata>>,
    cache: &mut HashCache,
) -> (r: Result<BatchResult, CoreError>)
    requires
        old(cache).wf(),
    ensures
        final(cache).wf(),
        r is Ok ==> r->Ok_0.cache_hits == hits_of(old(cache)@, probes.deep_view()).len(),
        r is Ok ==> (exists|outcomes: Seq<ProcessOutcomeV>|
            {
                &&& outcomes.len() == misses_of(old(cache)@, probes.deep_view()).len()
                &&& (forall|k: int|
                    0 <= k < outcomes.len() ==> outcome_for(
                        misses_of(old(cache)@, probes.deep_view())[k],
                        #[trigger] outcomes[k],
                    ))
                &&& final(cache)@ == commit_all(old(cache)@, outcomes)
                &&& r->Ok_0.hashes.deep_view() == hits_of(old(cache)@, probes.deep_view())
                    + hashed_items(outcomes)
                &&& r->Ok_0.cache_misses == hashed_items(outcomes).len()
            }),
        r is Err ==> r->Err_0 is Store,
        misses_of(old(cache)@, probes.deep_view()).len() == 0 ==> r is Ok && final(cache)@ == old(
            cache,
        )@,
        r is Err ==> (exists|outcomes: Seq<ProcessOutcomeV>, k: int|
            {
                &&& outcomes.len() == misses_of(old(cache)@, probes.deep_view()).len()
                &&& (forall|q: int|
                    0 <= q < outcomes.len() ==> outcome_for(
                        misses_of(old(cache)@, probes.deep_view())[q],
                        #[trigger] outcomes[q],
                    ))
                &&& 0 <= k <= outcomes.len()
                &&& final(cache)@ == commit_all(old(cache)@, #[trigger] outcomes.subrange(0, k))
            }),
{
    let ghost m0 = cache@;
    let (hits, misses) = partition_batch(cache, probes);
    let hit_count = hits.len();
    let mut results = hits;
    proof {
        assert(misses.deep_view().len() == misses@.len());
    }
    if misses.len() == 0 {
        proof {
            let outcomes = Seq::<ProcessOutcomeV>::empty();
            assert(commit_all(m0, outcomes) == m0);
            reveal(Seq::filter);
            assert(hashed_items(outcomes) =~= Seq::<HashedFileV>::empty());
            assert(results.deep_view() =~= hits_of(m0, probes.deep_view()) + hashed_items(
                outcomes,
            ));
        }
        return Ok(BatchResult { hashes: results, cache_hits: hit_count, cache_misses: 0 });
    }
    let hasher = perceptual_hasher_default();
    let outcomes = par_process(&hasher, &misses);
    proof {
        let ov = outcomes.deep_view();
        assert(ov.len() == misses_of(m0, probes.deep_view()).len());
        assert forall|q: int|
            0 <= q < ov.len() implies outcome_for(
            misses_of(m0, probes.deep_view())[q],
            #[trigger] ov[q],
        ) by {
            assert(outcome_for(misses@[q]@, outcomes@[q]@));
            assert(misses.deep_view()[q] == misses@[q]@);
            assert(ov[q] == outcomes@[q]@);
        }
    }
    let before_results = results.len();
    match commit_outcomes(cache, &outcomes, &mut results) {
        Ok(()) => {},
        Err(e) => {
            proof {
                let ov = outcomes.deep_view();
                let k = choose|k: int|
                    0 <= k <= ov.len() && cache@ == commit_all(m0, #[trigger] ov.subrange(0, k));
                assert(cache@ == commit_all(m0, ov.subrange(0, k)));
            }
            return Err(e);
        },
    }
    proof {
        assert(results.deep_view().len() == results@.len());
        assert(results@.len() >= before_results);
    }
    let miss_count = results.len() - before_results;
    proof {
        let ov = outcomes.deep_view();
        assert(results.deep_view() == hits_of(m0, probes.deep_view()) + hashed_items(ov));
        assert(hashed_items(ov).len() == results.deep_view().len() - hit_count);
    }
    Ok(BatchResult { hashes: results, cache_hits: hit_count, cache_misses: miss_count })
}

} // verus!

