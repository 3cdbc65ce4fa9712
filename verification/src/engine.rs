//! The cache of descriptors and the ranking of its images.
//!
//! The cache maps image identifiers to descriptors. It keeps its entries in the
//! order in which their identifiers first came, holds no identifier twice, and
//! every descriptor in it has 113 entries. A ranking compares the images that
//! were not selected with those that were; the scores themselves are rounding
//! arithmetic, which the caller does between `selected_features`, `candidates`
//! and `calculate_similarities`.
use crate::error::EngineError;
use crate::features::{
    all_numbers, extract_features_from_points, features, GridEdges, Moments, Point, FEATURE_LENGTH,
};
use crate::ieee::{Double, COUNT_LIMIT};
use crate::ranking::{rank_order, ranking_of, ranks_before};
use vstd::prelude::*;

verus! {

/// What the contracts say of a cache entry: its identifier and its descriptor.
pub type Entry = (Seq<char>, Seq<Double>);

/// What the contracts say of a ranked image: its identifier and its score.
pub type Scored = (Seq<char>, Double);

/// An image and how similar it is to the selection.
#[derive(Clone, Debug, PartialEq, Eq)]
pub struct SimilarityResult {
    pub image_id: String,
    pub similarity: Double,
}

/// An image and its descriptor.
#[derive(Clone, Debug, PartialEq, Eq)]
pub struct MatrixData {
    pub image_id: String,
    pub features: Vec<Double>,
}

/// The engine: no cache at first, then the cache that `initialize_dataset` or
/// the first `cache_features` made.
pub struct SimilarityEngine {
    cache: Option<Vec<MatrixData>>,
}

impl View for SimilarityResult {
    type V = Scored;

    open spec fn view(&self) -> Scored {
        (self.image_id@, self.similarity)
    }
}

impl View for MatrixData {
    type V = Entry;

    open spec fn view(&self) -> Entry {
        (self.image_id@, self.features@)
    }
}

/// What the contracts say of the entries of a cache.
pub open spec fn entry_views(entries: Seq<MatrixData>) -> Seq<Entry> {
    entries.map_values(|e: MatrixData| e@)
}

/// What the contracts say of a ranking.
pub open spec fn result_views(results: Seq<SimilarityResult>) -> Seq<Scored> {
    results.map_values(|r: SimilarityResult| r@)
}

/// The identifiers as sequences of characters.
pub open spec fn texts(ids: Seq<String>) -> Seq<Seq<char>> {
    ids.map_values(|s: String| s@)
}

/// The vectors as sequences of values.
pub open spec fn vector_views(vectors: Seq<Vec<Double>>) -> Seq<Seq<Double>> {
    vectors.map_values(|v: Vec<Double>| v@)
}

/// The identifiers of the entries, in the entries' order.
pub open spec fn ids_of(entries: Seq<Entry>) -> Seq<Seq<char>> {
    entries.map_values(|e: Entry| e.0)
}

/// No identifier occurs twice.
pub open spec fn distinct_ids(entries: Seq<Entry>) -> bool {
    forall|i: int, j: int|
        0 <= i < j < entries.len() ==> (#[trigger] entries[i]).0 != (#[trigger] entries[j]).0
}

/// Every descriptor has the length of a descriptor.
pub open spec fn uniform(entries: Seq<Entry>) -> bool {
    forall|i: int| 0 <= i < entries.len() ==> (#[trigger] entries[i]).1.len() == FEATURE_LENGTH
}

/// What holds of the cache of every engine.
pub open spec fn well_formed(state: Option<Seq<Entry>>) -> bool {
    state matches Some(entries) ==> distinct_ids(entries) && uniform(entries)
}

/// An entry has this identifier.
pub open spec fn has_id(entries: Seq<Entry>, id: Seq<char>) -> bool {
    exists|i: int| 0 <= i < entries.len() && (#[trigger] entries[i]).0 == id
}

/// Where the identifier stands among the entries, if it does.
pub open spec fn position_of(entries: Seq<Entry>, id: Seq<char>) -> int {
    choose|i: int| 0 <= i < entries.len() && (#[trigger] entries[i]).0 == id
}

/// The entries after the descriptor of `id` was stored: in the place of the
/// earlier descriptor of `id`, or at the end where there was none.
pub open spec fn upsert(entries: Seq<Entry>, id: Seq<char>, descriptor: Seq<Double>) -> Seq<Entry> {
    if has_id(entries, id) {
        entries.update(position_of(entries, id), (id, descriptor))
    } else {
        entries.push((id, descriptor))
    }
}

/// The entries of a cache, and none where there is no cache.
pub open spec fn entries_of(state: Option<Seq<Entry>>) -> Seq<Entry> {
    match state {
        Some(entries) => entries,
        None => Seq::empty(),
    }
}

/// The test that an entry passes when the selection does not name it.
pub open spec fn not_selected(selected: Seq<Seq<char>>) -> spec_fn(Entry) -> bool {
    |e: Entry| !selected.contains(e.0)
}

/// The state that `initialize_dataset` leaves: a cache without entries.
pub open spec fn initialized() -> Option<Seq<Entry>> {
    Some(Seq::<Entry>::empty())
}

/// The state that `cache_features` leaves when it stores `descriptor` under
/// `id`: a cache in any case, with the descriptor in it.
pub open spec fn cached(state: Option<Seq<Entry>>, id: Seq<char>, descriptor: Seq<Double>) -> Option<
    Seq<Entry>,
> {
    Some(upsert(entries_of(state), id, descriptor))
}

/// What `get_cache_status` reports of a state: how many images are cached,
/// and their identifiers.
pub open spec fn status(state: Option<Seq<Entry>>) -> (nat, Seq<Seq<char>>) {
    (entries_of(state).len(), ids_of(entries_of(state)))
}

/// The entries that the selection does not name, in the entries' order.
pub open spec fn unselected(entries: Seq<Entry>, selected: Seq<Seq<char>>) -> Seq<Entry> {
    entries.filter(not_selected(selected))
}

/// Every selected identifier has an entry.
pub open spec fn all_cached(entries: Seq<Entry>, selected: Seq<Seq<char>>) -> bool {
    forall|k: int| 0 <= k < selected.len() ==> has_id(entries, #[trigger] selected[k])
}

/// `id` is the first identifier of the selection that has no entry.
pub open spec fn is_first_missing(entries: Seq<Entry>, selected: Seq<Seq<char>>, id: Seq<char>) -> bool {
    exists|k: int|
        {
            &&& 0 <= k < selected.len()
            &&& #[trigger] selected[k] == id
            &&& !has_id(entries, id)
            &&& forall|j: int| 0 <= j < k ==> has_id(entries, #[trigger] selected[j])
        }
}

/// The descriptors of the selected identifiers, in the selection's order.
pub open spec fn selected_vectors(entries: Seq<Entry>, selected: Seq<Seq<char>>) -> Seq<Seq<Double>> {
    Seq::new(selected.len(), |k: int| entries[position_of(entries, selected[k])].1)
}

/// The candidates with their scores, in the order of the ranking.
pub open spec fn arranged(candidates: Seq<Entry>, scores: Seq<Double>, order: Seq<usize>) -> Seq<Scored> {
    Seq::new(order.len(), |k: int| (candidates[order[k] as int].0, scores[order[k] as int]))
}

/// The cosine similarity of two vectors, from their norms and from the
/// quotient of their dot product by the product of the norms, all three as
/// the caller computed them. Where a norm is zero the similarity is zero,
/// whatever the quotient came to. Vectors of different lengths have none.
pub fn cosine_similarity(
    a: &Vec<Double>,
    b: &Vec<Double>,
    norm_a: Double,
    norm_b: Double,
    quotient: Double,
) -> (r: Result<Double, EngineError>)
    ensures
        a.len() != b.len() ==> r == Err::<Double, EngineError>(EngineError::LengthMismatch),
        a.len() == b.len() && (norm_a.spec_is_zero() || norm_b.spec_is_zero()) ==> r == Ok::<
            Double,
            EngineError,
        >(Double { bits: 0 }),
        a.len() == b.len() && !norm_a.spec_is_zero() && !norm_b.spec_is_zero() ==> r == Ok::<
            Double,
            EngineError,
        >(quotient),
{
    if a.len() != b.len() {
        return Err(EngineError::LengthMismatch);
    }
    if norm_a.is_zero() || norm_b.is_zero() {
        return Ok(Double { bits: 0 });
    }
    Ok(quotient)
}

fn find(entries: &Vec<MatrixData>, id: &String) -> (r: Option<usize>)
    ensures
        match r {
            Some(i) => i < entries.len() && entries[i as int].image_id@ == id@,
            None => !has_id(entry_views(entries@), id@),
        },
{
    let mut i: usize = 0;
    while i < entries.len()
        invariant
            i <= entries.len(),
            forall|j: int| 0 <= j < i ==> (#[trigger] entries[j]).image_id@ != id@,
        decreases entries.len() - i,
    {
        if entries[i].image_id == *id {
            return Some(i);
        }
        i = i + 1;
    }
    assert forall|j: int| 0 <= j < entry_views(entries@).len() implies (#[trigger] entry_views(
        entries@,
    )[j]).0 != id@ by {
        assert(entries[j].image_id@ != id@);
    }
    None
}

fn names(selected: &Vec<String>, id: &String) -> (r: bool)
    ensures
        r == texts(selected@).contains(id@),
{
    let mut i: usize = 0;
    while i < selected.len()
        invariant
            i <= selected.len(),
            forall|j: int| 0 <= j < i ==> (#[trigger] selected[j])@ != id@,
        decreases selected.len() - i,
    {
        if selected[i] == *id {
            assert(texts(selected@)[i as int] == id@);
            return true;
        }
        i = i + 1;
    }
    assert forall|j: int| 0 <= j < texts(selected@).len() implies (#[trigger] texts(selected@)[j])
        != id@ by {
        assert(selected[j]@ != id@);
    }
    false
}

fn copy_vector(v: &Vec<Double>) -> (r: Vec<Double>)
    ensures
        r@ == v@,
{
    let mut out: Vec<Double> = Vec::new();
    let mut i: usize = 0;
    while i < v.len()
        invariant
            i <= v.len(),
            out@ == v@.take(i as int),
        decreases v.len() - i,
    {
        out.push(v[i]);
        assert(v@.take(i + 1) == v@.take(i as int).push(v[i as int]));
        i = i + 1;
    }
    assert(v@.take(v.len() as int) == v@);
    out
}

/// The length that all the vectors share. There is none where the vectors
/// differ in length, and none for no vectors at all.
pub fn common_length(vectors: &Vec<Vec<Double>>) -> (r: Result<usize, EngineError>)
    ensures
        vectors.len() == 0 ==> r == Err::<usize, EngineError>(EngineError::EmptySelection),
        vectors.len() > 0 && (exists|k: int|
            0 <= k < vectors.len() && (#[trigger] vectors[k]).len() != vectors[0].len()) ==> r
            == Err::<usize, EngineError>(EngineError::LengthMismatch),
        vectors.len() > 0 && (forall|k: int|
            0 <= k < vectors.len() ==> (#[trigger] vectors[k]).len() == vectors[0].len()) ==> r
            == Ok::<usize, EngineError>(vectors[0].len()),
{
    if vectors.len() == 0 {
        return Err(EngineError::EmptySelection);
    }
    let length = vectors[0].len();
    let mut k: usize = 1;
    while k < vectors.len()
        invariant
            1 <= k <= vectors.len(),
            length == vectors[0].len(),
            forall|j: int| 0 <= j < k ==> (#[trigger] vectors[j]).len() == length,
        decreases vectors.len() - k,
    {
        if vectors[k].len() != length {
            return Err(EngineError::LengthMismatch);
        }
        k = k + 1;
    }
    Ok(length)
}

proof fn lemma_unselected_none(selected: Seq<Seq<char>>)
    ensures
        unselected(Seq::<Entry>::empty(), selected) == Seq::<Entry>::empty(),
{
    reveal(Seq::filter);
}

proof fn lemma_unselected_step(entries: Seq<Entry>, selected: Seq<Seq<char>>, i: int)
    requires
        0 <= i < entries.len(),
    ensures
        unselected(entries.take(i + 1), selected) == if selected.contains(entries[i].0) {
            unselected(entries.take(i), selected)
        } else {
            unselected(entries.take(i), selected).push(entries[i])
        },
{
    assert(entries.take(i + 1) == entries.take(i).push(entries[i]));
    entries.take(i).lemma_filter_push(entries[i], not_selected(selected));
}

/// Where no identifier occurs twice, an identifier stands where it is found.
pub proof fn lemma_position(entries: Seq<Entry>, id: Seq<char>, i: int)
    requires
        distinct_ids(entries),
        0 <= i < entries.len(),
        entries[i].0 == id,
    ensures
        has_id(entries, id),
        position_of(entries, id) == i,
{
    let p = position_of(entries, id);
    if p < i {
        assert(entries[p].0 != entries[i].0);
    } else if i < p {
        assert(entries[i].0 != entries[p].0);
    }
}

fn first_absent(entries: &Vec<MatrixData>, selected: &Vec<String>) -> (r: Option<usize>)
    ensures
        match r {
            Some(k) => {
                &&& k < selected.len()
                &&& !has_id(entry_views(entries@), selected[k as int]@)
                &&& forall|j: int|
                    0 <= j < k ==> has_id(entry_views(entries@), #[trigger] texts(selected@)[j])
            },
            None => all_cached(entry_views(entries@), texts(selected@)),
        },
{
    let mut k: usize = 0;
    while k < selected.len()
        invariant
            k <= selected.len(),
            forall|j: int|
                0 <= j < k ==> has_id(entry_views(entries@), #[trigger] texts(selected@)[j]),
        decreases selected.len() - k,
    {
        match find(entries, &selected[k]) {
            Some(i) => {
                assert(entry_views(entries@)[i as int].0 == texts(selected@)[k as int]);
            },
            None => {
                return Some(k);
            },
        }
        k = k + 1;
    }
    None
}

fn candidate_ids(entries: &Vec<MatrixData>, selected: &Vec<String>) -> (r: Vec<String>)
    ensures
        texts(r@) == ids_of(unselected(entry_views(entries@), texts(selected@))),
{
    let ghost cached = entry_views(entries@);
    let ghost chosen = texts(selected@);
    let mut out: Vec<String> = Vec::new();
    let mut i: usize = 0;
    proof {
        lemma_unselected_none(chosen);
        assert(cached.take(0) == Seq::<Entry>::empty());
        assert(texts(out@) == ids_of(Seq::<Entry>::empty()));
    }
    while i < entries.len()
        invariant
            i <= entries.len(),
            cached == entry_views(entries@),
            chosen == texts(selected@),
            texts(out@) == ids_of(unselected(cached.take(i as int), chosen)),
        decreases entries.len() - i,
    {
        proof {
            lemma_unselected_step(cached, chosen, i as int);
        }
        if !names(selected, &entries[i].image_id) {
            let ghost earlier = texts(out@);
            out.push(entries[i].image_id.clone());
            assert(texts(out@) == earlier.push(cached[i as int].0));
            assert(ids_of(unselected(cached.take(i as int), chosen).push(cached[i as int]))
                == ids_of(unselected(cached.take(i as int), chosen)).push(cached[i as int].0));
        }
        i = i + 1;
    }
    assert(cached.take(entries.len() as int) == cached);
    out
}

impl View for SimilarityEngine {
    type V = Option<Seq<Entry>>;

    closed spec fn view(&self) -> Option<Seq<Entry>> {
        match self.cache {
            Some(entries) => Some(entry_views(entries@)),
            None => None,
        }
    }
}

impl SimilarityEngine {
    #[verifier::type_invariant]
    spec fn consistent(self) -> bool {
        well_formed(self@)
    }

    /// An engine without a cache.
    pub fn new() -> (engine: Self)
        ensures
            engine@ is None,
    {
        SimilarityEngine { cache: None }
    }

    /// Replaces the cache by an empty one, whether or not there was one. It
    /// never fails.
    pub fn initialize_dataset(&mut self) -> (r: Result<(), EngineError>)
        ensures
            r == Ok::<(), EngineError>(()),
            final(self)@ == initialized(),
    {
        self.cache = Some(Vec::new());
        assert(entry_views(Seq::<MatrixData>::empty()) == Seq::<Entry>::empty());
        Ok(())
    }

    /// The number of cached images and their identifiers, in the order in
    /// which they first came; nothing of either where there is no cache. It
    /// never fails. The cache of an engine is well formed at all times, which
    /// a caller learns here.
    pub fn get_cache_status(&self) -> (r: Result<(usize, Vec<String>), EngineError>)
        ensures
            r matches Ok((count, ids)) && (count as nat, texts(ids@)) == status(self@),
            well_formed(self@),
    {
        proof {
            use_type_invariant(self);
        }
        let mut ids: Vec<String> = Vec::new();
        match &self.cache {
            Some(entries) => {
                let mut i: usize = 0;
                while i < entries.len()
                    invariant
                        i <= entries.len(),
                        ids.len() == i,
                        forall|j: int| 0 <= j < i ==> (#[trigger] ids[j])@ == entries[j].image_id@,
                    decreases entries.len() - i,
                {
                    ids.push(entries[i].image_id.clone());
                    i = i + 1;
                }
                assert(texts(ids@) =~= ids_of(entry_views(entries@)));
                Ok((entries.len(), ids))
            },
            None => {
                assert(texts(ids@) == ids_of(Seq::<Entry>::empty()));
                Ok((0, ids))
            },
        }
    }

    /// Stores a descriptor under an identifier, in place of the descriptor
    /// that the identifier had, if it had one. An engine without a cache gets
    /// one. A vector that has not the length of a descriptor is refused with
    /// `LengthMismatch`, and the engine stays as it was.
    pub fn store_features(&mut self, image_id: String, descriptor: Vec<Double>) -> (r: Result<
        (),
        EngineError,
    >)
        ensures
            descriptor.len() != FEATURE_LENGTH ==> r == Err::<(), EngineError>(
                EngineError::LengthMismatch,
            ) && final(self)@ == old(self)@,
            descriptor.len() == FEATURE_LENGTH ==> r == Ok::<(), EngineError>(()) && final(self)@
                == cached(old(self)@, image_id@, descriptor@),
    {
        if descriptor.len() != FEATURE_LENGTH {
            return Err(EngineError::LengthMismatch);
        }
        proof {
            use_type_invariant(&*self);
        }
        let ghost before = entries_of(self@);
        let mut held: Option<Vec<MatrixData>> = None;
        std::mem::swap(&mut held, &mut self.cache);
        let mut entries: Vec<MatrixData> = match held {
            Some(entries) => entries,
            None => Vec::new(),
        };
        assert(entry_views(entries@) == before);
        let found = find(&entries, &image_id);
        let ghost id = image_id@;
        let ghost fresh = descriptor@;
        match found {
            Some(i) => {
                proof {
                    lemma_position(before, id, i as int);
                }
                entries.set(i, MatrixData { image_id, features: descriptor });
                assert(entry_views(entries@) == before.update(i as int, (id, fresh)));
            },
            None => {
                entries.push(MatrixData { image_id, features: descriptor });
                assert(entry_views(entries@) == before.push((id, fresh)));
            },
        }
        self.cache = Some(entries);
        Ok(())
    }

    /// Builds the descriptor of an image and stores it under the image's
    /// identifier, as `store_features` does. On no points at all it fails
    /// with `EmptyInput` and leaves the engine as it was.
    pub fn cache_features(
        &mut self,
        image_id: String,
        points: Vec<Point>,
        moments: Moments,
        grid: GridEdges,
    ) -> (r: Result<(), EngineError>)
        requires
            all_numbers(points@),
            points.len() < COUNT_LIMIT,
        ensures
            points.len() == 0 ==> r == Err::<(), EngineError>(EngineError::EmptyInput)
                && final(self)@ == old(self)@,
            points.len() > 0 ==> r == Ok::<(), EngineError>(()) && final(self)@ == cached(
                old(self)@,
                image_id@,
                features(points@, moments, grid),
            ),
    {
        match extract_features_from_points(&points, &moments, &grid) {
            Ok(descriptor) => self.store_features(image_id, descriptor),
            Err(e) => Err(e),
        }
    }

    /// The descriptors of the selected images, in the order of the selection:
    /// what the query vector is the mean of. All of them have the length of a
    /// descriptor.
    pub fn selected_features(&self, selected_image_ids: &Vec<String>) -> (r: Result<
        Vec<Vec<Double>>,
        EngineError,
    >)
        ensures
            selected_image_ids.len() == 0 ==> r == Err::<Vec<Vec<Double>>, EngineError>(
                EngineError::EmptySelection,
            ),
            selected_image_ids.len() > 0 && self@ is None ==> r == Err::<
                Vec<Vec<Double>>,
                EngineError,
            >(EngineError::CacheUninitialized),
            selected_image_ids.len() > 0 && self@ is Some && !all_cached(
                entries_of(self@),
                texts(selected_image_ids@),
            ) ==> (r matches Err(EngineError::MissingFeatures(id)) && is_first_missing(
                entries_of(self@),
                texts(selected_image_ids@),
                id@,
            )),
            selected_image_ids.len() > 0 && self@ is Some && all_cached(
                entries_of(self@),
                texts(selected_image_ids@),
            ) ==> (r matches Ok(vectors) && vector_views(vectors@) == selected_vectors(
                entries_of(self@),
                texts(selected_image_ids@),
            ) && forall|k: int|
                0 <= k < vectors.len() ==> (#[trigger] vectors[k]).len() == FEATURE_LENGTH),
    {
        if selected_image_ids.len() == 0 {
            return Err(EngineError::EmptySelection);
        }
        proof {
            use_type_invariant(self);
        }
        let entries = match &self.cache {
            Some(entries) => entries,
            None => {
                return Err(EngineError::CacheUninitialized);
            },
        };
        let ghost cached = entry_views(entries@);
        let ghost selected = texts(selected_image_ids@);
        let mut vectors: Vec<Vec<Double>> = Vec::new();
        let mut k: usize = 0;
        while k < selected_image_ids.len()
            invariant
                k <= selected_image_ids.len(),
                self@ == Some(cached),
                cached == entry_views(entries@),
                selected == texts(selected_image_ids@),
                distinct_ids(cached),
                uniform(cached),
                vectors.len() == k,
                forall|j: int| 0 <= j < k ==> has_id(cached, #[trigger] selected[j]),
                forall|j: int|
                    0 <= j < k ==> (#[trigger] vectors[j])@ == cached[position_of(
                        cached,
                        selected[j],
                    )].1,
            decreases selected_image_ids.len() - k,
        {
            match find(entries, &selected_image_ids[k]) {
                Some(i) => {
                    proof {
                        lemma_position(cached, selected[k as int], i as int);
                    }
                    vectors.push(copy_vector(&entries[i].features));
                },
                None => {
                    let missing = selected_image_ids[k].clone();
                    assert(selected[k as int] == missing@);
                    assert(is_first_missing(cached, selected, missing@));
                    return Err(EngineError::MissingFeatures(missing));
                },
            }
            k = k + 1;
        }
        assert(vector_views(vectors@) =~= selected_vectors(cached, selected));
        assert forall|j: int| 0 <= j < vectors.len() implies (#[trigger] vectors[j]).len()
            == FEATURE_LENGTH by {
            assert(has_id(cached, selected[j]));
            let p = position_of(cached, selected[j]);
            assert(cached[p].1.len() == FEATURE_LENGTH);
        }
        Ok(vectors)
    }

    /// The images that the selection does not name, with their descriptors,
    /// in the order of the cache: what `calculate_similarities` wants one
    /// score each for, in this order.
    pub fn candidates(&self, selected_image_ids: &Vec<String>) -> (r: Vec<MatrixData>)
        ensures
            entry_views(r@) == unselected(entries_of(self@), texts(selected_image_ids@)),
    {
        let ghost selected = texts(selected_image_ids@);
        let mut out: Vec<MatrixData> = Vec::new();
        proof {
            lemma_unselected_none(selected);
        }
        match &self.cache {
            Some(entries) => {
                let ghost cached = entry_views(entries@);
                let mut i: usize = 0;
                assert(cached.take(0) == Seq::<Entry>::empty());
                while i < entries.len()
                    invariant
                        i <= entries.len(),
                        cached == entry_views(entries@),
                        selected == texts(selected_image_ids@),
                        entry_views(out@) == unselected(cached.take(i as int), selected),
                    decreases entries.len() - i,
                {
                    proof {
                        lemma_unselected_step(cached, selected, i as int);
                    }
                    if !names(selected_image_ids, &entries[i].image_id) {
                        let ghost earlier = entry_views(out@);
                        out.push(
                            MatrixData {
                                image_id: entries[i].image_id.clone(),
                                features: copy_vector(&entries[i].features),
                            },
                        );
                        assert(entry_views(out@) == earlier.push(cached[i as int]));
                    }
                    i = i + 1;
                }
                assert(cached.take(entries.len() as int) == cached);
            },
            None => {
                assert(entry_views(out@) == Seq::<Entry>::empty());
            },
        }
        out
    }
    /// Ranks the images that the selection does not name by their scores.
    ///
    /// `similarities` holds one score for each candidate, in the order of
    /// `candidates`. The result pairs each candidate with its score, from the
    /// highest score to the lowest; candidates with the same score stay in the
    /// order of the cache. No selected image is in it.
    pub fn calculate_similarities(
        &self,
        selected_image_ids: Vec<String>,
        similarities: Vec<Double>,
    ) -> (r: Result<Vec<SimilarityResult>, EngineError>)
        ensures
            selected_image_ids.len() == 0 ==> r == Err::<Vec<SimilarityResult>, EngineError>(
                EngineError::EmptySelection,
            ),
            selected_image_ids.len() > 0 && self@ is None ==> r == Err::<
                Vec<SimilarityResult>,
                EngineError,
            >(EngineError::CacheUninitialized),
            selected_image_ids.len() > 0 && self@ is Some && !all_cached(
                entries_of(self@),
                texts(selected_image_ids@),
            ) ==> (r matches Err(EngineError::MissingFeatures(id)) && is_first_missing(
                entries_of(self@),
                texts(selected_image_ids@),
                id@,
            )),
            selected_image_ids.len() > 0 && self@ is Some && all_cached(
                entries_of(self@),
                texts(selected_image_ids@),
            ) && similarities.len() != unselected(
                entries_of(self@),
                texts(selected_image_ids@),
            ).len() ==> r == Err::<Vec<SimilarityResult>, EngineError>(
                EngineError::LengthMismatch,
            ),
            selected_image_ids.len() > 0 && self@ is Some && all_cached(
                entries_of(self@),
                texts(selected_image_ids@),
            ) && similarities.len() == unselected(
                entries_of(self@),
                texts(selected_image_ids@),
            ).len() ==> (r matches Ok(results) && result_views(results@) == arranged(
                unselected(entries_of(self@), texts(selected_image_ids@)),
                similarities@,
                ranking_of(similarities@),
            )),
            r matches Ok(results) ==> forall|k: int|
                0 <= k < results.len() ==> !texts(selected_image_ids@).contains(
                    (#[trigger] results[k]).image_id@,
                ),
            r matches Ok(results) ==> forall|i: int, j: int|
                0 <= i < j < results.len() ==> (#[trigger] results[i]).similarity.rank()
                    >= (#[trigger] results[j]).similarity.rank(),
    {
        if selected_image_ids.len() == 0 {
            return Err(EngineError::EmptySelection);
        }
        let entries = match &self.cache {
            Some(entries) => entries,
            None => {
                return Err(EngineError::CacheUninitialized);
            },
        };
        let ghost cached = entry_views(entries@);
        let ghost selected = texts(selected_image_ids@);
        match first_absent(entries, &selected_image_ids) {
            Some(k) => {
                let missing = selected_image_ids[k].clone();
                assert(selected[k as int] == missing@);
                assert(is_first_missing(cached, selected, missing@));
                assert(!all_cached(cached, selected));
                return Err(EngineError::MissingFeatures(missing));
            },
            None => {},
        }
        let ids = candidate_ids(entries, &selected_image_ids);
        let ghost rest = unselected(cached, selected);
        assert(ids.len() == rest.len()) by {
            assert(texts(ids@).len() == ids_of(rest).len());
        }
        if ids.len() != similarities.len() {
            return Err(EngineError::LengthMismatch);
        }
        let order = rank_order(&similarities);
        let mut results: Vec<SimilarityResult> = Vec::new();
        let mut k: usize = 0;
        while k < order.len()
            invariant
                k <= order.len(),
                crate::ranking::is_ranking(order@, similarities@),
                ids.len() == similarities.len(),
                results.len() == k,
                forall|j: int|
                    0 <= j < k ==> (#[trigger] results[j])@ == (
                        ids[order[j] as int]@,
                        similarities[order[j] as int],
                    ),
            decreases order.len() - k,
        {
            let at = order[k];
            results.push(SimilarityResult { image_id: ids[at].clone(), similarity: similarities[at] });
            k = k + 1;
        }
        proof {
            assert forall|j: int| 0 <= j < results.len() implies (#[trigger] results[j])@
                == arranged(rest, similarities@, order@)[j] by {
                assert(texts(ids@)[order[j] as int] == ids_of(rest)[order[j] as int]);
            }
            assert(result_views(results@) =~= arranged(rest, similarities@, order@));
            assert forall|j: int| 0 <= j < results.len() implies !selected.contains(
                (#[trigger] results[j]).image_id@,
            ) by {
                let at = order[j] as int;
                assert(texts(ids@)[at] == ids_of(rest)[at]);
                cached.lemma_filter_pred(not_selected(selected), at);
            }
            assert forall|i: int, j: int| 0 <= i < j < results.len() implies (
            #[trigger] results[i]).similarity.rank() >= (#[trigger] results[j]).similarity.rank() by {
                assert(ranks_before(similarities@, order[i] as int, order[j] as int));
            }
        }
        Ok(results)
    }
}

} // verus!
