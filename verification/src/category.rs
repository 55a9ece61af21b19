//! Finite categories: objects, morphisms, and the lookup tables that answer
//! identity and composition queries.
//!
//! Morphisms are told apart by their endpoints only. Two morphisms that share
//! a domain key and a codomain key are interchangeable for every query in this
//! module, and where several share an endpoint pair the earliest one in the
//! morphism list answers for all of them. Composition is therefore resolved by
//! connectivity, not by the algebraic identity of the composite: a category in
//! which two different morphisms run between the same pair of objects needs an
//! explicit composition table, which this module does not offer.
use std::collections::HashMap;
use std::fmt::Debug;
use vstd::hash_map::StringHashMap;
use vstd::prelude::*;
use vstd::string::StringExecFns;

verus! {

/// Failures of category operations. Each variant carries a human-readable detail.
#[derive(Debug)]
pub enum CategoryError {
    /// Two morphisms have no registered composite.
    CompositionMismatch(String),
    /// An object is not part of the category.
    ObjectNotFound(String),
    /// A morphism is not part of the category.
    MorphismNotFound(String),
    /// No identity morphism is registered for an object.
    IdentityNotFound(String),
    /// A morphism could not be applied to the given data.
    InvalidApplication(String),
}

/// An object of a category, identified by a stable string key.
///
/// Two objects with the same key are the same object as far as a category is
/// concerned, whatever else they hold.
pub trait Object: Clone + Debug {
    /// The key that identifies this object. An implementation states here
    /// what `id` returns; without a statement the key is unknown.
    open spec fn spec_id(&self) -> Seq<char> {
        arbitrary()
    }

    /// Returns the key that identifies this object. The key is a function of
    /// the object alone: every call returns the same characters.
    fn id(&self) -> (key: String)
        ensures
            key@ == self.spec_id(),
    ;

    /// The number of degrees of freedom, for objects that have one. An
    /// object has none unless its implementation says otherwise.
    fn dimension(&self) -> (degrees: Option<usize>)
        default_ensures
            degrees is None,
    {
        None
    }
}

/// A directed edge between two objects.
pub trait Morphism: Clone + Debug {
    /// The objects that this kind of morphism connects.
    type ObjectType: Object;

    /// The object this morphism starts from. An implementation states
    /// here what `domain` returns.
    open spec fn spec_domain(&self) -> Self::ObjectType {
        arbitrary()
    }

    /// The object this morphism arrives at. An implementation states here
    /// what `codomain` returns.
    open spec fn spec_codomain(&self) -> Self::ObjectType {
        arbitrary()
    }

    /// Returns the object this morphism starts from.
    fn domain(&self) -> (obj: &Self::ObjectType)
        ensures
            *obj == self.spec_domain(),
    ;

    /// Returns the object this morphism arrives at.
    fn codomain(&self) -> (obj: &Self::ObjectType)
        ensures
            *obj == self.spec_codomain(),
    ;

    /// Transforms `data` along this morphism. Categories never call this and
    /// assume nothing about what it does.
    fn apply<T>(&self, data: &T) -> Result<T, CategoryError> where T: Clone + Debug;
}

/// Two morphisms that are meant to be applied one after the other.
pub struct ComposableMorphisms<M: Morphism> {
    /// The morphism applied first.
    pub first: M,
    /// The morphism applied second.
    pub second: M,
}

/// The key of the object `m` starts from.
pub open spec fn domain_id<M: Morphism>(m: M) -> Seq<char> {
    m.spec_domain().spec_id()
}

/// The key of the object `m` arrives at.
pub open spec fn codomain_id<M: Morphism>(m: M) -> Seq<char> {
    m.spec_codomain().spec_id()
}

/// `m` runs from the object keyed `d` to the object keyed `c`.
pub open spec fn runs_between<M: Morphism>(m: M, d: Seq<char>, c: Seq<char>) -> bool {
    domain_id(m) == d && codomain_id(m) == c
}

/// `f` and `g` have the same endpoints.
pub open spec fn parallel<M: Morphism>(f: M, g: M) -> bool {
    domain_id(f) == domain_id(g) && codomain_id(f) == codomain_id(g)
}

/// `g` starts where `f` arrives, so that "`g` after `f`" makes sense.
pub open spec fn composable<M: Morphism>(f: M, g: M) -> bool {
    codomain_id(f) == domain_id(g)
}

/// Tells whether `f` and `g` have the same endpoints, which is all that
/// distinguishes morphisms in this library.
pub fn same_endpoints<M: Morphism>(f: &M, g: &M) -> (same: bool)
    ensures
        same == parallel(*f, *g),
{
    let f_domain = f.domain().id();
    let g_domain = g.domain().id();
    let f_codomain = f.codomain().id();
    let g_codomain = g.codomain().id();
    f_domain == g_domain && f_codomain == g_codomain
}

/// Tells whether `g` starts where `f` arrives.
pub fn can_compose<M: Morphism>(f: &M, g: &M) -> (yes: bool)
    ensures
        yes == composable(*f, *g),
{
    let f_codomain = f.codomain().id();
    let g_domain = g.domain().id();
    f_codomain == g_domain
}

/// Some morphism of `ms` runs from `d` to `c`.
pub open spec fn has_between<M: Morphism>(ms: Seq<M>, d: Seq<char>, c: Seq<char>) -> bool {
    exists|k: int| 0 <= k < ms.len() && runs_between(#[trigger] ms[k], d, c)
}

/// `k` is the position of the earliest morphism of `ms` that runs from `d` to `c`.
pub open spec fn is_first_between<M: Morphism>(
    ms: Seq<M>,
    d: Seq<char>,
    c: Seq<char>,
    k: int,
) -> bool {
    &&& 0 <= k < ms.len()
    &&& runs_between(ms[k], d, c)
    &&& forall|j: int| 0 <= j < k ==> !runs_between(#[trigger] ms[j], d, c)
}

/// The position of the earliest morphism of `ms` that runs from `d` to `c`.
/// Meaningful only where `has_between(ms, d, c)` holds.
pub open spec fn first_between<M: Morphism>(ms: Seq<M>, d: Seq<char>, c: Seq<char>) -> int {
    choose|k: int| is_first_between(ms, d, c, k)
}

/// `k` is the position of the latest self-loop of `ms` at the object keyed `id`.
pub open spec fn is_last_loop_at<M: Morphism>(ms: Seq<M>, id: Seq<char>, k: int) -> bool {
    &&& 0 <= k < ms.len()
    &&& runs_between(ms[k], id, id)
    &&& forall|j: int| k < j < ms.len() ==> !runs_between(#[trigger] ms[j], id, id)
}

/// The position of the latest self-loop of `ms` at the object keyed `id`.
/// Meaningful only where `has_between(ms, id, id)` holds.
pub open spec fn last_loop_at<M: Morphism>(ms: Seq<M>, id: Seq<char>) -> int {
    choose|k: int| is_last_loop_at(ms, id, k)
}

/// The morphism registered as the identity of the object keyed `id`: the
/// latest self-loop at that object, if there is one.
pub open spec fn identity_in<M: Morphism>(ms: Seq<M>, id: Seq<char>) -> Option<M> {
    if has_between(ms, id, id) {
        Some(ms[last_loop_at(ms, id)])
    } else {
        None
    }
}

/// The morphism that answers for the endpoint pair `(d, c)`: the earliest
/// morphism between them, if there is one.
pub open spec fn morphism_in<M: Morphism>(ms: Seq<M>, d: Seq<char>, c: Seq<char>) -> Option<M> {
    if has_between(ms, d, c) {
        Some(ms[first_between(ms, d, c)])
    } else {
        None
    }
}

/// The morphism registered as "`g` after `f`".
///
/// A composite exists when both `f` and `g` have a representative in `ms`
/// (a morphism with the same endpoints), `g` starts where `f` arrives, and
/// some morphism runs from the domain of `f` to the codomain of `g`. The
/// composite is then the earliest such morphism.
pub open spec fn composite_in<M: Morphism>(ms: Seq<M>, f: M, g: M) -> Option<M> {
    if has_between(ms, domain_id(f), codomain_id(f)) && has_between(
        ms,
        domain_id(g),
        codomain_id(g),
    ) && composable(f, g) {
        morphism_in(ms, domain_id(f), codomain_id(g))
    } else {
        None
    }
}

/// At most one position is the earliest between two given endpoints.
pub proof fn lemma_first_between_unique<M: Morphism>(
    ms: Seq<M>,
    d: Seq<char>,
    c: Seq<char>,
    k1: int,
    k2: int,
)
    requires
        is_first_between(ms, d, c, k1),
        is_first_between(ms, d, c, k2),
    ensures
        k1 == k2,
{
    if k1 < k2 {
        assert(!runs_between(ms[k1], d, c));
    } else if k2 < k1 {
        assert(!runs_between(ms[k2], d, c));
    }
}

/// At most one position is the latest self-loop at a given object.
pub proof fn lemma_last_loop_unique<M: Morphism>(ms: Seq<M>, id: Seq<char>, k1: int, k2: int)
    requires
        is_last_loop_at(ms, id, k1),
        is_last_loop_at(ms, id, k2),
    ensures
        k1 == k2,
{
    if k1 < k2 {
        assert(!runs_between(ms[k2], id, id));
    } else if k2 < k1 {
        assert(!runs_between(ms[k1], id, id));
    }
}

/// Where some morphism runs between two endpoints, an earliest one does.
pub proof fn lemma_first_between_exists<M: Morphism>(ms: Seq<M>, d: Seq<char>, c: Seq<char>)
    requires
        has_between(ms, d, c),
    ensures
        is_first_between(ms, d, c, first_between(ms, d, c)),
{
    let w = choose|k: int| 0 <= k < ms.len() && runs_between(#[trigger] ms[k], d, c);
    lemma_first_upto(ms, d, c, w);
}

proof fn lemma_first_upto<M: Morphism>(ms: Seq<M>, d: Seq<char>, c: Seq<char>, w: int)
    requires
        0 <= w < ms.len(),
        runs_between(ms[w], d, c),
    ensures
        exists|k: int| is_first_between(ms, d, c, k),
    decreases w,
{
    if exists|j: int| 0 <= j < w && runs_between(#[trigger] ms[j], d, c) {
        let j = choose|j: int| 0 <= j < w && runs_between(#[trigger] ms[j], d, c);
        lemma_first_upto(ms, d, c, j);
    } else {
        assert(is_first_between(ms, d, c, w));
    }
}

/// What is registered between two endpoints runs between them.
pub proof fn lemma_morphism_in_runs_between<M: Morphism>(ms: Seq<M>, d: Seq<char>, c: Seq<char>)
    requires
        has_between(ms, d, c),
    ensures
        morphism_in(ms, d, c) is Some,
        runs_between(morphism_in(ms, d, c)->Some_0, d, c),
{
    lemma_first_between_exists(ms, d, c);
}

/// A registered identity is a self-loop at its object.
pub proof fn lemma_identity_is_self_loop<M: Morphism>(ms: Seq<M>, id: Seq<char>)
    requires
        has_between(ms, id, id),
    ensures
        identity_in(ms, id) is Some,
        runs_between(identity_in(ms, id)->Some_0, id, id),
{
    lemma_last_loop_exists(ms, id);
}

/// An object has a registered identity exactly when some self-loop sits at it.
pub proof fn lemma_identity_exists_iff<M: Morphism>(ms: Seq<M>, id: Seq<char>)
    ensures
        identity_in(ms, id) is Some <==> has_between(ms, id, id),
{
}

/// No composite is registered for two morphisms of which the second does
/// not start where the first arrives.
pub proof fn lemma_no_composite_across_a_gap<M: Morphism>(ms: Seq<M>, f: M, g: M)
    requires
        codomain_id(f) != domain_id(g),
    ensures
        composite_in(ms, f, g) is None,
{
}

/// A registered composite runs from the start of the first morphism to the
/// arrival of the second.
pub proof fn lemma_composite_runs_between<M: Morphism>(ms: Seq<M>, f: M, g: M)
    requires
        composite_in(ms, f, g) is Some,
    ensures
        composable(f, g),
        runs_between(composite_in(ms, f, g)->Some_0, domain_id(f), codomain_id(g)),
{
    lemma_first_between_exists(ms, domain_id(f), codomain_id(g));
}

/// The identity laws, as far as endpoints can tell: where `f` is represented
/// and an identity is registered at its start, "`f` after that identity" is
/// registered and has the endpoints of `f`; likewise for an identity at its
/// arrival and "that identity after `f`". In both cases the composite is the
/// morphism that answers for the endpoint pair of `f`.
pub proof fn lemma_identity_composes<M: Morphism>(ms: Seq<M>, f: M)
    requires
        has_between(ms, domain_id(f), codomain_id(f)),
    ensures
        has_between(ms, domain_id(f), domain_id(f)) ==> composite_in(
            ms,
            identity_in(ms, domain_id(f))->Some_0,
            f,
        ) == morphism_in(ms, domain_id(f), codomain_id(f)),
        has_between(ms, codomain_id(f), codomain_id(f)) ==> composite_in(
            ms,
            f,
            identity_in(ms, codomain_id(f))->Some_0,
        ) == morphism_in(ms, domain_id(f), codomain_id(f)),
        parallel(morphism_in(ms, domain_id(f), codomain_id(f))->Some_0, f),
{
    lemma_first_between_exists(ms, domain_id(f), codomain_id(f));
    if has_between(ms, domain_id(f), domain_id(f)) {
        lemma_last_loop_exists(ms, domain_id(f));
    }
    if has_between(ms, codomain_id(f), codomain_id(f)) {
        lemma_last_loop_exists(ms, codomain_id(f));
    }
}

/// Where some self-loop sits at an object, a latest one does.
pub proof fn lemma_last_loop_exists<M: Morphism>(ms: Seq<M>, id: Seq<char>)
    requires
        has_between(ms, id, id),
    ensures
        is_last_loop_at(ms, id, last_loop_at(ms, id)),
{
    let w = choose|k: int| 0 <= k < ms.len() && runs_between(#[trigger] ms[k], id, id);
    lemma_last_from(ms, id, w);
}

proof fn lemma_last_from<M: Morphism>(ms: Seq<M>, id: Seq<char>, w: int)
    requires
        0 <= w < ms.len(),
        runs_between(ms[w], id, id),
    ensures
        exists|k: int| is_last_loop_at(ms, id, k),
    decreases ms.len() - w,
{
    if exists|j: int| w < j < ms.len() && runs_between(#[trigger] ms[j], id, id) {
        let j = choose|j: int| w < j < ms.len() && runs_between(#[trigger] ms[j], id, id);
        lemma_last_from(ms, id, j);
    } else {
        assert(is_last_loop_at(ms, id, w));
    }
}

/// A category: objects, morphisms, an identity per object and a composition.
///
/// The `spec_*` functions say what a category holds, and the executable
/// methods return exactly that. An implementation states in them what its
/// methods return; without a statement nothing is known of a result. Which
/// checks stand behind `identity` and `compose` is up to the implementation.
pub trait Category: Clone {
    /// The objects of this category.
    type Ob: Object;

    /// The morphisms of this category.
    type Mor: Morphism<ObjectType = Self::Ob>;

    /// The objects, in the order `objects` returns them.
    open spec fn spec_objects(&self) -> Seq<Self::Ob> {
        arbitrary()
    }

    /// The morphisms, in the order `morphisms` returns them.
    open spec fn spec_morphisms(&self) -> Seq<Self::Mor> {
        arbitrary()
    }

    /// The identity morphism of `obj`, where the category has one.
    open spec fn spec_identity(&self, obj: Self::Ob) -> Option<Self::Mor> {
        arbitrary()
    }

    /// The composite "`g` after `f`", where the category has one.
    open spec fn spec_compose(&self, f: Self::Mor, g: Self::Mor) -> Option<Self::Mor> {
        arbitrary()
    }

    /// Returns all objects of this category.
    fn objects(&self) -> (objs: &[Self::Ob])
        ensures
            objs@ == self.spec_objects(),
    ;

    /// Returns all morphisms of this category.
    fn morphisms(&self) -> (mors: &[Self::Mor])
        ensures
            mors@ == self.spec_morphisms(),
    ;

    /// Returns the identity morphism of `obj`, or an error if there is none.
    fn identity(&self, obj: &Self::Ob) -> (res: Result<&Self::Mor, CategoryError>)
        ensures
            match res {
                Ok(m) => self.spec_identity(*obj) == Some(*m),
                Err(_) => self.spec_identity(*obj) is None,
            },
    ;

    /// Returns the composite "`g` after `f`", or an error if there is none.
    fn compose(&self, f: &Self::Mor, g: &Self::Mor) -> (res: Result<&Self::Mor, CategoryError>)
        ensures
            match res {
                Ok(m) => self.spec_compose(*f, *g) == Some(*m),
                Err(_) => self.spec_compose(*f, *g) is None,
            },
    ;

    /// Placeholder: associativity of composition is not checked, and the
    /// answer is always `true`.
    fn check_composition_associative(&self) -> (ok: bool)
        ensures
            ok,
    {
        true
    }

    /// Placeholder: the identity laws are not checked, and the answer is
    /// always `true`.
    fn check_identity_laws(&self) -> (ok: bool)
        ensures
            ok,
    {
        true
    }
}

/// The morphism positions that share one endpoint pair, in increasing order.
struct EndpointBucket {
    domain_id: String,
    codomain_id: String,
    indices: Vec<usize>,
}

/// `bucket` is the bucket of the endpoint pair of `m`.
spec fn keyed_for<M: Morphism>(bucket: EndpointBucket, m: M) -> bool {
    runs_between(m, bucket.domain_id@, bucket.codomain_id@)
}

/// `bucket` lists, in increasing order, exactly those of the first `n`
/// morphisms that run between its endpoints, and there is at least one.
spec fn bucket_lists<M: Morphism>(bucket: EndpointBucket, ms: Seq<M>, n: int) -> bool {
    &&& bucket.indices@.len() > 0
    &&& forall|t: int|
        0 <= t < bucket.indices@.len() ==> (#[trigger] bucket.indices@[t]) < n && keyed_for(
            bucket,
            ms[bucket.indices@[t] as int],
        )
    &&& forall|s: int, t: int|
        0 <= s < t < bucket.indices@.len() ==> (#[trigger] bucket.indices@[s]) < (
        #[trigger] bucket.indices@[t])
    &&& forall|k: int|
        0 <= k < n && keyed_for(bucket, #[trigger] ms[k]) ==> bucket.indices@.contains(k as usize)
}

/// The buckets partition the first `n` morphisms by endpoint pair.
spec fn buckets_indexed<M: Morphism>(buckets: Seq<EndpointBucket>, ms: Seq<M>, n: int) -> bool {
    &&& forall|b: int| 0 <= b < buckets.len() ==> bucket_lists(#[trigger] buckets[b], ms, n)
    &&& forall|a: int, b: int|
        0 <= a < b < buckets.len() ==> !((#[trigger] buckets[a]).domain_id@ == (
        #[trigger] buckets[b]).domain_id@ && buckets[a].codomain_id@ == buckets[b].codomain_id@)
    &&& forall|k: int|
        0 <= k < n ==> exists|b: int|
            0 <= b < buckets.len() && keyed_for(#[trigger] buckets[b], #[trigger] ms[k])
}

/// `k` is the position of the latest self-loop at `id` among the first `n` morphisms.
spec fn last_loop_before<M: Morphism>(ms: Seq<M>, n: int, id: Seq<char>, k: int) -> bool {
    &&& 0 <= k < n
    &&& runs_between(ms[k], id, id)
    &&& forall|j: int| k < j < n ==> !runs_between(#[trigger] ms[j], id, id)
}

/// `map` sends each key that has a self-loop among the first `n` morphisms to
/// the latest such self-loop, and holds no other key.
spec fn identities_indexed<M: Morphism>(map: Map<Seq<char>, usize>, ms: Seq<M>, n: int) -> bool {
    &&& forall|id: Seq<char>| #[trigger]
        map.contains_key(id) ==> last_loop_before(ms, n, id, map[id] as int)
    &&& forall|k: int|
        0 <= k < n && codomain_id(#[trigger] ms[k]) == domain_id(ms[k]) ==> map.contains_key(
            domain_id(ms[k]),
        )
}

/// Row `i` of the composition table, as far as its first `m` columns go:
/// column `j` is filled exactly where morphism `j` starts at the arrival of
/// morphism `i` and something runs from the start of `i` to the arrival of
/// `j`, and it then holds the earliest such morphism.
spec fn row_indexed<M: Morphism>(row: Map<usize, usize>, ms: Seq<M>, i: int, m: int) -> bool {
    &&& forall|j: int|
        0 <= j < m ==> {
            &&& row.contains_key(j as usize) <==> composable(ms[i], #[trigger] ms[j])
                && has_between(ms, domain_id(ms[i]), codomain_id(ms[j]))
            &&& row.contains_key(j as usize) ==> is_first_between(
                ms,
                domain_id(ms[i]),
                codomain_id(ms[j]),
                row[j as usize] as int,
            )
        }
    &&& forall|j: usize| #[trigger] row.contains_key(j) ==> j < m
}

/// The first `n` rows of the composition table are complete.
spec fn compositions_indexed<M: Morphism>(
    rows: Seq<HashMap<usize, usize>>,
    ms: Seq<M>,
    n: int,
) -> bool {
    &&& rows.len() == n
    &&& forall|i: int| 0 <= i < n ==> row_indexed((#[trigger] rows[i])@, ms, i, ms.len() as int)
}

/// The first entry of a bucket is the earliest morphism between its endpoints.
proof fn lemma_bucket_head_is_first<M: Morphism>(bucket: EndpointBucket, ms: Seq<M>)
    requires
        bucket_lists(bucket, ms, ms.len() as int),
    ensures
        is_first_between(ms, bucket.domain_id@, bucket.codomain_id@, bucket.indices@[0] as int),
{
    let head = bucket.indices@[0];
    assert(keyed_for(bucket, ms[head as int]));
    assert forall|j: int| 0 <= j < head implies !runs_between(
        #[trigger] ms[j],
        bucket.domain_id@,
        bucket.codomain_id@,
    ) by {
        if keyed_for(bucket, ms[j]) {
            assert(bucket.indices@.contains(j as usize));
            let t = choose|t: int| 0 <= t < bucket.indices@.len() && bucket.indices@[t] == j as usize;
            if t > 0 {
                assert(bucket.indices@[0] < bucket.indices@[t]);
            }
        }
    }
}

/// Where no bucket carries an endpoint pair, no morphism runs between them.
proof fn lemma_no_bucket_no_morphism<M: Morphism>(
    buckets: Seq<EndpointBucket>,
    ms: Seq<M>,
    d: Seq<char>,
    c: Seq<char>,
)
    requires
        buckets_indexed(buckets, ms, ms.len() as int),
        forall|b: int|
            0 <= b < buckets.len() ==> !((#[trigger] buckets[b]).domain_id@ == d
                && buckets[b].codomain_id@ == c),
    ensures
        !has_between(ms, d, c),
{
    if has_between(ms, d, c) {
        let k = choose|k: int| 0 <= k < ms.len() && runs_between(#[trigger] ms[k], d, c);
        let b = choose|b: int|
            0 <= b < buckets.len() && keyed_for(#[trigger] buckets[b], #[trigger] ms[k]);
        assert(buckets[b].domain_id@ == d && buckets[b].codomain_id@ == c);
    }
}

/// Returns the position of the bucket keyed `(d, c)`, if there is one.
fn find_bucket(buckets: &Vec<EndpointBucket>, d: &String, c: &String) -> (found: Option<usize>)
    ensures
        match found {
            Some(b) => b < buckets.len() && buckets[b as int].domain_id@ == d@
                && buckets[b as int].codomain_id@ == c@,
            None => forall|b: int|
                0 <= b < buckets.len() ==> !((#[trigger] buckets[b]).domain_id@ == d@
                    && buckets[b].codomain_id@ == c@),
        },
{
    let mut b: usize = 0;
    while b < buckets.len()
        invariant
            b <= buckets.len(),
            forall|a: int|
                0 <= a < b ==> !((#[trigger] buckets[a]).domain_id@ == d@ && buckets[a].codomain_id@
                    == c@),
        decreases buckets.len() - b,
    {
        if buckets[b].domain_id == *d && buckets[b].codomain_id == *c {
            return Some(b);
        }
        b += 1;
    }
    None
}

/// Returns the domain key and the codomain key of every morphism, in order.
fn endpoint_keys<M: Morphism>(morphisms: &Vec<M>) -> (keys: (Vec<String>, Vec<String>))
    ensures
        keys.0.len() == morphisms.len(),
        keys.1.len() == morphisms.len(),
        forall|k: int|
            0 <= k < morphisms.len() ==> (#[trigger] keys.0[k])@ == domain_id(morphisms[k]),
        forall|k: int|
            0 <= k < morphisms.len() ==> (#[trigger] keys.1[k])@ == codomain_id(morphisms[k]),
{
    let mut domains: Vec<String> = Vec::new();
    let mut codomains: Vec<String> = Vec::new();
    let mut i: usize = 0;
    while i < morphisms.len()
        invariant
            i <= morphisms.len(),
            domains.len() == i,
            codomains.len() == i,
            forall|k: int| 0 <= k < i ==> (#[trigger] domains[k])@ == domain_id(morphisms[k]),
            forall|k: int| 0 <= k < i ==> (#[trigger] codomains[k])@ == codomain_id(morphisms[k]),
        decreases morphisms.len() - i,
    {
        domains.push(morphisms[i].domain().id());
        codomains.push(morphisms[i].codomain().id());
        i += 1;
    }
    (domains, codomains)
}

/// Builds the identity table: every self-loop is entered under the key of its
/// object, a later one replacing an earlier one.
fn build_identity_map<M: Morphism>(
    morphisms: &Vec<M>,
    domains: &Vec<String>,
    codomains: &Vec<String>,
) -> (map: StringHashMap<usize>)
    requires
        domains.len() == morphisms.len(),
        codomains.len() == morphisms.len(),
        forall|k: int|
            0 <= k < morphisms.len() ==> (#[trigger] domains[k])@ == domain_id(morphisms[k]),
        forall|k: int|
            0 <= k < morphisms.len() ==> (#[trigger] codomains[k])@ == codomain_id(morphisms[k]),
    ensures
        identities_indexed(map@, morphisms@, morphisms.len() as int),
{
    let mut map: StringHashMap<usize> = StringHashMap::new();
    let mut i: usize = 0;
    while i < morphisms.len()
        invariant
            i <= morphisms.len(),
            domains.len() == morphisms.len(),
            codomains.len() == morphisms.len(),
            forall|k: int|
                0 <= k < morphisms.len() ==> (#[trigger] domains[k])@ == domain_id(morphisms[k]),
            forall|k: int|
                0 <= k < morphisms.len() ==> (#[trigger] codomains[k])@ == codomain_id(
                    morphisms[k],
                ),
            identities_indexed(map@, morphisms@, i as int),
        decreases morphisms.len() - i,
    {
        let ghost before = map@;
        let ghost ms = morphisms@;
        if domains[i] == codomains[i] {
            map.insert(domains[i].clone(), i);
            proof {
                let key = domain_id(ms[i as int]);
                assert(map@ == before.insert(key, i));
                assert forall|id: Seq<char>| #[trigger] map@.contains_key(id) implies last_loop_before(
                    ms,
                    i + 1,
                    id,
                    map@[id] as int,
                ) by {
                    if id != key {
                        assert(before.contains_key(id));
                        assert(last_loop_before(ms, i as int, id, before[id] as int));
                    }
                }
            }
        } else {
            proof {
                assert forall|id: Seq<char>| #[trigger] map@.contains_key(id) implies last_loop_before(
                    ms,
                    i + 1,
                    id,
                    map@[id] as int,
                ) by {
                    assert(last_loop_before(ms, i as int, id, before[id] as int));
                }
            }
        }
        i += 1;
    }
    map
}

/// Builds the endpoint table: every morphism position is appended to the
/// bucket of its endpoint pair, and a pair seen for the first time opens a
/// new bucket.
fn build_morphism_map<M: Morphism>(
    morphisms: &Vec<M>,
    domains: &Vec<String>,
    codomains: &Vec<String>,
) -> (buckets: Vec<EndpointBucket>)
    requires
        domains.len() == morphisms.len(),
        codomains.len() == morphisms.len(),
        forall|k: int|
            0 <= k < morphisms.len() ==> (#[trigger] domains[k])@ == domain_id(morphisms[k]),
        forall|k: int|
            0 <= k < morphisms.len() ==> (#[trigger] codomains[k])@ == codomain_id(morphisms[k]),
    ensures
        buckets_indexed(buckets@, morphisms@, morphisms.len() as int),
{
    let mut buckets: Vec<EndpointBucket> = Vec::new();
    let mut i: usize = 0;
    while i < morphisms.len()
        invariant
            i <= morphisms.len(),
            domains.len() == morphisms.len(),
            codomains.len() == morphisms.len(),
            forall|k: int|
                0 <= k < morphisms.len() ==> (#[trigger] domains[k])@ == domain_id(morphisms[k]),
            forall|k: int|
                0 <= k < morphisms.len() ==> (#[trigger] codomains[k])@ == codomain_id(
                    morphisms[k],
                ),
            buckets_indexed(buckets@, morphisms@, i as int),
        decreases morphisms.len() - i,
    {
        let ghost before = buckets@;
        let ghost ms = morphisms@;
        match find_bucket(&buckets, &domains[i], &codomains[i]) {
            Some(b) => {
                buckets[b].indices.push(i);
                proof {
                    lemma_bucket_extended(before, buckets@, ms, i as int, b as int);
                }
            },
            None => {
                let mut indices: Vec<usize> = Vec::new();
                indices.push(i);
                buckets.push(
                    EndpointBucket {
                        domain_id: domains[i].clone(),
                        codomain_id: codomains[i].clone(),
                        indices,
                    },
                );
                proof {
                    lemma_bucket_opened(before, buckets@, ms, i as int);
                }
            },
        }
        i += 1;
    }
    buckets
}

/// Appending position `i` to the bucket of its endpoint pair keeps the table
/// in step with one more morphism.
proof fn lemma_bucket_extended<M: Morphism>(
    before: Seq<EndpointBucket>,
    after: Seq<EndpointBucket>,
    ms: Seq<M>,
    i: int,
    b: int,
)
    requires
        0 <= i < ms.len(),
        i <= usize::MAX,
        0 <= b < before.len(),
        buckets_indexed(before, ms, i),
        keyed_for(before[b], ms[i]),
        after.len() == before.len(),
        after[b].domain_id == before[b].domain_id,
        after[b].codomain_id == before[b].codomain_id,
        after[b].indices@ == before[b].indices@.push(i as usize),
        forall|a: int| 0 <= a < before.len() && a != b ==> after[a] == before[a],
    ensures
        buckets_indexed(after, ms, i + 1),
{
    assert forall|a: int| 0 <= a < after.len() implies bucket_lists(
        #[trigger] after[a],
        ms,
        i + 1,
    ) by {
        assert(bucket_lists(before[a], ms, i));
        let old_ix = before[a].indices@;
        let new_ix = after[a].indices@;
        if a == b {
            assert forall|t: int| 0 <= t < new_ix.len() implies (#[trigger] new_ix[t]) < i + 1
                && keyed_for(after[a], ms[new_ix[t] as int]) by {
                if t < old_ix.len() {
                    assert(new_ix[t] == old_ix[t]);
                    assert(keyed_for(before[a], ms[old_ix[t] as int]));
                }
            }
            assert forall|s: int, t: int| 0 <= s < t < new_ix.len() implies (#[trigger] new_ix[s])
                < (#[trigger] new_ix[t]) by {
                assert(new_ix[s] == old_ix[s]);
                if t < old_ix.len() {
                    assert(new_ix[t] == old_ix[t]);
                }
            }
            assert forall|k: int| 0 <= k < i + 1 && keyed_for(
                after[a],
                #[trigger] ms[k],
            ) implies new_ix.contains(k as usize) by {
                if k < i {
                    assert(keyed_for(before[a], ms[k]));
                    assert(old_ix.contains(k as usize));
                    let t = choose|t: int| 0 <= t < old_ix.len() && old_ix[t] == k as usize;
                    assert(new_ix[t] == k as usize);
                } else {
                    assert(new_ix[old_ix.len() as int] == k as usize);
                }
            }
        } else {
            assert forall|t: int| 0 <= t < new_ix.len() implies (#[trigger] new_ix[t]) < i + 1
                && keyed_for(after[a], ms[new_ix[t] as int]) by {
                assert(keyed_for(before[a], ms[old_ix[t] as int]));
            }
            assert forall|k: int| 0 <= k < i + 1 && keyed_for(
                after[a],
                #[trigger] ms[k],
            ) implies new_ix.contains(k as usize) by {
                if k < i {
                    assert(keyed_for(before[a], ms[k]));
                } else {
                    // Position `i` belongs to bucket `b`, and no other bucket has its key.
                    if a < b {
                        assert(!(before[a].domain_id@ == before[b].domain_id@
                            && before[a].codomain_id@ == before[b].codomain_id@));
                    } else {
                        assert(!(before[b].domain_id@ == before[a].domain_id@
                            && before[b].codomain_id@ == before[a].codomain_id@));
                    }
                }
            }
        }
    }
    assert forall|x: int, y: int| 0 <= x < y < after.len() implies !((#[trigger] after[x]).domain_id@
        == (#[trigger] after[y]).domain_id@ && after[x].codomain_id@ == after[y].codomain_id@) by {
        assert(!(before[x].domain_id@ == before[y].domain_id@ && before[x].codomain_id@
            == before[y].codomain_id@));
    }
    assert forall|k: int| 0 <= k < i + 1 implies exists|a: int|
        0 <= a < after.len() && keyed_for(#[trigger] after[a], #[trigger] ms[k]) by {
        if k < i {
            let a = choose|a: int|
                0 <= a < before.len() && keyed_for(#[trigger] before[a], #[trigger] ms[k]);
            assert(keyed_for(after[a], ms[k]));
        } else {
            assert(keyed_for(after[b], ms[k]));
        }
    }
}

/// Opening a bucket for position `i`, whose endpoint pair no bucket carries
/// yet, keeps the table in step with one more morphism.
proof fn lemma_bucket_opened<M: Morphism>(
    before: Seq<EndpointBucket>,
    after: Seq<EndpointBucket>,
    ms: Seq<M>,
    i: int,
)
    requires
        0 <= i < ms.len(),
        i <= usize::MAX,
        buckets_indexed(before, ms, i),
        forall|b: int| 0 <= b < before.len() ==> !keyed_for(#[trigger] before[b], ms[i]),
        after.len() == before.len() + 1,
        forall|a: int| 0 <= a < before.len() ==> after[a] == before[a],
        keyed_for(after[before.len() as int], ms[i]),
        after[before.len() as int].indices@ == seq![i as usize],
    ensures
        buckets_indexed(after, ms, i + 1),
{
    let last = before.len() as int;
    assert forall|a: int| 0 <= a < after.len() implies bucket_lists(
        #[trigger] after[a],
        ms,
        i + 1,
    ) by {
        let new_ix = after[a].indices@;
        if a == last {
            assert forall|k: int| 0 <= k < i + 1 && keyed_for(
                after[a],
                #[trigger] ms[k],
            ) implies new_ix.contains(k as usize) by {
                if k < i {
                    let w = choose|w: int|
                        0 <= w < before.len() && keyed_for(#[trigger] before[w], #[trigger] ms[k]);
                    assert(keyed_for(before[w], ms[i]));
                } else {
                    assert(new_ix[0] == k as usize);
                }
            }
        } else {
            assert(bucket_lists(before[a], ms, i));
            assert forall|t: int| 0 <= t < new_ix.len() implies (#[trigger] new_ix[t]) < i + 1
                && keyed_for(after[a], ms[new_ix[t] as int]) by {
                assert(keyed_for(before[a], ms[before[a].indices@[t] as int]));
            }
            assert forall|k: int| 0 <= k < i + 1 && keyed_for(
                after[a],
                #[trigger] ms[k],
            ) implies new_ix.contains(k as usize) by {
                if k < i {
                    assert(keyed_for(before[a], ms[k]));
                }
            }
        }
    }
    assert forall|x: int, y: int| 0 <= x < y < after.len() implies !((#[trigger] after[x]).domain_id@
        == (#[trigger] after[y]).domain_id@ && after[x].codomain_id@ == after[y].codomain_id@) by {
        if y < last {
            assert(!(before[x].domain_id@ == before[y].domain_id@ && before[x].codomain_id@
                == before[y].codomain_id@));
        } else {
            assert(!keyed_for(before[x], ms[i]));
        }
    }
    assert forall|k: int| 0 <= k < i + 1 implies exists|a: int|
        0 <= a < after.len() && keyed_for(#[trigger] after[a], #[trigger] ms[k]) by {
        if k < i {
            let a = choose|a: int|
                0 <= a < before.len() && keyed_for(#[trigger] before[a], #[trigger] ms[k]);
            assert(keyed_for(after[a], ms[k]));
        } else {
            assert(keyed_for(after[last], ms[k]));
        }
    }
}

/// Builds the composition table: for every pair of morphisms `(i, j)` in
/// which `j` starts where `i` arrives, the earliest morphism from the start
/// of `i` to the arrival of `j` is entered as their composite, if the
/// endpoint table has one.
fn build_composition_map<M: Morphism>(
    morphisms: &Vec<M>,
    domains: &Vec<String>,
    codomains: &Vec<String>,
    buckets: &Vec<EndpointBucket>,
) -> (rows: Vec<HashMap<usize, usize>>)
    requires
        domains.len() == morphisms.len(),
        codomains.len() == morphisms.len(),
        forall|k: int|
            0 <= k < morphisms.len() ==> (#[trigger] domains[k])@ == domain_id(morphisms[k]),
        forall|k: int|
            0 <= k < morphisms.len() ==> (#[trigger] codomains[k])@ == codomain_id(morphisms[k]),
        buckets_indexed(buckets@, morphisms@, morphisms.len() as int),
    ensures
        compositions_indexed(rows@, morphisms@, morphisms.len() as int),
{
    let n = morphisms.len();
    let ghost ms = morphisms@;
    let mut rows: Vec<HashMap<usize, usize>> = Vec::new();
    let mut i: usize = 0;
    while i < n
        invariant
            n == morphisms.len(),
            ms == morphisms@,
            i <= n,
            domains.len() == n,
            codomains.len() == n,
            forall|k: int| 0 <= k < n ==> (#[trigger] domains[k])@ == domain_id(ms[k]),
            forall|k: int| 0 <= k < n ==> (#[trigger] codomains[k])@ == codomain_id(ms[k]),
            buckets_indexed(buckets@, ms, n as int),
            compositions_indexed(rows@, ms, i as int),
        decreases n - i,
    {
        let mut row: HashMap<usize, usize> = HashMap::new();
        let mut j: usize = 0;
        while j < n
            invariant
                n == morphisms.len(),
                ms == morphisms@,
                i < n,
                j <= n,
                domains.len() == n,
                codomains.len() == n,
                forall|k: int| 0 <= k < n ==> (#[trigger] domains[k])@ == domain_id(ms[k]),
                forall|k: int| 0 <= k < n ==> (#[trigger] codomains[k])@ == codomain_id(ms[k]),
                buckets_indexed(buckets@, ms, n as int),
                row_indexed(row@, ms, i as int, j as int),
            decreases n - j,
        {
            let ghost before = row@;
            if codomains[i] == domains[j] {
                match find_bucket(buckets, &domains[i], &codomains[j]) {
                    Some(b) => {
                        proof {
                            assert(bucket_lists(buckets@[b as int], ms, n as int));
                            lemma_bucket_head_is_first(buckets@[b as int], ms);
                        }
                        if buckets[b].indices.len() > 0 {
                            row.insert(j, buckets[b].indices[0]);
                        }
                    },
                    None => {
                        proof {
                            lemma_no_bucket_no_morphism(
                                buckets@,
                                ms,
                                domain_id(ms[i as int]),
                                codomain_id(ms[j as int]),
                            );
                        }
                    },
                }
            }
            proof {
                assert forall|k: int| 0 <= k < j + 1 implies {
                    &&& row@.contains_key(k as usize) <==> composable(ms[i as int], #[trigger] ms[k])
                        && has_between(ms, domain_id(ms[i as int]), codomain_id(ms[k]))
                    &&& row@.contains_key(k as usize) ==> is_first_between(
                        ms,
                        domain_id(ms[i as int]),
                        codomain_id(ms[k]),
                        row@[k as usize] as int,
                    )
                } by {
                    if k < j {
                        assert(before.contains_key(k as usize) == row@.contains_key(k as usize));
                    }
                }
            }
            j += 1;
        }
        rows.push(row);
        i += 1;
    }
    rows
}

/// A finite category given by explicit lists of objects and morphisms.
///
/// Three lookup tables are derived from the morphism list when the category
/// is built and never change afterwards: the identity of each object (its
/// latest self-loop), the morphisms of each endpoint pair in list order, and
/// the composite of each pair of morphisms. Every query is answered from
/// these tables, and its result is a function of the morphism list alone.
#[verifier::reject_recursive_types(O)]
pub struct FinCategory<O: Object, M: Morphism<ObjectType = O>> {
    name: String,
    objects: Vec<O>,
    morphisms: Vec<M>,
    /// Object key to the position of its identity morphism.
    identity_map: StringHashMap<usize>,
    /// Endpoint pair to the positions of the morphisms between them.
    morphism_map: Vec<EndpointBucket>,
    /// Row `i`, column `j`: the position of the composite "`j` after `i`".
    composition_map: Vec<HashMap<usize, usize>>,
}

/// `list` holds, in increasing order, exactly the positions of the
/// morphisms of `ms` that run from `d` to `c`.
pub open spec fn lists_all_between<M: Morphism>(
    ms: Seq<M>,
    d: Seq<char>,
    c: Seq<char>,
    list: Seq<usize>,
) -> bool {
    &&& forall|t: int|
        0 <= t < list.len() ==> (#[trigger] list[t]) < ms.len() && runs_between(
            ms[list[t] as int],
            d,
            c,
        )
    &&& forall|s: int, t: int| 0 <= s < t < list.len() ==> (#[trigger] list[s]) < (#[trigger] list[t])
    &&& forall|k: int|
        0 <= k < ms.len() && runs_between(#[trigger] ms[k], d, c) ==> list.contains(k as usize)
}

/// `bucket` is the bucket of the endpoint pair `key`.
spec fn bucket_has_key(bucket: EndpointBucket, key: (Seq<char>, Seq<char>)) -> bool {
    bucket.domain_id@ == key.0 && bucket.codomain_id@ == key.1
}

/// The detail carried by the error for a failed composition of a morphism
/// from `fd` to `fc` with a morphism from `gd` to `gc`.
pub open spec fn composition_mismatch_detail(
    fd: Seq<char>,
    fc: Seq<char>,
    gd: Seq<char>,
    gc: Seq<char>,
) -> Seq<char> {
    "Cannot compose morphism from "@ + fd + " to "@ + fc + " with morphism from "@ + gd + " to "@
        + gc
}

impl<O: Object, M: Morphism<ObjectType = O>> FinCategory<O, M> {
    /// The three tables agree with the morphism list.
    #[verifier::type_invariant]
    spec fn tables_agree(self) -> bool {
        &&& identities_indexed(self.identity_map@, self.morphisms@, self.morphisms@.len() as int)
        &&& buckets_indexed(self.morphism_map@, self.morphisms@, self.morphisms@.len() as int)
        &&& compositions_indexed(
            self.composition_map@,
            self.morphisms@,
            self.morphisms@.len() as int,
        )
    }

    /// The name this category was built with.
    pub closed spec fn spec_name(&self) -> Seq<char> {
        self.name@
    }

    /// The identity table: object key to the position of a morphism.
    pub closed spec fn spec_identity_map(&self) -> Map<Seq<char>, usize> {
        self.identity_map@
    }

    /// The endpoint table: pair of object keys to a list of morphism
    /// positions.
    pub closed spec fn spec_morphism_map(&self) -> Map<(Seq<char>, Seq<char>), Seq<usize>> {
        Map::new(
            |key: (Seq<char>, Seq<char>)|
                exists|b: int|
                    0 <= b < self.morphism_map@.len() && bucket_has_key(
                        #[trigger] self.morphism_map@[b],
                        key,
                    ),
            |key: (Seq<char>, Seq<char>)|
                self.morphism_map@[choose|b: int|
                    0 <= b < self.morphism_map@.len() && bucket_has_key(
                        #[trigger] self.morphism_map@[b],
                        key,
                    )].indices@,
        )
    }

    /// The composition table: pair of morphism positions to the position of
    /// a morphism.
    pub closed spec fn spec_composition_map(&self) -> Map<(usize, usize), usize> {
        Map::new(
            |pair: (usize, usize)|
                pair.0 < self.composition_map@.len() && self.composition_map@[pair.0 as int]@.contains_key(
                    pair.1,
                ),
            |pair: (usize, usize)| self.composition_map@[pair.0 as int]@[pair.1],
        )
    }

    /// What the three tables hold, in terms of the morphism list.
    ///
    /// The identity table has an entry for exactly the keys at which some
    /// self-loop sits, and the entry is the latest such self-loop. The
    /// endpoint table has an entry for exactly the pairs of keys between
    /// which some morphism runs, and the entry lists all such morphisms in
    /// list order. The composition table has an entry for exactly the pairs
    /// of morphisms `(i, j)` in which `j` starts where `i` arrives and some
    /// morphism runs from the start of `i` to the arrival of `j`, and the
    /// entry is the earliest such morphism.
    pub open spec fn tables_index_morphisms(&self) -> bool {
        let ms = self.spec_morphisms();
        &&& forall|id: Seq<char>|
            #![trigger self.spec_identity_map().contains_key(id)]
            #![trigger has_between(ms, id, id)]
            self.spec_identity_map().contains_key(id) <==> has_between(ms, id, id)
        &&& forall|id: Seq<char>| #[trigger]
            self.spec_identity_map().contains_key(id) ==> is_last_loop_at(
                ms,
                id,
                self.spec_identity_map()[id] as int,
            )
        &&& forall|d: Seq<char>, c: Seq<char>|
            #![trigger self.spec_morphism_map().contains_key((d, c))]
            #![trigger has_between(ms, d, c)]
            self.spec_morphism_map().contains_key((d, c)) <==> has_between(ms, d, c)
        &&& forall|d: Seq<char>, c: Seq<char>| #[trigger]
            self.spec_morphism_map().contains_key((d, c)) ==> lists_all_between(
                ms,
                d,
                c,
                self.spec_morphism_map()[(d, c)],
            )
        &&& forall|i: usize, j: usize| #[trigger]
            self.spec_composition_map().contains_key((i, j)) <==> i < ms.len() && j < ms.len()
                && composable(ms[i as int], ms[j as int]) && has_between(
                ms,
                domain_id(ms[i as int]),
                codomain_id(ms[j as int]),
            )
        &&& forall|i: usize, j: usize| #[trigger]
            self.spec_composition_map().contains_key((i, j)) ==> is_first_between(
                ms,
                domain_id(ms[i as int]),
                codomain_id(ms[j as int]),
                self.spec_composition_map()[(i, j)] as int,
            )
    }

    /// Builds the category that holds exactly the given objects and
    /// morphisms, in the given order, and derives its lookup tables. The
    /// cost is quadratic in the number of morphisms.
    pub fn new(name: String, objects: Vec<O>, morphisms: Vec<M>) -> (cat: Self)
        ensures
            cat.spec_name() == name@,
            cat.spec_objects() == objects@,
            cat.spec_morphisms() == morphisms@,
            cat.tables_index_morphisms(),
    {
        let (domains, codomains) = endpoint_keys(&morphisms);
        let identity_map = build_identity_map(&morphisms, &domains, &codomains);
        let morphism_map = build_morphism_map(&morphisms, &domains, &codomains);
        let composition_map = build_composition_map(&morphisms, &domains, &codomains, &morphism_map);
        let cat = FinCategory { name, objects, morphisms, identity_map, morphism_map, composition_map };
        proof {
            cat.lemma_tables_index_morphisms();
        }
        cat
    }

    /// The tables of a category whose tables agree with its morphism list
    /// hold what `tables_index_morphisms` says.
    proof fn lemma_tables_index_morphisms(&self)
        requires
            self.tables_agree(),
        ensures
            self.tables_index_morphisms(),
    {
        let ms = self.morphisms@;
        let n = ms.len() as int;
        let buckets = self.morphism_map@;
        let rows = self.composition_map@;
        assert forall|id: Seq<char>| has_between(ms, id, id) implies self.identity_map@.contains_key(
            id,
        ) by {
            let k = choose|k: int| 0 <= k < ms.len() && runs_between(#[trigger] ms[k], id, id);
            assert(self.identity_map@.contains_key(domain_id(ms[k])));
        }
        assert forall|id: Seq<char>| #[trigger]
            self.identity_map@.contains_key(id) implies has_between(ms, id, id) && is_last_loop_at(
            ms,
            id,
            self.identity_map@[id] as int,
        ) by {
            assert(last_loop_before(ms, n, id, self.identity_map@[id] as int));
        }
        assert forall|d: Seq<char>, c: Seq<char>|
            has_between(ms, d, c) implies self.spec_morphism_map().contains_key((d, c)) by {
            let k = choose|k: int| 0 <= k < ms.len() && runs_between(#[trigger] ms[k], d, c);
            let b = choose|b: int|
                0 <= b < buckets.len() && keyed_for(#[trigger] buckets[b], #[trigger] ms[k]);
            assert(bucket_has_key(buckets[b], (d, c)));
        }
        assert forall|d: Seq<char>, c: Seq<char>| #[trigger]
            self.spec_morphism_map().contains_key((d, c)) implies has_between(ms, d, c)
            && lists_all_between(ms, d, c, self.spec_morphism_map()[(d, c)]) by {
            let b = choose|b: int|
                0 <= b < buckets.len() && bucket_has_key(#[trigger] buckets[b], (d, c));
            let bucket = buckets[b];
            assert(bucket_lists(bucket, ms, n));
            assert(self.spec_morphism_map()[(d, c)] == bucket.indices@);
            let list = bucket.indices@;
            assert(keyed_for(bucket, ms[list[0] as int]));
            assert forall|t: int| 0 <= t < list.len() implies (#[trigger] list[t]) < ms.len()
                && runs_between(ms[list[t] as int], d, c) by {
                assert(keyed_for(bucket, ms[list[t] as int]));
            }
            assert forall|k: int|
                0 <= k < ms.len() && runs_between(#[trigger] ms[k], d, c) implies list.contains(
                k as usize,
            ) by {
                assert(keyed_for(bucket, ms[k]));
            }
        }
        assert forall|i: usize, j: usize| #[trigger]
            self.spec_composition_map().contains_key((i, j)) implies i < ms.len() && j < ms.len()
            && composable(ms[i as int], ms[j as int]) && has_between(
            ms,
            domain_id(ms[i as int]),
            codomain_id(ms[j as int]),
        ) && is_first_between(
            ms,
            domain_id(ms[i as int]),
            codomain_id(ms[j as int]),
            self.spec_composition_map()[(i, j)] as int,
        ) by {
            assert(row_indexed(rows[i as int]@, ms, i as int, n));
            assert(rows[i as int]@.contains_key(j));
            assert(composable(ms[i as int], ms[j as int]));
        }
        assert forall|i: usize, j: usize|
            i < ms.len() && j < ms.len() && composable(ms[i as int], ms[j as int]) && has_between(
                ms,
                domain_id(ms[i as int]),
                codomain_id(ms[j as int]),
            ) implies #[trigger] self.spec_composition_map().contains_key((i, j)) by {
            assert(row_indexed(rows[i as int]@, ms, i as int, n));
            assert(composable(ms[i as int], ms[j as int]));
            assert(rows[i as int]@.contains_key(j as int as usize));
        }
    }

    /// Returns the name of this category.
    pub fn name(&self) -> (name: &str)
        ensures
            name@ == self.spec_name(),
    {
        self.name.as_str()
    }

    /// Returns the earliest morphism that runs from `domain` to `codomain`,
    /// or `None` if no morphism does.
    pub fn find_morphism(&self, domain: &O, codomain: &O) -> (found: Option<&M>)
        ensures
            match found {
                Some(m) => morphism_in(self.spec_morphisms(), domain.spec_id(), codomain.spec_id())
                    == Some(*m),
                None => morphism_in(self.spec_morphisms(), domain.spec_id(), codomain.spec_id())
                    is None,
            },
    {
        proof {
            use_type_invariant(self);
        }
        let domain_id = domain.id();
        let codomain_id = codomain.id();
        match find_bucket(&self.morphism_map, &domain_id, &codomain_id) {
            Some(b) => {
                proof {
                    let ms = self.morphisms@;
                    assert(bucket_lists(self.morphism_map@[b as int], ms, ms.len() as int));
                    lemma_bucket_head_is_first(self.morphism_map@[b as int], ms);
                    lemma_first_between_exists(ms, domain_id@, codomain_id@);
                    lemma_first_between_unique(
                        ms,
                        domain_id@,
                        codomain_id@,
                        first_between(ms, domain_id@, codomain_id@),
                        self.morphism_map@[b as int].indices@[0] as int,
                    );
                }
                if self.morphism_map[b].indices.len() > 0 {
                    return Some(&self.morphisms[self.morphism_map[b].indices[0]]);
                }
            },
            None => {
                proof {
                    lemma_no_bucket_no_morphism(
                        self.morphism_map@,
                        self.morphisms@,
                        domain_id@,
                        codomain_id@,
                    );
                }
            },
        }
        None
    }

    /// Returns the position of the earliest morphism with the endpoints of `f`.
    fn position_of(&self, f: &M) -> (found: Option<usize>)
        ensures
            match found {
                Some(k) => is_first_between(
                    self.spec_morphisms(),
                    domain_id(*f),
                    codomain_id(*f),
                    k as int,
                ),
                None => !has_between(self.spec_morphisms(), domain_id(*f), codomain_id(*f)),
            },
    {
        let d = f.domain().id();
        let c = f.codomain().id();
        let mut k: usize = 0;
        while k < self.morphisms.len()
            invariant
                k <= self.morphisms.len(),
                d@ == domain_id(*f),
                c@ == codomain_id(*f),
                forall|j: int| 0 <= j < k ==> !runs_between(#[trigger] self.morphisms@[j], d@, c@),
            decreases self.morphisms.len() - k,
        {
            let md = self.morphisms[k].domain().id();
            let mc = self.morphisms[k].codomain().id();
            if md == d && mc == c {
                return Some(k);
            }
            k += 1;
        }
        None
    }
}

impl<O: Object, M: Morphism<ObjectType = O>> Category for FinCategory<O, M> {
    type Ob = O;

    type Mor = M;

    closed spec fn spec_objects(&self) -> Seq<O> {
        self.objects@
    }

    closed spec fn spec_morphisms(&self) -> Seq<M> {
        self.morphisms@
    }

    /// The latest self-loop at the key of `obj`.
    open spec fn spec_identity(&self, obj: O) -> Option<M> {
        identity_in(self.spec_morphisms(), obj.spec_id())
    }

    /// The earliest morphism from the start of `f` to the arrival of `g`,
    /// provided `f` and `g` are represented and `g` starts where `f` arrives.
    open spec fn spec_compose(&self, f: M, g: M) -> Option<M> {
        composite_in(self.spec_morphisms(), f, g)
    }

    fn objects(&self) -> (objs: &[O]) {
        self.objects.as_slice()
    }

    fn morphisms(&self) -> (mors: &[M]) {
        self.morphisms.as_slice()
    }

    /// Returns the self-loop registered for the key of `obj`. Fails with
    /// `IdentityNotFound`, carrying that key, exactly when the category has
    /// no self-loop at `obj`.
    fn identity(&self, obj: &O) -> (res: Result<&M, CategoryError>)
        ensures
            match res {
                Ok(m) => runs_between(*m, obj.spec_id(), obj.spec_id()),
                Err(e) => e matches CategoryError::IdentityNotFound(key) && key@ == obj.spec_id(),
            },
    {
        proof {
            use_type_invariant(self);
        }
        let id = obj.id();
        let ghost ms = self.morphisms@;
        match self.identity_map.get(id.as_str()) {
            Some(idx) => {
                proof {
                    assert(last_loop_before(ms, ms.len() as int, id@, *idx as int));
                    assert(is_last_loop_at(ms, id@, *idx as int));
                    assert(runs_between(ms[*idx as int], id@, id@));
                    lemma_last_loop_exists(ms, id@);
                    lemma_last_loop_unique(ms, id@, last_loop_at(ms, id@), *idx as int);
                }
                Ok(&self.morphisms[*idx])
            },
            None => {
                proof {
                    if has_between(ms, id@, id@) {
                        let k = choose|k: int|
                            0 <= k < ms.len() && runs_between(#[trigger] ms[k], id@, id@);
                        assert(self.identity_map@.contains_key(domain_id(ms[k])));
                    }
                }
                Err(CategoryError::IdentityNotFound(id))
            },
        }
    }

    /// Returns the morphism registered as "`g` after `f`". Both arguments
    /// are first resolved to the earliest morphism with the same endpoints.
    /// Fails with `CompositionMismatch` exactly when no composite is
    /// registered, which includes every pair in which `g` does not start
    /// where `f` arrives.
    fn compose(&self, f: &M, g: &M) -> (res: Result<&M, CategoryError>)
        ensures
            !composable(*f, *g) ==> res is Err,
            match res {
                Ok(m) => runs_between(*m, domain_id(*f), codomain_id(*g)),
                Err(e) => e matches CategoryError::CompositionMismatch(detail) && detail@
                    == composition_mismatch_detail(
                    domain_id(*f),
                    codomain_id(*f),
                    domain_id(*g),
                    codomain_id(*g),
                ),
            },
    {
        proof {
            use_type_invariant(self);
        }
        let ghost ms = self.morphisms@;
        let f_idx = self.position_of(f);
        let g_idx = self.position_of(g);
        if let Some(fi) = f_idx {
            if let Some(gi) = g_idx {
                proof {
                    assert(row_indexed(
                        self.composition_map@[fi as int]@,
                        ms,
                        fi as int,
                        ms.len() as int,
                    ));
                    assert(has_between(ms, domain_id(*f), codomain_id(*f)));
                    assert(has_between(ms, domain_id(*g), codomain_id(*g)));
                    assert(composable(ms[fi as int], ms[gi as int]) == composable(*f, *g));
                }
                if let Some(k) = self.composition_map[fi].get(&gi) {
                    proof {
                        let d = domain_id(*f);
                        let c = codomain_id(*g);
                        assert(is_first_between(ms, d, c, *k as int));
                        lemma_first_between_exists(ms, d, c);
                        lemma_first_between_unique(ms, d, c, first_between(ms, d, c), *k as int);
                    }
                    return Ok(&self.morphisms[*k]);
                }
            }
        }
        let mut detail = "Cannot compose morphism from ".to_owned();
        detail.append(f.domain().id().as_str());
        detail.append(" to ");
        detail.append(f.codomain().id().as_str());
        detail.append(" with morphism from ");
        detail.append(g.domain().id().as_str());
        detail.append(" to ");
        detail.append(g.codomain().id().as_str());
        Err(CategoryError::CompositionMismatch(detail))
    }
}

impl<O: Object, M: Morphism<ObjectType = O>> Clone for FinCategory<O, M> {
    /// Builds a category from copies of the name, the objects and the
    /// morphisms, deriving the tables afresh. The copy holds a clone of
    /// each object and of each morphism, in the same order.
    fn clone(&self) -> (copy: Self)
        ensures
            copy.spec_name() == self.spec_name(),
            copy.spec_objects().len() == self.spec_objects().len(),
            forall|i: int|
                0 <= i < self.spec_objects().len() ==> cloned(
                    self.spec_objects()[i],
                    #[trigger] copy.spec_objects()[i],
                ),
            copy.spec_morphisms().len() == self.spec_morphisms().len(),
            forall|i: int|
                0 <= i < self.spec_morphisms().len() ==> cloned(
                    self.spec_morphisms()[i],
                    #[trigger] copy.spec_morphisms()[i],
                ),
    {
        FinCategory::new(self.name.clone(), self.objects.clone(), self.morphisms.clone())
    }
}

} // verus!
