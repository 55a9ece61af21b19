//! Functors between categories and natural transformations between functors,
//! with executable checks of the laws they are meant to obey.
//!
//! Morphisms are compared by their endpoints, as everywhere in this library:
//! an equation between two morphisms of the target category is taken to hold
//! when both sides run between the same two objects. The checks are therefore
//! necessary conditions. They cannot tell apart two morphisms that share both
//! endpoints.
use crate::category::{
    can_compose, composable, parallel, same_endpoints, Category, CategoryError, Morphism,
};
use vstd::prelude::*;

verus! {

/// A structure-preserving mapping from one category to another.
///
/// Both mappings are functions of their argument alone: `spec_map_object` and
/// `spec_map_morphism` say what they return. An implementation states there
/// what its mappings do; without a statement nothing is known of an image.
pub trait Functor {
    /// The category mapped from.
    type Source: Category;

    /// The category mapped to.
    type Target: Category;

    /// The image of an object.
    open spec fn spec_map_object(&self, obj: <Self::Source as Category>::Ob) -> <
        Self::Target as Category
    >::Ob {
        arbitrary()
    }

    /// The image of a morphism, or the reason why it has none.
    open spec fn spec_map_morphism(&self, morph: <Self::Source as Category>::Mor) -> Result<
        <Self::Target as Category>::Mor,
        CategoryError,
    > {
        arbitrary()
    }

    /// Maps an object of the source category to the target category.
    fn map_object(&self, obj: &<Self::Source as Category>::Ob) -> (image: <
        Self::Target as Category
    >::Ob)
        ensures
            image == self.spec_map_object(*obj),
    ;

    /// Maps a morphism of the source category to the target category. Fails
    /// where the mapping cannot produce a target morphism.
    fn map_morphism(&self, morph: &<Self::Source as Category>::Mor) -> (image: Result<
        <Self::Target as Category>::Mor,
        CategoryError,
    >)
        ensures
            image == self.spec_map_morphism(*morph),
    ;
}

/// The image of "`g` after `f`" has the endpoints of "image of `g` after
/// image of `f`", and all five morphisms involved exist.
pub open spec fn preserves_composite<F: Functor>(
    functor: &F,
    source: &F::Source,
    target: &F::Target,
    f: <F::Source as Category>::Mor,
    g: <F::Source as Category>::Mor,
) -> bool {
    match (source.spec_compose(f, g), functor.spec_map_morphism(f), functor.spec_map_morphism(g)) {
        (Some(h), Ok(image_f), Ok(image_g)) => match (
            functor.spec_map_morphism(h),
            target.spec_compose(image_f, image_g),
        ) {
            (Ok(image_h), Some(composite)) => parallel(image_h, composite),
            _ => false,
        },
        _ => false,
    }
}

/// The image of the identity of `obj` has the endpoints of the identity of
/// the image of `obj`, and both identities and the image exist.
pub open spec fn preserves_identity<F: Functor>(
    functor: &F,
    source: &F::Source,
    target: &F::Target,
    obj: <F::Source as Category>::Ob,
) -> bool {
    match source.spec_identity(obj) {
        Some(identity) => match (
            functor.spec_map_morphism(identity),
            target.spec_identity(functor.spec_map_object(obj)),
        ) {
            (Ok(image), Some(target_identity)) => parallel(image, target_identity),
            _ => false,
        },
        None => false,
    }
}

/// The functor laws: composition is preserved at every pair of morphisms of
/// `source` in which the second starts where the first arrives, and the
/// identity is preserved at every object of `source`.
pub open spec fn preserves_structure<F: Functor>(
    functor: &F,
    source: &F::Source,
    target: &F::Target,
) -> bool {
    &&& forall|i: int, j: int|
        0 <= i < source.spec_morphisms().len() && 0 <= j < source.spec_morphisms().len()
            && composable(
            #[trigger] source.spec_morphisms()[i],
            #[trigger] source.spec_morphisms()[j],
        ) ==> preserves_composite(
            functor,
            source,
            target,
            source.spec_morphisms()[i],
            source.spec_morphisms()[j],
        )
    &&& forall|a: int|
        0 <= a < source.spec_objects().len() ==> preserves_identity(
            functor,
            source,
            target,
            #[trigger] source.spec_objects()[a],
        )
}

/// Checks the composition law of `functor` at one pair of morphisms.
pub fn composite_is_preserved<F: Functor>(
    functor: &F,
    source: &F::Source,
    target: &F::Target,
    f: &<F::Source as Category>::Mor,
    g: &<F::Source as Category>::Mor,
) -> (ok: bool)
    ensures
        ok == preserves_composite(functor, source, target, *f, *g),
{
    let composite = match source.compose(f, g) {
        Ok(h) => h,
        Err(_) => {
            return false;
        },
    };
    let image_f = match functor.map_morphism(f) {
        Ok(m) => m,
        Err(_) => {
            return false;
        },
    };
    let image_g = match functor.map_morphism(g) {
        Ok(m) => m,
        Err(_) => {
            return false;
        },
    };
    let image_h = match functor.map_morphism(composite) {
        Ok(m) => m,
        Err(_) => {
            return false;
        },
    };
    match target.compose(&image_f, &image_g) {
        Ok(k) => same_endpoints(&image_h, k),
        Err(_) => false,
    }
}

/// Checks the identity law of `functor` at one object.
pub fn identity_is_preserved<F: Functor>(
    functor: &F,
    source: &F::Source,
    target: &F::Target,
    obj: &<F::Source as Category>::Ob,
) -> (ok: bool)
    ensures
        ok == preserves_identity(functor, source, target, *obj),
{
    let identity = match source.identity(obj) {
        Ok(m) => m,
        Err(_) => {
            return false;
        },
    };
    let image = match functor.map_morphism(identity) {
        Ok(m) => m,
        Err(_) => {
            return false;
        },
    };
    let image_obj = functor.map_object(obj);
    match target.identity(&image_obj) {
        Ok(target_identity) => same_endpoints(&image, target_identity),
        Err(_) => false,
    }
}

/// The law check that every functor has.
pub trait FunctorLaws: Functor + Sized {
    /// Checks that this functor preserves composition and identities
    /// between `source` and `target`.
    ///
    /// Returns `true` exactly when, for every pair of source morphisms
    /// `(f, g)` in which `g` starts where `f` arrives, the image of the
    /// composite has the endpoints of the composite of the images, and, for
    /// every source object, the image of its identity has the endpoints of
    /// the identity of its image. A composite, an identity or an image that
    /// does not exist counts as a violation. The cost is quadratic in the
    /// number of source morphisms.
    fn verify_functor_laws(&self, source: &Self::Source, target: &Self::Target) -> (ok: bool)
        ensures
            ok == preserves_structure(self, source, target),
    {
        let morphisms = source.morphisms();
        let objects = source.objects();
        let mut i: usize = 0;
        while i < morphisms.len()
            invariant
                i <= morphisms.len(),
                morphisms@ == source.spec_morphisms(),
                forall|a: int, b: int|
                    0 <= a < i && 0 <= b < morphisms@.len() && composable(
                        #[trigger] morphisms@[a],
                        #[trigger] morphisms@[b],
                    ) ==> preserves_composite(self, source, target, morphisms@[a], morphisms@[b]),
            decreases morphisms.len() - i,
        {
            let mut j: usize = 0;
            while j < morphisms.len()
                invariant
                    i < morphisms.len(),
                    j <= morphisms.len(),
                    morphisms@ == source.spec_morphisms(),
                    forall|b: int|
                        0 <= b < j && composable(morphisms@[i as int], #[trigger] morphisms@[b])
                            ==> preserves_composite(
                            self,
                            source,
                            target,
                            morphisms@[i as int],
                            morphisms@[b],
                        ),
                decreases morphisms.len() - j,
            {
                if can_compose(&morphisms[i], &morphisms[j]) {
                    if !composite_is_preserved(self, source, target, &morphisms[i], &morphisms[j]) {
                        return false;
                    }
                }
                j += 1;
            }
            i += 1;
        }
        let mut k: usize = 0;
        while k < objects.len()
            invariant
                k <= objects.len(),
                objects@ == source.spec_objects(),
                forall|a: int|
                    0 <= a < k ==> preserves_identity(self, source, target, #[trigger] objects@[a]),
            decreases objects.len() - k,
        {
            if !identity_is_preserved(self, source, target, &objects[k]) {
                return false;
            }
            k += 1;
        }
        true
    }
}

impl<F: Functor> FunctorLaws for F {

}

/// A functor given by two functions, one on objects and one on morphisms.
///
/// Both functions must accept every argument and must return the same value
/// whenever they are given the same argument. `new` asks for this, and the
/// functor relies on it from then on.
#[verifier::reject_recursive_types(S)]
#[verifier::reject_recursive_types(T)]
pub struct ConcreteFunctor<S, T, MapOb, MapMor> where
    S: Category,
    T: Category,
    MapOb: Fn(&S::Ob) -> T::Ob,
    MapMor: Fn(&S::Mor) -> Result<T::Mor, CategoryError>,
 {
    name: String,
    source_category: S,
    target_category: T,
    object_mapping: MapOb,
    morphism_mapping: MapMor,
}

/// `mapping` accepts every argument and is a function of its argument alone.
pub open spec fn is_pure_mapping<A, B, Mapping: Fn(&A) -> B>(mapping: Mapping) -> bool {
    &&& forall|arg: &A| #[trigger] call_requires(mapping, (arg,))
    &&& forall|arg: &A, out1: B, out2: B|
        #[trigger] call_ensures(mapping, (arg,), out1) && #[trigger] call_ensures(
            mapping,
            (arg,),
            out2,
        ) ==> out1 == out2
}

impl<S, T, MapOb, MapMor> ConcreteFunctor<S, T, MapOb, MapMor> where
    S: Category,
    T: Category,
    MapOb: Fn(&S::Ob) -> T::Ob,
    MapMor: Fn(&S::Mor) -> Result<T::Mor, CategoryError>,
 {
    #[verifier::type_invariant]
    spec fn mappings_are_pure(self) -> bool {
        &&& is_pure_mapping::<S::Ob, T::Ob, MapOb>(self.object_mapping)
        &&& is_pure_mapping::<S::Mor, Result<T::Mor, CategoryError>, MapMor>(self.morphism_mapping)
    }

    /// The name this functor was built with.
    pub closed spec fn spec_name(&self) -> Seq<char> {
        self.name@
    }

    /// The function applied to objects.
    pub closed spec fn spec_object_mapping(&self) -> MapOb {
        self.object_mapping
    }

    /// The function applied to morphisms.
    pub closed spec fn spec_morphism_mapping(&self) -> MapMor {
        self.morphism_mapping
    }

    /// Builds the functor that maps objects with `object_mapping` and
    /// morphisms with `morphism_mapping`.
    pub fn new(
        name: String,
        source_category: S,
        target_category: T,
        object_mapping: MapOb,
        morphism_mapping: MapMor,
    ) -> (functor: Self)
        requires
            is_pure_mapping::<S::Ob, T::Ob, MapOb>(object_mapping),
            is_pure_mapping::<S::Mor, Result<T::Mor, CategoryError>, MapMor>(morphism_mapping),
        ensures
            functor.spec_name() == name@,
            functor.spec_object_mapping() == object_mapping,
            functor.spec_morphism_mapping() == morphism_mapping,
    {
        ConcreteFunctor { name, source_category, target_category, object_mapping, morphism_mapping }
    }

    /// Returns the name of this functor.
    pub fn name(&self) -> (name: &str)
        ensures
            name@ == self.spec_name(),
    {
        self.name.as_str()
    }
}

impl<S, T, MapOb, MapMor> Functor for ConcreteFunctor<S, T, MapOb, MapMor> where
    S: Category,
    T: Category,
    MapOb: Fn(&S::Ob) -> T::Ob,
    MapMor: Fn(&S::Mor) -> Result<T::Mor, CategoryError>,
 {
    type Source = S;

    type Target = T;

    /// What the object function returns for `obj`.
    open spec fn spec_map_object(&self, obj: S::Ob) -> T::Ob {
        choose|image: T::Ob| call_ensures(self.spec_object_mapping(), (&obj,), image)
    }

    /// What the morphism function returns for `morph`.
    open spec fn spec_map_morphism(&self, morph: S::Mor) -> Result<T::Mor, CategoryError> {
        choose|image: Result<T::Mor, CategoryError>|
            call_ensures(self.spec_morphism_mapping(), (&morph,), image)
    }

    fn map_object(&self, obj: &S::Ob) -> (image: T::Ob) {
        proof {
            use_type_invariant(self);
        }
        let image = (self.object_mapping)(obj);
        proof {
            let chosen = self.spec_map_object(*obj);
            assert(call_ensures(self.object_mapping, (obj,), image));
            assert(call_ensures(self.object_mapping, (obj,), chosen));
        }
        image
    }

    fn map_morphism(&self, morph: &S::Mor) -> (image: Result<T::Mor, CategoryError>) {
        proof {
            use_type_invariant(self);
        }
        let image = (self.morphism_mapping)(morph);
        proof {
            let chosen = self.spec_map_morphism(*morph);
            assert(call_ensures(self.morphism_mapping, (morph,), image));
            assert(call_ensures(self.morphism_mapping, (morph,), chosen));
        }
        image
    }
}

/// A family of target morphisms, one per source object, that relates two
/// functors between the same categories.
pub trait NaturalTransformation {
    /// The category both functors map from.
    type Source: Category;

    /// The category both functors map to.
    type Target: Category;

    /// The functor the components start from.
    type DomainFunctor: Functor<Source = Self::Source, Target = Self::Target>;

    /// The functor the components arrive at.
    type CodomainFunctor: Functor<Source = Self::Source, Target = Self::Target>;

    /// The functor the components start from.
    open spec fn spec_domain_functor(&self) -> Self::DomainFunctor {
        arbitrary()
    }

    /// The functor the components arrive at.
    open spec fn spec_codomain_functor(&self) -> Self::CodomainFunctor {
        arbitrary()
    }

    /// The component at an object.
    open spec fn spec_component_at(&self, obj: <Self::Source as Category>::Ob) -> <
        Self::Target as Category
    >::Mor {
        arbitrary()
    }

    /// Returns the component at `obj`: a morphism of the target category
    /// from the image of `obj` under the domain functor to its image under
    /// the codomain functor.
    fn component_at(&self, obj: &<Self::Source as Category>::Ob) -> (component: <
        Self::Target as Category
    >::Mor)
        ensures
            component == self.spec_component_at(*obj),
    ;

    /// Returns the functor the components start from.
    fn domain_functor(&self) -> (functor: &Self::DomainFunctor)
        ensures
            *functor == self.spec_domain_functor(),
    ;

    /// Returns the functor the components arrive at.
    fn codomain_functor(&self) -> (functor: &Self::CodomainFunctor)
        ensures
            *functor == self.spec_codomain_functor(),
    ;
}

/// The naturality square of `f: X -> Y` commutes in `target`, as far as
/// endpoints can tell: with `F` the domain functor and `G` the codomain
/// functor, "`G(f)` after the component at `X`" and "the component at `Y`
/// after `F(f)`" both exist and have the same endpoints.
pub open spec fn is_natural_at<N: NaturalTransformation>(
    transformation: &N,
    target: &N::Target,
    f: <N::Source as Category>::Mor,
) -> bool {
    let at_start = transformation.spec_component_at(f.spec_domain());
    let at_end = transformation.spec_component_at(f.spec_codomain());
    match (
        transformation.spec_domain_functor().spec_map_morphism(f),
        transformation.spec_codomain_functor().spec_map_morphism(f),
    ) {
        (Ok(domain_image), Ok(codomain_image)) => match (
            target.spec_compose(at_start, codomain_image),
            target.spec_compose(domain_image, at_end),
        ) {
            (Some(one_way), Some(other_way)) => parallel(one_way, other_way),
            _ => false,
        },
        _ => false,
    }
}

/// The naturality check that every natural transformation has.
pub trait Naturality: NaturalTransformation + Sized {
    /// Checks the naturality square of the source morphism `f`, composing
    /// in `target`.
    ///
    /// Returns `true` exactly when the square commutes as far as endpoints
    /// can tell. An image or a composite that does not exist counts as a
    /// violation.
    fn verify_naturality(&self, target: &Self::Target, f: &<Self::Source as Category>::Mor) -> (ok:
        bool)
        ensures
            ok == is_natural_at(self, target, *f),
    {
        let at_start = self.component_at(f.domain());
        let at_end = self.component_at(f.codomain());
        let domain_image = match self.domain_functor().map_morphism(f) {
            Ok(m) => m,
            Err(_) => {
                return false;
            },
        };
        let codomain_image = match self.codomain_functor().map_morphism(f) {
            Ok(m) => m,
            Err(_) => {
                return false;
            },
        };
        let one_way = match target.compose(&at_start, &codomain_image) {
            Ok(m) => m,
            Err(_) => {
                return false;
            },
        };
        match target.compose(&domain_image, &at_end) {
            Ok(other_way) => same_endpoints(one_way, other_way),
            Err(_) => false,
        }
    }
}

impl<N: NaturalTransformation> Naturality for N {

}

/// A natural transformation given by a function from source objects to
/// target morphisms.
///
/// The function must accept every object and must return the same morphism
/// whenever it is given the same object.
#[verifier::reject_recursive_types(S)]
#[verifier::reject_recursive_types(T)]
pub struct ConcreteNaturalTransformation<S, T, F, G, Components> where
    S: Category,
    T: Category,
    F: Functor<Source = S, Target = T>,
    G: Functor<Source = S, Target = T>,
    Components: Fn(&S::Ob) -> T::Mor,
 {
    name: String,
    domain_functor: F,
    codomain_functor: G,
    components: Components,
}

impl<S, T, F, G, Components> ConcreteNaturalTransformation<S, T, F, G, Components> where
    S: Category,
    T: Category,
    F: Functor<Source = S, Target = T>,
    G: Functor<Source = S, Target = T>,
    Components: Fn(&S::Ob) -> T::Mor,
 {
    #[verifier::type_invariant]
    spec fn components_are_pure(self) -> bool {
        is_pure_mapping::<S::Ob, T::Mor, Components>(self.components)
    }

    /// The name this transformation was built with.
    pub closed spec fn spec_name(&self) -> Seq<char> {
        self.name@
    }

    /// The function that yields the components.
    pub closed spec fn spec_components(&self) -> Components {
        self.components
    }

    /// Builds the transformation from `domain_functor` to `codomain_functor`
    /// whose component at each object is what `components` returns for it.
    pub fn new(name: String, domain_functor: F, codomain_functor: G, components: Components) -> (eta:
        Self)
        requires
            is_pure_mapping::<S::Ob, T::Mor, Components>(components),
        ensures
            eta.spec_name() == name@,
            eta.spec_domain_functor() == domain_functor,
            eta.spec_codomain_functor() == codomain_functor,
            eta.spec_components() == components,
    {
        ConcreteNaturalTransformation { name, domain_functor, codomain_functor, components }
    }
}

impl<S, T, F, G, Components> NaturalTransformation for ConcreteNaturalTransformation<
    S,
    T,
    F,
    G,
    Components,
> where
    S: Category,
    T: Category,
    F: Functor<Source = S, Target = T>,
    G: Functor<Source = S, Target = T>,
    Components: Fn(&S::Ob) -> T::Mor,
 {
    type Source = S;

    type Target = T;

    type DomainFunctor = F;

    type CodomainFunctor = G;

    closed spec fn spec_domain_functor(&self) -> F {
        self.domain_functor
    }

    closed spec fn spec_codomain_functor(&self) -> G {
        self.codomain_functor
    }

    /// What the component function returns for `obj`.
    open spec fn spec_component_at(&self, obj: S::Ob) -> T::Mor {
        choose|component: T::Mor| call_ensures(self.spec_components(), (&obj,), component)
    }

    fn component_at(&self, obj: &S::Ob) -> (component: T::Mor) {
        proof {
            use_type_invariant(self);
        }
        let component = (self.components)(obj);
        proof {
            let chosen = self.spec_component_at(*obj);
            assert(call_ensures(self.components, (obj,), component));
            assert(call_ensures(self.components, (obj,), chosen));
        }
        component
    }

    fn domain_functor(&self) -> (functor: &F) {
        &self.domain_functor
    }

    fn codomain_functor(&self) -> (functor: &G) {
        &self.codomain_functor
    }
}

} // verus!
