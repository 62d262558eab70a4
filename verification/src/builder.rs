//! The builder that hands a list of sources, in order, to a `Config`.

use vstd::prelude::*;
use crate::config::Config;
use crate::error::{Error, Result};
use crate::source::Source;

verus! {

/// A source as the trait object that the builder hands to `Config`.
pub open spec fn dyn_of<S: Source + 'static>(source: &S) -> &dyn Source {
    source
}

/// A source held by the builder, boxed as a trait object.
pub struct Held {
    pub source: Box<dyn Source>,
}

/// Boxes a source as a trait object: `Box::new` with the coercion to
/// `Box<dyn Source>`. The box holds the source it was given.
#[verifier::external_body]
fn boxed<S: Source + 'static>(source: S) -> (h: Held)
    ensures
        &*h.source == dyn_of(&source),
{
    Held { source: Box::new(source) }
}

/// A source that holds no values, handed to `Config` when no source was
/// added.
pub struct EmptySource;

impl Source for EmptySource {
    fn get(&self, key: &str) -> (r: Result<Option<String>>)
        ensures
            r matches Ok(None),
    {
        Ok(None)
    }
}

/// Builder that provides sources to `Config` implementations.
///
/// The builder hands each source to the `Config` in the order in which the
/// sources were added; the `Config` decides how to handle several sources:
/// whether to override, merge, or apply custom logic.
pub struct Builder {
    sources: Vec<Held>,
}

impl Builder {
    /// The number of sources added so far.
    pub closed spec fn count(&self) -> nat {
        self.sources@.len()
    }

    /// The source added in position `i`, counting from 0, as the builder
    /// holds it.
    pub closed spec fn held_at(&self, i: int) -> Held {
        self.sources@[i]
    }

    /// A new builder with no sources.
    pub fn new() -> (r: Self)
        ensures
            r.count() == 0,
    {
        Builder { sources: Vec::new() }
    }

    /// This builder with `source` added after the sources it has.
    pub fn add_source<S: Source + 'static>(self, source: S) -> (r: Self)
        ensures
            r.count() == self.count() + 1,
            forall|i: int| 0 <= i < self.count() ==> &*r.held_at(i).source == &*self.held_at(i).source,
            &*r.held_at(self.count() as int).source == dyn_of(&source),
    {
        let mut sources = self.sources;
        let ghost given = source;
        let item = boxed(source);
        sources.push(item);
        assert(&*sources@[sources@.len() - 1].source == dyn_of(&given));
        assert(sources@.len() - 1 == self.count());
        let r = Builder { sources };
        assert(&*r.held_at(self.count() as int).source == dyn_of(&given));
        r
    }

    /// Builds a configuration value: configured from the first source, then
    /// updated with each following source in the order they were added;
    /// the first error stops the build and is returned unchanged, and no
    /// later source is handed over. With no sources, the value is
    /// configured from a source that holds nothing.
    ///
    /// The `Config` methods are the user's, so the result is stated over
    /// what they may answer (`call_ensures`). With sources, an `Ok` value is
    /// the last of a run of values, one per source: `configure_from_source`
    /// gave the first for source 0, and for each later position `k`,
    /// `update_from_source`, called with source `k` and `refs[k]` (a
    /// reference to the value at `k - 1` that it left holding the value at
    /// `k`), answered with success. An error is the answer of the first call
    /// that failed, after such a run up to that source.
    #[verifier::spinoff_prover]
    #[verifier::rlimit(60)]
    pub fn build<T: Config>(&self) -> (r: Result<T>)
        ensures
            self.count() == 0 ==> call_ensures(T::configure_from_source, (dyn_of(&EmptySource),), r),
            self.count() > 0 ==> (r matches Ok(c) ==> exists|run: Seq<T>, refs: Seq<&mut T>|
                #![trigger run.len(), refs.len()]
                {
                    &&& run.len() == self.count()
                    &&& refs.len() == run.len()
                    &&& run.last() == c
                    &&& call_ensures(T::configure_from_source, (&*self.held_at(0).source,), Ok::<T, Error>(run[0]))
                    &&& forall|k: int|
                        #![trigger refs[k]]
                        #![trigger run[k]]
                        1 <= k < run.len() ==> {
                            &&& mut_ref_current(refs[k]) == run[k - 1]
                            &&& mut_ref_future(refs[k]) == run[k]
                            &&& exists|u: Result<()>|
                                u is Ok && #[trigger] call_ensures(T::update_from_source, (refs[k], &*self.held_at(k).source), u)
                        }
                }),
            self.count() > 0 ==> (r matches Err(e) ==> exists|run: Seq<T>, refs: Seq<&mut T>|
                #![trigger run.len(), refs.len()]
                {
                    &&& run.len() < self.count()
                    &&& refs.len() == run.len()
                    &&& run.len() == 0 ==> call_ensures(T::configure_from_source, (&*self.held_at(0).source,), Err::<T, Error>(e))
                    &&& run.len() > 0 ==> call_ensures(T::configure_from_source, (&*self.held_at(0).source,), Ok::<T, Error>(run[0]))
                    &&& forall|k: int|
                        #![trigger refs[k]]
                        #![trigger run[k]]
                        1 <= k < run.len() ==> {
                            &&& mut_ref_current(refs[k]) == run[k - 1]
                            &&& mut_ref_future(refs[k]) == run[k]
                            &&& exists|u: Result<()>|
                                u is Ok && #[trigger] call_ensures(T::update_from_source, (refs[k], &*self.held_at(k).source), u)
                        }
                    &&& run.len() > 0 ==> exists|m: &mut T|
                        mut_ref_current(m) == run.last() && #[trigger] call_ensures(
                            T::update_from_source,
                            (m, &*self.held_at(run.len() as int).source),
                            Err::<(), Error>(e),
                        )
                }),
    {
        if self.sources.len() == 0 {
            let empty = boxed(EmptySource);
            return T::configure_from_source(&*empty.source);
        }
        let held = &self.sources;
        let first = &*held[0].source;
        assert(first == &*self.held_at(0).source);
        let answer = T::configure_from_source(first);
        let mut config = match answer {
            Ok(c) => c,
            Err(e) => {
                let ghost run = Seq::<T>::empty();
                let ghost refs = Seq::<&mut T>::empty();
                assert(run.len() < self.count() && refs.len() == 0);
                return Err(e);
            },
        };
        let ghost start = config;
        let (outcome, Ghost(run)) = self.update_from(1, &mut config);
        assert(run[0] == start);
        match outcome {
            Ok(()) => {
                assert(run.len() == self.count());
                assert(run.last() == config);
                Ok(config)
            },
            Err(e) => {
                assert(run.len() < self.count());
                Err(e)
            },
        }
    }

    /// Updates `config` with the sources from position `i` on, in order,
    /// stopping at the first error. Beside the answer it gives the run of
    /// values indexed by source: the value before source `i` is `config` as
    /// it was, and each update that succeeded with source `k`, called with a
    /// reference `refs[k]`, took the value before it to the value at `k`; an
    /// error is the answer of the update with the source just after the run,
    /// on its last value.
    #[verifier::spinoff_prover]
    #[verifier::rlimit(60)]
    fn update_from<T: Config>(&self, i: usize, config: &mut T) -> (out: (Result<()>, Ghost<Seq<T>>))
        requires
            1 <= i <= self.count(),
        ensures
            i <= out.1@.len() <= self.count(),
            out.1@[i - 1] == *old(config),
            exists|refs: Seq<&mut T>|
                #![trigger refs.len()]
                {
                    &&& refs.len() == out.1@.len()
                    &&& forall|k: int|
                        #![trigger refs[k]]
                        #![trigger out.1@[k]]
                        i <= k < out.1@.len() ==> {
                            &&& mut_ref_current(refs[k]) == out.1@[k - 1]
                            &&& mut_ref_future(refs[k]) == out.1@[k]
                            &&& exists|u: Result<()>|
                                u is Ok && #[trigger] call_ensures(T::update_from_source, (refs[k], &*self.held_at(k).source), u)
                        }
                },
            out.0 is Ok ==> out.1@.len() == self.count() && out.1@.last() == *final(config),
            out.0 matches Err(e) ==> out.1@.len() < self.count() && exists|m: &mut T|
                mut_ref_current(m) == out.1@.last() && #[trigger] call_ensures(
                    T::update_from_source,
                    (m, &*self.held_at(out.1@.len() as int).source),
                    Err::<(), Error>(e),
                ),
        decreases self.count() - i,
    {
        let held = &self.sources;
        if i >= held.len() {
            let ghost run = Seq::new(self.count(), |j: int| *config);
            let ghost refs = Seq::new(self.count(), |j: int| arbitrary::<&mut T>());
            assert(refs.len() == run.len());
            return (Ok(()), Ghost(run));
        }
        let src = &*held[i].source;
        assert(src == &*self.held_at(i as int).source);
        let ghost prior = *config;
        let res = config.update_from_source(src);
        let ghost m0 = choose|m: &mut T|
            mut_ref_current(m) == prior && mut_ref_future(m) == *config && #[trigger] call_ensures(
                T::update_from_source,
                (m, src),
                res,
            );
        assert(call_ensures(T::update_from_source, (m0, &*self.held_at(i as int).source), res));
        match res {
            Ok(()) => {},
            Err(e) => {
                let ghost run = Seq::new(i as nat, |j: int| prior);
                let ghost refs = Seq::new(i as nat, |j: int| m0);
                assert(refs.len() == run.len());
                assert(run.last() == prior);
                return (Err(e), Ghost(run));
            },
        }
        let (rest, Ghost(tail)) = self.update_from(i + 1, config);
        let ghost tail_refs = choose|refs: Seq<&mut T>|
            #![trigger refs.len()]
            {
                &&& refs.len() == tail.len()
                &&& forall|k: int|
                    #![trigger refs[k]]
                    #![trigger tail[k]]
                    i + 1 <= k < tail.len() ==> {
                        &&& mut_ref_current(refs[k]) == tail[k - 1]
                        &&& mut_ref_future(refs[k]) == tail[k]
                        &&& exists|u: Result<()>|
                            u is Ok && #[trigger] call_ensures(T::update_from_source, (refs[k], &*self.held_at(k).source), u)
                    }
            };
        let ghost run = tail.update(i - 1, prior);
        let ghost refs = tail_refs.update(i as int, m0);
        assert forall|k: int| #![trigger refs[k]] #![trigger run[k]] i <= k < run.len() implies {
            &&& mut_ref_current(refs[k]) == run[k - 1]
            &&& mut_ref_future(refs[k]) == run[k]
            &&& exists|u: Result<()>|
                u is Ok && #[trigger] call_ensures(T::update_from_source, (refs[k], &*self.held_at(k).source), u)
        } by {
            if k > i {
                assert(refs[k] == tail_refs[k]);
            }
        }
        assert(refs.len() == run.len());
        assert(run.last() == tail.last());
        (rest, Ghost(run))
    }

    /// The number of sources in the builder.
    pub fn len(&self) -> (n: usize)
        ensures
            n == self.count(),
    {
        self.sources.len()
    }

    /// Whether the builder has no sources.
    pub fn is_empty(&self) -> (b: bool)
        ensures
            b == (self.count() == 0),
    {
        self.sources.len() == 0
    }
}

impl Default for Builder {
    fn default() -> (r: Self)
        ensures
            r.count() == 0,
    {
        Self::new()
    }
}

} // verus!
