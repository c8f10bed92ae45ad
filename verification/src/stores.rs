//! Which object stores a run registers, and in what order.
//!
//! Building a store and registering it is the caller's work. [`StoreRegistration`] says,
//! step by step, what is to be done next.

use vstd::prelude::*;
use vstd::hash_set::StringHashSet;
use crate::error::{Error, RunError};
use crate::location;
use crate::text;

verus! {

/// What is to be done next. `T` is the type of text: `String` in running code,
/// `Seq<char>` in contracts.
#[derive(Debug, PartialEq, Eq)]
pub enum StoreStep<T> {
    /// Build the store of a bucket.
    Build { bucket: T, region: T },
    /// Register the store that was built last under its root URL.
    Register { root: T },
    /// Every location has its store.
    Done,
}

impl View for StoreStep<String> {
    type V = StoreStep<Seq<char>>;

    open spec fn view(&self) -> StoreStep<Seq<char>> {
        match *self {
            StoreStep::Build { bucket, region } => StoreStep::Build {
                bucket: bucket@,
                region: region@,
            },
            StoreStep::Register { root } => StoreStep::Register { root: root@ },
            StoreStep::Done => StoreStep::Done,
        }
    }
}

/// The view of a step's outcome.
pub open spec fn step_view(r: Result<StoreStep<String>, Error>) -> Result<
    StoreStep<Seq<char>>,
    RunError<Seq<char>>,
> {
    match r {
        Ok(step) => Ok(step@),
        Err(error) => Err(error@),
    }
}

/// How far a registration has come.
pub struct RegistrationState {
    pub region: Seq<char>,
    /// The locations that are still to be looked at.
    pub rest: Seq<Seq<char>>,
    /// The buckets for which a store was asked for.
    pub seen: Set<Seq<char>>,
    /// The bucket whose store was asked for and is not registered yet.
    pub pending: Option<Seq<char>>,
}

/// What the locations hold next.
pub enum Scan {
    /// A bucket that was not seen before, and the locations after it.
    Found { bucket: Seq<char>, rest: Seq<Seq<char>> },
    /// A location without a bucket, which is the first of `rest`.
    Refused { error: RunError<Seq<char>>, rest: Seq<Seq<char>> },
    /// No new bucket.
    Exhausted,
}

/// Looks for the first location whose bucket is not among those seen.
pub open spec fn scan(rest: Seq<Seq<char>>, seen: Set<Seq<char>>) -> Scan
    decreases rest.len(),
{
    if rest.len() == 0 {
        Scan::Exhausted
    } else {
        match location::bucket_of(rest[0]) {
            Err(error) => Scan::Refused { error, rest },
            Ok(bucket) => if seen.contains(bucket) {
                scan(rest.skip(1), seen)
            } else {
                Scan::Found { bucket, rest: rest.skip(1) }
            },
        }
    }
}

/// One step: the state after it, and what is to be done.
pub open spec fn next_step(state: RegistrationState) -> (
    RegistrationState,
    Result<StoreStep<Seq<char>>, RunError<Seq<char>>>,
) {
    match state.pending {
        Some(bucket) => (
            RegistrationState { pending: None, ..state },
            match location::parsed_url(location::root_of(bucket)) {
                Ok(_) => Ok(StoreStep::Register { root: location::root_of(bucket) }),
                Err(message) => Err(
                    RunError::InvalidUrl { url: location::root_of(bucket), message },
                ),
            },
        ),
        None => match scan(state.rest, state.seen) {
            Scan::Found { bucket, rest } => (
                RegistrationState {
                    rest,
                    seen: state.seen.insert(bucket),
                    pending: Some(bucket),
                    ..state
                },
                Ok(StoreStep::Build { bucket, region: state.region }),
            ),
            Scan::Refused { error, rest } => (RegistrationState { rest, ..state }, Err(error)),
            Scan::Exhausted => (RegistrationState { rest: seq![], ..state }, Ok(StoreStep::Done)),
        },
    }
}

/// Every location is an `s3` URL whose host is among the buckets seen.
pub open spec fn all_in_seen_buckets(locations: Seq<Seq<char>>, seen: Set<Seq<char>>) -> bool {
    forall|i: int|
        0 <= i < locations.len() ==> in_seen_bucket(#[trigger] locations[i], seen)
}

/// The location is an `s3` URL whose host is among the buckets seen.
pub open spec fn in_seen_bucket(location: Seq<char>, seen: Set<Seq<char>>) -> bool {
    location::parsed_url(location) matches Ok(parts) && parts.scheme == "s3"@ && (
    parts.host matches Some(bucket) && seen.contains(bucket))
}

/// The registration of the stores of a list of locations.
pub struct StoreRegistration {
    region: String,
    locations: Vec<String>,
    next: usize,
    seen: StringHashSet,
    pending: Option<String>,
}

impl View for StoreRegistration {
    type V = RegistrationState;

    closed spec fn view(&self) -> RegistrationState {
        RegistrationState {
            region: self.region@,
            rest: text::texts(self.locations@).skip(self.next as int),
            seen: self.seen@,
            pending: match self.pending {
                Some(bucket) => Some(bucket@),
                None => None,
            },
        }
    }
}

impl StoreRegistration {
    /// The place in the list lies within the list.
    pub closed spec fn wf(&self) -> bool {
        self.next <= self.locations@.len()
    }

    /// Starts the registration of the stores of `locations` in `region`.
    pub fn new(region: &str, locations: Vec<String>) -> (r: Self)
        ensures
            r.wf(),
            r@ == (RegistrationState {
                region: region@,
                rest: text::texts(locations@),
                seen: Set::empty(),
                pending: None,
            }),
            r@.region == region@,
            r@.rest.len() == locations@.len(),
            forall|i: int| 0 <= i < locations@.len() ==> #[trigger] r@.rest[i] == locations@[i]@,
            r@.seen == Set::<Seq<char>>::empty(),
            r@.pending is None,
    {
        let r = StoreRegistration {
            region: region.to_owned(),
            locations,
            next: 0,
            seen: StringHashSet::new(),
            pending: None,
        };
        assert(r@.rest =~= text::texts(locations@));
        r
    }

    /// Takes in the bucket of a location: a bucket that was not seen before asks for
    /// its store, any other for nothing.
    pub fn note_bucket(&mut self, bucket: String) -> (r: Option<StoreStep<String>>)
        requires
            old(self).wf(),
        ensures
            final(self).wf(),
            old(self)@.seen.contains(bucket@) ==> r is None,
            !old(self)@.seen.contains(bucket@) ==> (r matches Some(
                StoreStep::Build { bucket: b, region },
            ) && b@ == bucket@ && region@ == old(self)@.region && final(self)@.pending == Some(
                bucket@,
            )),
            final(self)@.region == old(self)@.region,
            final(self)@.rest == old(self)@.rest,
            final(self)@.seen == old(self)@.seen.insert(bucket@),
            if old(self)@.seen.contains(bucket@) {
                r is None && final(self)@ == old(self)@
            } else {
                &&& r matches Some(step) && step@ == (StoreStep::Build {
                    bucket: bucket@,
                    region: old(self)@.region,
                })
                &&& final(self)@ == (RegistrationState {
                    seen: old(self)@.seen.insert(bucket@),
                    pending: Some(bucket@),
                    ..old(self)@
                })
            },
    {
        if self.seen.insert(bucket.clone()) {
            self.pending = Some(bucket.clone());
            Some(StoreStep::Build { bucket, region: self.region.clone() })
        } else {
            assert(self@.seen =~= old(self)@.seen);
            None
        }
    }

    /// Says what is to be done next, once what was asked for last has succeeded.
    ///
    /// A bucket whose store is asked for has a root URL that lies in the bucket itself,
    /// so the step after it is never refused. A location that begins with `s3://` is
    /// never refused for its scheme, and one that lies plainly in a bucket and is not
    /// too long is not refused at all.
    pub fn step(&mut self) -> (r: Result<StoreStep<String>, Error>)
        requires
            old(self).wf(),
        ensures
            final(self).wf(),
            (final(self)@, step_view(r)) == next_step(old(self)@),
            final(self)@.region == old(self)@.region,
            r matches Ok(StoreStep::Build { region, .. }) ==> region@ == old(self)@.region,
            r matches Ok(StoreStep::Build { bucket, .. }) ==> {
                &&& old(self)@.pending is None
                &&& final(self)@.pending == Some(bucket@)
                &&& !old(self)@.seen.contains(bucket@)
                &&& final(self)@.seen == old(self)@.seen.insert(bucket@)
                &&& exists|n: int|
                    #![trigger old(self)@.rest[n]]
                    {
                        &&& 0 <= n < old(self)@.rest.len()
                        &&& location::parsed_url(old(self)@.rest[n]) == Ok::<
                            location::UrlParts<Seq<char>>,
                            Seq<char>,
                        >(location::UrlParts { scheme: "s3"@, host: Some(bucket@) })
                        &&& final(self)@.rest == old(self)@.rest.skip(n + 1)
                        &&& all_in_seen_buckets(old(self)@.rest.take(n), old(self)@.seen)
                    }
            },
            r matches Ok(StoreStep::Register { root }) ==> {
                &&& old(self)@.pending matches Some(bucket) && root@ == "s3://"@ + bucket
                &&& final(self)@.pending is None
                &&& final(self)@.seen == old(self)@.seen
                &&& final(self)@.rest == old(self)@.rest
            },
            r matches Ok(StoreStep::Done) ==> {
                &&& old(self)@.pending is None
                &&& final(self)@.pending is None
                &&& final(self)@.seen == old(self)@.seen
                &&& final(self)@.rest.len() == 0
                &&& all_in_seen_buckets(old(self)@.rest, old(self)@.seen)
            },
            r matches Err(error) ==> old(self)@.pending is None ==> exists|n: int|
                #![trigger old(self)@.rest[n]]
                {
                    &&& 0 <= n < old(self)@.rest.len()
                    &&& location::bucket_of(old(self)@.rest[n]) == Err::<
                        Seq<char>,
                        RunError<Seq<char>>,
                    >(error@)
                    &&& final(self)@.rest == old(self)@.rest.skip(n)
                    &&& all_in_seen_buckets(old(self)@.rest.take(n), old(self)@.seen)
                },
            r matches Err(error) ==> final(self)@.pending is None && final(self)@.seen == old(
                self,
            )@.seen,
            r matches Err(error) ==> (old(self)@.pending matches Some(bucket) ==> (
            location::parsed_url("s3://"@ + bucket) matches Err(m) && error@ == (
            RunError::InvalidUrl { url: "s3://"@ + bucket, message: m }) && final(self)@.rest
                == old(self)@.rest)),
            r matches Ok(StoreStep::Build { bucket, .. }) ==> location::is_host(bucket@)
                && location::bucket_of(location::root_of(bucket@)) == Ok::<
                Seq<char>,
                RunError<Seq<char>>,
            >(bucket@) && next_step(final(self)@).1 == Ok::<
                StoreStep<Seq<char>>,
                RunError<Seq<char>>,
            >(StoreStep::Register { root: location::root_of(bucket@) }),
            r matches Err(error) ==> old(self)@.pending is None ==> {
                let refused = final(self)@.rest[0];
                &&& final(self)@.rest.len() > 0
                &&& "s3://"@.is_prefix_of(refused) ==> error !is NotS3Url
                &&& forall|b: Seq<char>| #[trigger]
                    location::lies_plainly_in(refused, b) ==> !location::is_short(refused)
            },
    {
        proof {
            law_next_step(self@);
        }
        let pending = self.pending.clone();
        if let Some(bucket) = pending {
            self.pending = None;
            return match location::store_root(bucket.as_str()) {
                Ok(root) => Ok(StoreStep::Register { root }),
                Err(error) => Err(error),
            };
        }
        while self.next < self.locations.len()
            invariant
                self.wf(),
                self@.region == old(self)@.region,
                self@.seen == old(self)@.seen,
                self@.pending is None,
                old(self)@.pending is None,
                scan(self@.rest, self@.seen) == scan(old(self)@.rest, old(self)@.seen),
            decreases self.locations.len() - self.next,
        {
            let bucket = match location::s3_bucket(self.locations[self.next].as_str()) {
                Ok(bucket) => bucket,
                Err(error) => {
                    proof {
                        law_next_step(old(self)@);
                    }
                    return Err(error);
                },
            };
            let ghost before = self@.rest;
            self.next = self.next + 1;
            assert(self@.rest =~= before.skip(1));
            if let Some(step) = self.note_bucket(bucket) {
                proof {
                    law_next_step(old(self)@);
                }
                return Ok(step);
            }
        }
        assert(self@.rest =~= seq![]);
        proof {
            law_next_step(old(self)@);
        }
        Ok(StoreStep::Done)
    }
}

/// The buckets whose stores are asked for, in order, and the error that ends the
/// registration, if one does.
pub open spec fn planned(rest: Seq<Seq<char>>, seen: Set<Seq<char>>) -> (
    Seq<Seq<char>>,
    Option<RunError<Seq<char>>>,
)
    decreases rest.len(),
{
    if rest.len() == 0 {
        (seq![], None)
    } else {
        match location::bucket_of(rest[0]) {
            Err(error) => (seq![], Some(error)),
            Ok(bucket) => if seen.contains(bucket) {
                planned(rest.skip(1), seen)
            } else {
                let later = planned(rest.skip(1), seen.insert(bucket));
                (seq![bucket] + later.0, later.1)
            },
        }
    }
}

/// The buckets and the end of a registration of `locations` from its start.
pub open spec fn planned_buckets(locations: Seq<Seq<char>>) -> (
    Seq<Seq<char>>,
    Option<RunError<Seq<char>>>,
) {
    planned(locations, Set::empty())
}

/// The steps of a registration whose every step is carried out, and the error that ends
/// it, if one does.
pub open spec fn run(state: RegistrationState) -> (
    Seq<StoreStep<Seq<char>>>,
    Option<RunError<Seq<char>>>,
)
    decreases
            state.rest.len(),
            if state.pending is Some {
                1int
            } else {
                0int
            },
{
    proof {
        lemma_scan(state.rest, state.seen);
    }
    let (after, outcome) = next_step(state);
    match outcome {
        Err(error) => (seq![], Some(error)),
        Ok(StoreStep::Done) => (seq![], None),
        Ok(step) => {
            let later = run(after);
            (seq![step] + later.0, later.1)
        },
    }
}

/// For each bucket its store is built and then registered.
pub open spec fn steps_for(region: Seq<char>, buckets: Seq<Seq<char>>) -> Seq<
    StoreStep<Seq<char>>,
>
    decreases buckets.len(),
{
    if buckets.len() == 0 {
        seq![]
    } else {
        seq![
            StoreStep::Build { bucket: buckets[0], region },
            StoreStep::Register { root: location::root_of(buckets[0]) },
        ] + steps_for(region, buckets.skip(1))
    }
}

/// The next new bucket is the first of those planned.
pub proof fn lemma_scan(rest: Seq<Seq<char>>, seen: Set<Seq<char>>)
    ensures
        match scan(rest, seen) {
            Scan::Found { bucket, rest: after } => {
                let later = planned(after, seen.insert(bucket));
                &&& after.len() < rest.len()
                &&& planned(rest, seen) == (seq![bucket] + later.0, later.1)
            },
            Scan::Refused { error, rest: after } => planned(rest, seen) == (
                Seq::<Seq<char>>::empty(),
                Some(error),
            ),
            Scan::Exhausted => planned(rest, seen) == (
                Seq::<Seq<char>>::empty(),
                None::<RunError<Seq<char>>>,
            ),
        },
    decreases rest.len(),
{
    if rest.len() > 0 {
        if let Ok(bucket) = location::bucket_of(rest[0]) {
            if seen.contains(bucket) {
                lemma_scan(rest.skip(1), seen);
            }
        }
    }
}

/// A registration whose every step is carried out builds and registers the planned
/// buckets in order, each with the root URL of its own, and ends as planned. The root
/// URLs have to be URLs, which `step` ensures of every bucket that it hands out.
pub proof fn law_whole_run(region: Seq<char>, locations: Seq<Seq<char>>)
    ensures
        (forall|i: int|
            0 <= i < planned_buckets(locations).0.len() ==> location::parsed_url(
                location::root_of(#[trigger] planned_buckets(locations).0[i]),
            ) is Ok) ==> run(
            RegistrationState { region, rest: locations, seen: Set::empty(), pending: None },
        ) == (steps_for(region, planned_buckets(locations).0), planned_buckets(locations).1),
{
    let start = RegistrationState { region, rest: locations, seen: Set::empty(), pending: None };
    if forall|i: int|
        0 <= i < planned_buckets(locations).0.len() ==> location::parsed_url(
            location::root_of(#[trigger] planned_buckets(locations).0[i]),
        ) is Ok {
        lemma_run(start);
    }
}

proof fn lemma_run(state: RegistrationState)
    requires
        state.pending is None,
        forall|i: int|
            0 <= i < planned(state.rest, state.seen).0.len() ==> location::parsed_url(
                location::root_of(#[trigger] planned(state.rest, state.seen).0[i]),
            ) is Ok,
    ensures
        run(state) == (
            steps_for(state.region, planned(state.rest, state.seen).0),
            planned(state.rest, state.seen).1,
        ),
    decreases state.rest.len(),
{
    lemma_scan(state.rest, state.seen);
    let buckets = planned(state.rest, state.seen).0;
    if let Scan::Found { bucket, rest } = scan(state.rest, state.seen) {
        let asked = next_step(state).0;
        let registered = next_step(asked).0;
        let later = planned(registered.rest, registered.seen).0;
        assert(buckets[0] == bucket);
        assert(buckets.skip(1) =~= later);
        assert forall|i: int| 0 <= i < later.len() implies location::parsed_url(
            location::root_of(#[trigger] later[i]),
        ) is Ok by {
            assert(later[i] == buckets[i + 1]);
        }
        lemma_run(registered);
        let build = StoreStep::Build { bucket, region: state.region };
        let register = StoreStep::Register { root: location::root_of(bucket) };
        assert(run(asked).0 == seq![register] + run(registered).0);
        assert(run(state).0 == seq![build] + run(asked).0);
        assert(run(state).0 =~= seq![build, register] + run(registered).0);
    }
}

/// No bucket is asked for twice, however many locations lie in it.
pub proof fn law_each_bucket_once(locations: Seq<Seq<char>>)
    ensures
        planned_buckets(locations).0.no_duplicates(),
{
    lemma_distinct(locations, Set::empty());
}

proof fn lemma_distinct(rest: Seq<Seq<char>>, seen: Set<Seq<char>>)
    ensures
        planned(rest, seen).0.no_duplicates(),
        forall|i: int|
            0 <= i < planned(rest, seen).0.len() ==> !seen.contains(
                #[trigger] planned(rest, seen).0[i],
            ),
    decreases rest.len(),
{
    if rest.len() > 0 {
        if let Ok(bucket) = location::bucket_of(rest[0]) {
            if seen.contains(bucket) {
                lemma_distinct(rest.skip(1), seen);
            } else {
                let later = planned(rest.skip(1), seen.insert(bucket)).0;
                lemma_distinct(rest.skip(1), seen.insert(bucket));
                let all = planned(rest, seen).0;
                assert(all =~= seq![bucket] + later);
                assert forall|i: int| 1 <= i < all.len() implies all[i] != bucket
                    && !seen.contains(#[trigger] all[i]) by {
                    assert(all[i] == later[i - 1]);
                }
                assert forall|i: int, j: int|
                    0 <= i < all.len() && 0 <= j < all.len() && i != j implies all[i] != all[j] by {
                    if i > 0 && j > 0 {
                        assert(all[i] == later[i - 1] && all[j] == later[j - 1]);
                    }
                }
            }
        }
    }
}

/// The locations before `n` have buckets.
pub open spec fn all_have_buckets(locations: Seq<Seq<char>>, n: int) -> bool {
    forall|i: int| 0 <= i < n ==> location::bucket_of(#[trigger] locations[i]) is Ok
}

/// The registration ends without an error exactly where every location has a bucket;
/// otherwise it ends with the error of the first location that has none.
pub proof fn law_first_refused_location(locations: Seq<Seq<char>>)
    ensures
        planned_buckets(locations).1 is None <==> all_have_buckets(
            locations,
            locations.len() as int,
        ),
        planned_buckets(locations).1 matches Some(error) ==> exists|i: int|
            #![trigger locations[i]]
            {
                &&& 0 <= i < locations.len()
                &&& location::bucket_of(locations[i]) == Err::<Seq<char>, RunError<Seq<char>>>(
                    error,
                )
                &&& all_have_buckets(locations, i)
            },
{
    lemma_end(locations, Set::empty());
}

proof fn lemma_end(rest: Seq<Seq<char>>, seen: Set<Seq<char>>)
    ensures
        planned(rest, seen).1 is None <==> all_have_buckets(rest, rest.len() as int),
        planned(rest, seen).1 matches Some(error) ==> exists|i: int|
            #![trigger rest[i]]
            {
                &&& 0 <= i < rest.len()
                &&& location::bucket_of(rest[i]) == Err::<Seq<char>, RunError<Seq<char>>>(error)
                &&& all_have_buckets(rest, i)
            },
    decreases rest.len(),
{
    if rest.len() > 0 {
        match location::bucket_of(rest[0]) {
            Err(error) => {
                assert(all_have_buckets(rest, 0));
            },
            Ok(bucket) => {
                let later = rest.skip(1);
                let known = if seen.contains(bucket) {
                    seen
                } else {
                    seen.insert(bucket)
                };
                lemma_end(later, known);
                assert(planned(rest, seen).1 == planned(later, known).1);
                assert forall|i: int| 0 <= i < later.len() implies #[trigger] later[i] == rest[i
                    + 1] by {}
                if all_have_buckets(later, later.len() as int) {
                    assert forall|i: int| 0 <= i < rest.len() implies location::bucket_of(
                        #[trigger] rest[i],
                    ) is Ok by {
                        if i > 0 {
                            assert(later[i - 1] == rest[i]);
                        }
                    }
                }
                if let Some(error) = planned(later, known).1 {
                    let i = choose|i: int|
                        #![trigger later[i]]
                        {
                            &&& 0 <= i < later.len()
                            &&& location::bucket_of(later[i]) == Err::<
                                Seq<char>,
                                RunError<Seq<char>>,
                            >(error)
                            &&& all_have_buckets(later, i)
                        };
                    assert(rest[i + 1] == later[i]);
                    assert forall|j: int| 0 <= j < i + 1 implies location::bucket_of(
                        #[trigger] rest[j],
                    ) is Ok by {
                        if j > 0 {
                            assert(later[j - 1] == rest[j]);
                        }
                    }
                    assert(all_have_buckets(rest, i + 1));
                }
            },
        }
    }
}

/// Every location that is reached gets a store: the bucket of a location is planned
/// where no location up to it is refused.
pub proof fn law_every_location_served(locations: Seq<Seq<char>>, i: int)
    requires
        0 <= i < locations.len(),
    ensures
        all_have_buckets(locations, i + 1) ==> (location::bucket_of(locations[i]) matches Ok(bucket)
            && planned_buckets(locations).0.contains(bucket)),
{
    if all_have_buckets(locations, i + 1) {
        lemma_served(locations, Set::empty(), i);
    }
}

proof fn lemma_served(rest: Seq<Seq<char>>, seen: Set<Seq<char>>, i: int)
    requires
        0 <= i < rest.len(),
        all_have_buckets(rest, i + 1),
    ensures
        location::bucket_of(rest[i]) matches Ok(bucket) && (seen.contains(bucket) || planned(
            rest,
            seen,
        ).0.contains(bucket)),
    decreases rest.len(),
{
    assert(location::bucket_of(rest[0]) is Ok);
    assert(location::bucket_of(rest[i]) is Ok);
    let first = location::bucket_of(rest[0])->Ok_0;
    let later = rest.skip(1);
    let all = planned(rest, seen).0;
    if i == 0 {
        if !seen.contains(first) {
            assert(all[0] == first);
        }
    } else {
        let known = if seen.contains(first) {
            seen
        } else {
            seen.insert(first)
        };
        assert forall|j: int| 0 <= j < i implies location::bucket_of(
            #[trigger] later[j],
        ) is Ok by {
            assert(later[j] == rest[j + 1]);
        }
        lemma_served(later, known, i - 1);
        assert(later[i - 1] == rest[i]);
        let bucket = location::bucket_of(rest[i])->Ok_0;
        let tail = planned(later, known).0;
        if seen.contains(first) {
            assert(all == tail);
        } else {
            assert(all == seq![first] + tail);
            if tail.contains(bucket) {
                let k = choose|k: int| 0 <= k < tail.len() && tail[k] == bucket;
                assert(all[k + 1] == bucket);
            } else if bucket == first {
                assert(all[0] == bucket);
            }
        }
    }
}

/// `at` holds, for each bucket, the first location that lies in it, in rising order.
pub open spec fn first_appearances(
    locations: Seq<Seq<char>>,
    buckets: Seq<Seq<char>>,
    at: Seq<int>,
) -> bool {
    &&& at.len() == buckets.len()
    &&& forall|k: int|
        #![trigger at[k]]
        0 <= k < at.len() ==> {
            &&& 0 <= at[k] < locations.len()
            &&& location::bucket_of(locations[at[k]]) == Ok::<Seq<char>, RunError<Seq<char>>>(
                buckets[k],
            )
            &&& forall|j: int|
                0 <= j < at[k] ==> location::bucket_of(#[trigger] locations[j]) != Ok::<
                    Seq<char>,
                    RunError<Seq<char>>,
                >(buckets[k])
        }
    &&& forall|k: int, l: int| 0 <= k < l < at.len() ==> at[k] < at[l]
}

/// Only buckets of the locations are planned, in the order in which the locations first
/// name them.
pub proof fn law_first_appearance_order(locations: Seq<Seq<char>>)
    ensures
        exists|at: Seq<int>|
            #[trigger] first_appearances(locations, planned_buckets(locations).0, at),
{
    let at = lemma_appearances(locations, Set::empty());
    assert(first_appearances(locations, planned_buckets(locations).0, at));
}

proof fn lemma_appearances(rest: Seq<Seq<char>>, seen: Set<Seq<char>>) -> (at: Seq<int>)
    ensures
        first_appearances(rest, planned(rest, seen).0, at),
    decreases rest.len(),
{
    let all = planned(rest, seen).0;
    if rest.len() == 0 || location::bucket_of(rest[0]) is Err {
        seq![]
    } else {
        let first = location::bucket_of(rest[0])->Ok_0;
        let later = rest.skip(1);
        let known = if seen.contains(first) {
            seen
        } else {
            seen.insert(first)
        };
        let tail = planned(later, known).0;
        let found = lemma_appearances(later, known);
        lemma_distinct(later, known);
        let shifted = found.map_values(|k: int| k + 1);
        assert forall|k: int|
            #![trigger shifted[k]]
            0 <= k < shifted.len() implies {
            &&& 0 < shifted[k] < rest.len()
            &&& location::bucket_of(rest[shifted[k]]) == Ok::<Seq<char>, RunError<Seq<char>>>(
                tail[k],
            )
            &&& forall|j: int|
                0 <= j < shifted[k] ==> location::bucket_of(#[trigger] rest[j]) != Ok::<
                    Seq<char>,
                    RunError<Seq<char>>,
                >(tail[k])
        } by {
            assert(shifted[k] == found[k] + 1);
            assert(rest[shifted[k]] == later[found[k]]);
            assert(known.contains(first));
            assert(tail[k] != first);
            assert forall|j: int| 0 <= j < shifted[k] implies location::bucket_of(
                #[trigger] rest[j],
            ) != Ok::<Seq<char>, RunError<Seq<char>>>(tail[k]) by {
                if j > 0 {
                    assert(rest[j] == later[j - 1]);
                }
            }
        }
        assert forall|k: int, l: int| 0 <= k < l < shifted.len() implies shifted[k]
            < shifted[l] by {
            assert(found[k] < found[l]);
        }
        if seen.contains(first) {
            assert(first_appearances(rest, all, shifted));
            shifted
        } else {
            let at = seq![0int] + shifted;
            assert(all == seq![first] + tail);
            assert forall|k: int|
                #![trigger at[k]]
                0 <= k < at.len() implies {
                &&& 0 <= at[k] < rest.len()
                &&& location::bucket_of(rest[at[k]]) == Ok::<Seq<char>, RunError<Seq<char>>>(
                    all[k],
                )
                &&& forall|j: int|
                    0 <= j < at[k] ==> location::bucket_of(#[trigger] rest[j]) != Ok::<
                        Seq<char>,
                        RunError<Seq<char>>,
                    >(all[k])
            } by {
                if k > 0 {
                    assert(at[k] == shifted[k - 1]);
                    assert(all[k] == tail[k - 1]);
                }
            }
            assert forall|k: int, l: int| 0 <= k < l < at.len() implies at[k] < at[l] by {
                assert(at[l] == shifted[l - 1]);
                if k > 0 {
                    assert(at[k] == shifted[k - 1]);
                }
            }
            assert(first_appearances(rest, all, at));
            at
        }
    }
}

/// Steps are seen as they stand.
pub proof fn law_steps_seen_as_they_stand(r: Result<StoreStep<String>, Error>)
    ensures
        match r {
            Err(error) => step_view(r) == Err::<StoreStep<Seq<char>>, RunError<Seq<char>>>(error@),
            Ok(StoreStep::Build { bucket, region }) => step_view(r) == Ok::<
                StoreStep<Seq<char>>,
                RunError<Seq<char>>,
            >(StoreStep::Build { bucket: bucket@, region: region@ }),
            Ok(StoreStep::Register { root }) => step_view(r) == Ok::<
                StoreStep<Seq<char>>,
                RunError<Seq<char>>,
            >(StoreStep::Register { root: root@ }),
            Ok(StoreStep::Done) => step_view(r) == Ok::<StoreStep<Seq<char>>, RunError<Seq<char>>>(
                StoreStep::Done,
            ),
        },
{
}

/// Locations lie in buckets that were seen exactly where the URL parser reads every one of
/// them as an `s3` URL with such a host.
pub proof fn law_seen_locations(locations: Seq<Seq<char>>, seen: Set<Seq<char>>)
    ensures
        all_in_seen_buckets(locations, seen) <==> forall|i: int|
            0 <= i < locations.len() ==> (location::parsed_url(
                #[trigger] locations[i],
            ) matches Ok(parts) && parts.scheme == "s3"@ && (parts.host matches Some(bucket)
                && seen.contains(bucket))),
{
}

/// The steps for a list of buckets are, for each bucket at its place, to build its store
/// with the region and then to register it under `s3://` and the bucket.
pub proof fn law_steps_for_each_bucket(region: Seq<char>, buckets: Seq<Seq<char>>)
    ensures
        steps_for(region, buckets).len() == 2 * buckets.len(),
        forall|i: int|
            #![trigger buckets[i]]
            0 <= i < buckets.len() ==> {
                &&& steps_for(region, buckets)[2 * i] == (StoreStep::Build {
                    bucket: buckets[i],
                    region,
                })
                &&& steps_for(region, buckets)[2 * i + 1] == (StoreStep::Register {
                    root: "s3://"@ + buckets[i],
                })
            },
    decreases buckets.len(),
{
    if buckets.len() > 0 {
        let rest = buckets.skip(1);
        let steps = steps_for(region, buckets);
        law_steps_for_each_bucket(region, rest);
        assert forall|i: int|
            #![trigger buckets[i]]
            0 <= i < buckets.len() implies steps[2 * i] == (StoreStep::Build {
            bucket: buckets[i],
            region,
        }) && steps[2 * i + 1] == (StoreStep::Register { root: "s3://"@ + buckets[i] }) by {
            if i > 0 {
                assert(buckets[i] == rest[i - 1]);
                assert(steps[2 * i] == steps_for(region, rest)[2 * (i - 1)]);
                assert(steps[2 * i + 1] == steps_for(region, rest)[2 * (i - 1) + 1]);
            }
        }
    }
}

/// One step in terms of what the locations are. The region is never changed, and every
/// store is asked for with it. A store is asked for exactly at the first location that
/// is not in a bucket seen before, if that location has a bucket; if it has none, the
/// step is refused as that location is; and the registration is done where there is no
/// such location. A store that was asked for is registered under `s3://` and its bucket.
pub proof fn law_next_step(state: RegistrationState)
    ensures
        next_step(state).0.region == state.region,
        next_step(state).1 matches Ok(StoreStep::Build { bucket, region }) ==> {
            &&& region == state.region
            &&& state.pending is None
            &&& next_step(state).0.pending == Some(bucket)
            &&& !state.seen.contains(bucket)
            &&& next_step(state).0.seen == state.seen.insert(bucket)
            &&& exists|n: int|
                #![trigger state.rest[n]]
                {
                    &&& 0 <= n < state.rest.len()
                    &&& location::parsed_url(state.rest[n]) == Ok::<
                        location::UrlParts<Seq<char>>,
                        Seq<char>,
                    >(location::UrlParts { scheme: "s3"@, host: Some(bucket) })
                    &&& next_step(state).0.rest == state.rest.skip(n + 1)
                    &&& all_in_seen_buckets(state.rest.take(n), state.seen)
                }
        },
        next_step(state).1 matches Ok(StoreStep::Register { root }) ==> {
            &&& state.pending matches Some(bucket) && root == "s3://"@ + bucket
            &&& next_step(state).0.pending is None
            &&& next_step(state).0.seen == state.seen
            &&& next_step(state).0.rest == state.rest
        },
        next_step(state).1 matches Ok(StoreStep::Done) ==> {
            &&& state.pending is None
            &&& next_step(state).0.pending is None
            &&& next_step(state).0.seen == state.seen
            &&& next_step(state).0.rest.len() == 0
            &&& all_in_seen_buckets(state.rest, state.seen)
        },
        next_step(state).1 matches Err(error) ==> {
            &&& next_step(state).0.pending is None
            &&& next_step(state).0.seen == state.seen
            &&& match state.pending {
                Some(bucket) => location::parsed_url("s3://"@ + bucket) matches Err(m) && error == (
                RunError::InvalidUrl { url: "s3://"@ + bucket, message: m }) && next_step(
                    state,
                ).0.rest == state.rest,
                None => exists|n: int|
                    #![trigger state.rest[n]]
                    {
                        &&& 0 <= n < state.rest.len()
                        &&& location::bucket_of(state.rest[n]) == Err::<
                            Seq<char>,
                            RunError<Seq<char>>,
                        >(error)
                        &&& next_step(state).0.rest == state.rest.skip(n)
                        &&& all_in_seen_buckets(state.rest.take(n), state.seen)
                    },
            }
        },
{
    if state.pending is None {
        lemma_scan_place(state.rest, state.seen);
    }
}

proof fn lemma_scan_place(rest: Seq<Seq<char>>, seen: Set<Seq<char>>)
    ensures
        match scan(rest, seen) {
            Scan::Found { bucket, rest: after } => !seen.contains(bucket) && exists|n: int|
                #![trigger rest[n]]
                {
                    &&& 0 <= n < rest.len()
                    &&& location::parsed_url(rest[n]) == Ok::<
                        location::UrlParts<Seq<char>>,
                        Seq<char>,
                    >(location::UrlParts { scheme: "s3"@, host: Some(bucket) })
                    &&& after == rest.skip(n + 1)
                    &&& all_in_seen_buckets(rest.take(n), seen)
                },
            Scan::Refused { error, rest: after } => exists|n: int|
                #![trigger rest[n]]
                {
                    &&& 0 <= n < rest.len()
                    &&& location::bucket_of(rest[n]) == Err::<Seq<char>, RunError<Seq<char>>>(error)
                    &&& after == rest.skip(n)
                    &&& all_in_seen_buckets(rest.take(n), seen)
                },
            Scan::Exhausted => all_in_seen_buckets(rest, seen),
        },
    decreases rest.len(),
{
    if rest.len() > 0 {
        let first = rest[0];
        assert(all_in_seen_buckets(rest.take(0), seen));
        match location::bucket_of(first) {
            Err(error) => {
                assert(rest.skip(0) =~= rest);
            },
            Ok(bucket) => {
                location::law_buckets_are_hosts_of_s3_urls(first, bucket);
                if seen.contains(bucket) {
                    let later = rest.skip(1);
                    lemma_scan_place(later, seen);
                    assert(in_seen_bucket(first, seen));
                    assert forall|n: int| 0 <= n <= later.len() && all_in_seen_buckets(
                        #[trigger] later.take(n),
                        seen,
                    ) implies all_in_seen_buckets(rest.take(n + 1), seen) by {
                        assert forall|i: int| 0 <= i < n + 1 implies in_seen_bucket(
                            #[trigger] rest.take(n + 1)[i],
                            seen,
                        ) by {
                            if i > 0 {
                                assert(rest.take(n + 1)[i] == later.take(n)[i - 1]);
                            }
                        }
                    }
                    match scan(later, seen) {
                        Scan::Found { bucket: found, rest: after } => {
                            let n = choose|n: int|
                                #![trigger later[n]]
                                {
                                    &&& 0 <= n < later.len()
                                    &&& location::parsed_url(later[n]) == Ok::<
                                        location::UrlParts<Seq<char>>,
                                        Seq<char>,
                                    >(location::UrlParts { scheme: "s3"@, host: Some(found) })
                                    &&& after == later.skip(n + 1)
                                    &&& all_in_seen_buckets(later.take(n), seen)
                                };
                            assert(rest[n + 1] == later[n]);
                            assert(rest.skip(n + 1 + 1) =~= later.skip(n + 1));
                        },
                        Scan::Refused { error, rest: after } => {
                            let n = choose|n: int|
                                #![trigger later[n]]
                                {
                                    &&& 0 <= n < later.len()
                                    &&& location::bucket_of(later[n]) == Err::<
                                        Seq<char>,
                                        RunError<Seq<char>>,
                                    >(error)
                                    &&& after == later.skip(n)
                                    &&& all_in_seen_buckets(later.take(n), seen)
                                };
                            assert(rest[n + 1] == later[n]);
                            assert(rest.skip(n + 1) =~= later.skip(n));
                        },
                        Scan::Exhausted => {
                            assert(later.take(later.len() as int) =~= later);
                            assert(rest.take(later.len() as int + 1) =~= rest);
                        },
                    }
                }
            },
        }
    }
}

} // verus!
