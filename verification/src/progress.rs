//! Progress events and cooperative cancellation.

use crate::path;
use crate::path::{FilePath, GivenView};
use std::sync::atomic::{AtomicBool, Ordering};
use std::sync::Arc;
use vstd::prelude::*;

verus! {

#[derive(Debug, Clone, Copy, PartialEq, Eq, Structural)]
pub enum AnalysisPhase {
    Scanning,
    HashingDuplicates,
    DetectingRelationships,
    BuildingRecommendations,
    ExplainingCandidates,
    Complete,
}

#[derive(Debug, PartialEq, Eq)]
pub struct ProgressEvent {
    pub phase: AnalysisPhase,
    pub items_processed: u64,
    pub bytes_processed: u64,
    pub total_items: Option<u64>,
    pub total_bytes: Option<u64>,
    pub current_path: Option<FilePath>,
}

#[verifier::ext_equal]
pub struct EventView {
    pub phase: AnalysisPhase,
    pub items_processed: u64,
    pub bytes_processed: u64,
    pub total_items: Option<u64>,
    pub total_bytes: Option<u64>,
    pub current_path: Option<GivenView>,
}

impl View for ProgressEvent {
    type V = EventView;

    open spec fn view(&self) -> EventView {
        EventView {
            phase: self.phase,
            items_processed: self.items_processed,
            bytes_processed: self.bytes_processed,
            total_items: self.total_items,
            total_bytes: self.total_bytes,
            current_path: path::optional_given(self.current_path),
        }
    }
}

/// The event with which a phase begins.
pub open spec fn starting_event(phase: AnalysisPhase) -> EventView {
    EventView {
        phase,
        items_processed: 0,
        bytes_processed: 0,
        total_items: None,
        total_bytes: None,
        current_path: None,
    }
}

impl ProgressEvent {
    pub fn starting(phase: AnalysisPhase) -> (result: Self)
        ensures
            result@ == starting_event(phase),
    {
        ProgressEvent {
            phase,
            items_processed: 0,
            bytes_processed: 0,
            total_items: None,
            total_bytes: None,
            current_path: None,
        }
    }
}

fn make_flag<F: Fn(bool) -> AtomicBool>(make: F, value: bool) -> (result: AtomicBool)
    requires
        call_requires(make, (value,)),
    ensures
        call_ensures(make, (value,), result),
{
    make(value)
}

fn set_flag<F: Fn(&AtomicBool, bool, Ordering)>(
    set: F,
    flag: &AtomicBool,
    value: bool,
    order: Ordering,
)
    requires
        call_requires(set, (flag, value, order)),
    ensures
        call_ensures(set, (flag, value, order), ()),
{
    set(flag, value, order)
}

fn get_flag<F: Fn(&AtomicBool, Ordering) -> bool>(
    get: F,
    flag: &AtomicBool,
    order: Ordering,
) -> (result: bool)
    requires
        call_requires(get, (flag, order)),
    ensures
        call_ensures(get, (flag, order), result),
{
    get(flag, order)
}

/// A request to stop, shared between its clones. Whether it has been made is
/// up to whoever holds a clone: the contracts tell what is done to the flag that
/// all of them share, not what it holds.
#[derive(Debug)]
pub struct CancellationToken {
    cancelled: Arc<AtomicBool>,
}

impl Clone for CancellationToken {
    /// The same token: a request by one clone is a request by all.
    fn clone(&self) -> (result: Self)
        ensures
            result == *self,
    {
        CancellationToken { cancelled: self.cancelled.clone() }
    }
}

impl Default for CancellationToken {
    fn default() -> (result: Self)
        ensures
            result.begins_with(false),
    {
        CancellationToken::new()
    }
}

impl CancellationToken {
    /// Whether the flag was made with a value.
    pub closed spec fn begins_with(&self, value: bool) -> bool {
        call_ensures(AtomicBool::new, (value,), *self.cancelled)
    }

    /// Whether a value was written to the flag.
    pub closed spec fn takes(&self, value: bool) -> bool {
        call_ensures(AtomicBool::store, (&*self.cancelled, value, Ordering::SeqCst), ())
    }

    /// Whether a value was read from the flag.
    pub closed spec fn reads(&self, value: bool) -> bool {
        call_ensures(AtomicBool::load, (&*self.cancelled, Ordering::SeqCst), value)
    }

    /// A token without a request.
    pub fn new() -> (result: Self)
        ensures
            result.begins_with(false),
    {
        CancellationToken { cancelled: Arc::new(make_flag(AtomicBool::new, false)) }
    }

    /// Asks for a stop.
    pub fn cancel(&self)
        ensures
            self.takes(true),
    {
        set_flag(AtomicBool::store, &self.cancelled, true, Ordering::SeqCst);
    }

    /// Whether a stop has been asked for.
    pub fn is_cancelled(&self) -> (result: bool)
        ensures
            self.reads(result),
    {
        get_flag(AtomicBool::load, &self.cancelled, Ordering::SeqCst)
    }
}

/// What is asked, between two steps of some work, whether to stop, with the
/// answers it has given and those that it may give.
pub trait StopSignal: Sized {
    spec fn answers(&self) -> Seq<bool>;

    spec fn possible(&self) -> spec_fn(bool) -> bool;

    fn poll(&mut self) -> (stop: bool)
        ensures
            final(self).answers() == old(self).answers().push(stop),
            final(self).possible() == old(self).possible(),
            old(self).possible()(stop),
    ;
}

/// Whether a signal has given some answers from one moment to another.
pub open spec fn polled<S: StopSignal>(before: S, after: S, answers: Seq<bool>) -> bool {
    &&& after.answers() == before.answers() + answers
    &&& after.possible() == before.possible()
    &&& forall|i: int| 0 <= i < answers.len() ==> before.possible()(#[trigger] answers[i])
}

pub(crate) proof fn lemma_polled_nothing<S: StopSignal>(signal: S)
    ensures
        polled(signal, signal, Seq::<bool>::empty()),
{
    assert(signal.answers() + Seq::<bool>::empty() =~= signal.answers());
}

pub(crate) proof fn lemma_polled_once<S: StopSignal>(
    first: S,
    before: S,
    after: S,
    answers: Seq<bool>,
    stop: bool,
)
    requires
        polled(first, before, answers),
        after.answers() == before.answers().push(stop),
        after.possible() == before.possible(),
        before.possible()(stop),
    ensures
        polled(first, after, answers.push(stop)),
{
    assert(first.answers() + answers.push(stop) =~= (first.answers() + answers).push(stop));
}

pub(crate) proof fn lemma_polled_further<S: StopSignal>(
    first: S,
    before: S,
    after: S,
    answers: Seq<bool>,
    more: Seq<bool>,
)
    requires
        polled(first, before, answers),
        polled(before, after, more),
    ensures
        polled(first, after, answers + more),
{
    assert(first.answers() + (answers + more) =~= (first.answers() + answers) + more);
    let all = answers + more;
    assert forall|i: int| 0 <= i < all.len() implies first.possible()(#[trigger] all[i]) by {
        if i >= answers.len() {
            assert(before.possible()(more[i - answers.len()]));
        }
    }
}

/// Whether some answers let all of the work go on.
pub open spec fn goes_on(answers: Seq<bool>, count: nat) -> bool {
    answers.len() == count && forall|i: int| 0 <= i < count ==> !#[trigger] answers[i]
}

/// Whether, of some answers, the last is the first to ask for a stop.
pub open spec fn stops_at(answers: Seq<bool>, place: int) -> bool {
    0 <= place && answers.len() == place + 1 && answers[place] && forall|i: int|
        0 <= i < place ==> !#[trigger] answers[i]
}

/// Whether some answers were read from a token.
pub open spec fn given_by(token: &CancellationToken, answers: Seq<bool>) -> bool {
    forall|i: int| 0 <= i < answers.len() ==> token.reads(#[trigger] answers[i])
}

/// A token that is asked whether it was cancelled.
pub struct TokenSignal<'a> {
    token: &'a CancellationToken,
    answered: Ghost<Seq<bool>>,
}

impl<'a> TokenSignal<'a> {
    pub fn new(token: &'a CancellationToken) -> (result: Self)
        ensures
            result.answers() == Seq::<bool>::empty(),
            result.possible() == |stop: bool| token.reads(stop),
    {
        let result = TokenSignal { token, answered: Ghost(Seq::empty()) };
        assert(result.possible() =~= |stop: bool| token.reads(stop));
        result
    }
}

impl<'a> StopSignal for TokenSignal<'a> {
    closed spec fn answers(&self) -> Seq<bool> {
        self.answered@
    }

    closed spec fn possible(&self) -> spec_fn(bool) -> bool {
        |stop: bool| self.token.reads(stop)
    }

    fn poll(&mut self) -> (stop: bool) {
        let stop = self.token.is_cancelled();
        self.answered = Ghost(self.answered@.push(stop));
        assert(self.possible() =~= old(self).possible());
        stop
    }
}

/// A signal that never asks for a stop.
pub struct NeverStops {
    answered: Ghost<Seq<bool>>,
}

impl NeverStops {
    pub fn new() -> (result: Self)
        ensures
            result.answers() == Seq::<bool>::empty(),
            result.possible() == |stop: bool| !stop,
    {
        let result = NeverStops { answered: Ghost(Seq::empty()) };
        assert(result.possible() =~= |stop: bool| !stop);
        result
    }
}

impl StopSignal for NeverStops {
    closed spec fn answers(&self) -> Seq<bool> {
        self.answered@
    }

    closed spec fn possible(&self) -> spec_fn(bool) -> bool {
        |stop: bool| !stop
    }

    fn poll(&mut self) -> (stop: bool) {
        self.answered = Ghost(self.answered@.push(false));
        assert(self.possible() =~= old(self).possible());
        false
    }
}

/// What receives progress events, in the order in which they are reported.
pub trait ProgressSink {
    spec fn received(&self) -> Seq<EventView>;

    fn report(&mut self, event: &ProgressEvent)
        ensures
            final(self).received() == old(self).received().push(event@),
    ;
}

/// A list of everything that was reported.
#[derive(Debug)]
pub struct ProgressLog {
    pub events: Vec<ProgressEvent>,
}

impl ProgressLog {
    pub fn new() -> (result: Self)
        ensures
            result.received() == Seq::<EventView>::empty(),
    {
        let events: Vec<ProgressEvent> = Vec::new();
        assert(crate::order::views(events@) =~= Seq::<EventView>::empty());
        ProgressLog { events }
    }
}

impl ProgressSink for ProgressLog {
    open spec fn received(&self) -> Seq<EventView> {
        crate::order::views(self.events@)
    }

    fn report(&mut self, event: &ProgressEvent) {
        let copy = ProgressEvent {
            phase: event.phase,
            items_processed: event.items_processed,
            bytes_processed: event.bytes_processed,
            total_items: event.total_items,
            total_bytes: event.total_bytes,
            current_path: crate::model::copy_optional_path(&event.current_path),
        };
        proof {
            crate::order::lemma_views_push(self.events@, copy);
        }
        self.events.push(copy);
    }
}

/// A sink that hands each event on to a listener as it comes.
pub struct Listener<F: Fn(&ProgressEvent)> {
    listen: F,
    heard: Ghost<Seq<EventView>>,
}

impl<F: Fn(&ProgressEvent)> Listener<F> {
    #[verifier::type_invariant]
    spec fn well_formed(self) -> bool {
        forall|event: &ProgressEvent| #[trigger] call_requires(self.listen, (event,))
    }

    pub closed spec fn listener(&self) -> F {
        self.listen
    }

    pub fn new(listen: F) -> (result: Self)
        requires
            forall|event: &ProgressEvent| #[trigger] call_requires(listen, (event,)),
        ensures
            result.listener() == listen,
            result.received() == Seq::<EventView>::empty(),
    {
        Listener { listen, heard: Ghost(Seq::empty()) }
    }
}

impl<F: Fn(&ProgressEvent)> ProgressSink for Listener<F> {
    closed spec fn received(&self) -> Seq<EventView> {
        self.heard@
    }

    fn report(&mut self, event: &ProgressEvent)
        ensures
            call_ensures(old(self).listener(), (event,), ()),
            final(self).listener() == old(self).listener(),
    {
        proof {
            use_type_invariant(&*self);
        }
        (self.listen)(event);
        self.heard = Ghost(self.heard@.push(event@));
    }
}

} // verus!
