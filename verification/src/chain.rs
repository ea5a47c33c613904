//! The middleware chain of a matched route, run as an onion.
//!
//! The chain does not call middleware or handlers itself. It says what to
//! run next, the caller runs it and reports how it ended:
//!
//! * `Enter(m)`: run middleware `m` up to the point where it either calls
//!   its continuation (`Proceed`) or returns a response without calling it
//!   (`Respond`);
//! * `Handle(h)`: run handler `h`; it ends with `Respond`;
//! * `Leave(m)`: let middleware `m`, which is waiting in its continuation,
//!   go on with the response just produced; it ends with `Respond`;
//! * `Finish`: the response just produced is the result.
//!
//! Middleware are entered outermost first and left innermost first. A
//! middleware that responds without proceeding cuts off everything inside
//! it: neither the inner middleware nor the handler is ever run.

use vstd::prelude::*;
use crate::matcher::RouteMatch;

verus! {

/// Where a chain stands.
#[derive(Clone, Copy, Debug, PartialEq, Eq, Structural)]
pub enum Phase {
    /// Not started.
    Ready,
    /// The middleware at position `depth` runs its part before the
    /// continuation.
    Entering,
    /// The handler runs.
    Handling,
    /// The middleware at position `depth` runs its part after the
    /// continuation.
    Leaving,
    /// The result is there.
    Done,
}

/// How the step that the caller ran ended.
#[derive(Clone, Copy, Debug, PartialEq, Eq, Structural)]
pub enum Signal {
    /// The middleware called its continuation.
    Proceed,
    /// The middleware or handler returned a response.
    Respond,
}

/// What the caller is to run next.
#[derive(Clone, Copy, Debug, PartialEq, Eq, Structural)]
pub enum Step {
    Enter(usize),
    Handle(usize),
    Leave(usize),
    Finish,
    /// The signal does not fit the state; nothing changed.
    Misuse,
}

/// The mathematical content of a [`Chain`].
pub struct ChainState {
    pub middleware: Seq<usize>,
    pub handler: usize,
    pub depth: int,
    pub phase: Phase,
}

impl ChainState {
    /// The state of a chain that has not started.
    pub open spec fn initial(middleware: Seq<usize>, handler: usize) -> ChainState {
        ChainState { middleware, handler, depth: 0, phase: Phase::Ready }
    }

    /// The number of middleware that wait in their continuation.
    pub open spec fn waiting(self) -> int {
        self.depth
    }

    /// The same chain at another place.
    pub open spec fn at(self, depth: int, phase: Phase) -> ChainState {
        ChainState { middleware: self.middleware, handler: self.handler, depth, phase }
    }

    /// The state and the step after the chain is started.
    pub open spec fn started(self) -> (ChainState, Step) {
        if self.phase != Phase::Ready {
            (self, Step::Misuse)
        } else if self.middleware.len() == 0 {
            (self.at(0, Phase::Handling), Step::Handle(self.handler))
        } else {
            (self.at(0, Phase::Entering), Step::Enter(self.middleware[0]))
        }
    }

    /// The state and the step after what ran has called its continuation.
    pub open spec fn proceeded(self) -> (ChainState, Step) {
        if self.phase != Phase::Entering {
            (self, Step::Misuse)
        } else if self.depth + 1 < self.middleware.len() {
            (self.at(self.depth + 1, Phase::Entering), Step::Enter(self.middleware[self.depth + 1]))
        } else {
            (self.at(self.middleware.len() as int, Phase::Handling), Step::Handle(self.handler))
        }
    }

    /// The state and the step after what ran has returned a response: the
    /// innermost waiting middleware goes on, or the chain is done.
    pub open spec fn responded(self) -> (ChainState, Step) {
        if self.phase != Phase::Entering && self.phase != Phase::Handling && self.phase
            != Phase::Leaving {
            (self, Step::Misuse)
        } else if self.waiting() == 0 {
            (self.at(0, Phase::Done), Step::Finish)
        } else {
            (
                self.at(self.waiting() - 1, Phase::Leaving),
                Step::Leave(self.middleware[self.waiting() - 1]),
            )
        }
    }

    /// The state and the step after `signal`.
    pub open spec fn next(self, signal: Signal) -> (ChainState, Step) {
        match signal {
            Signal::Proceed => self.proceeded(),
            Signal::Respond => self.responded(),
        }
    }

    /// The state after the signals of `signals`, one after the other.
    pub open spec fn after(self, signals: Seq<Signal>) -> ChainState
        decreases signals.len(),
    {
        if signals.len() == 0 {
            self
        } else {
            self.next(signals[0]).0.after(signals.drop_first())
        }
    }

    /// The steps that the signals of `signals` bring, one after the other.
    pub open spec fn run(self, signals: Seq<Signal>) -> Seq<Step>
        decreases signals.len(),
    {
        if signals.len() == 0 {
            Seq::empty()
        } else {
            seq![self.next(signals[0]).1] + self.next(signals[0]).0.run(signals.drop_first())
        }
    }
}

/// `count` times the same signal.
pub open spec fn repeated(signal: Signal, count: int) -> Seq<Signal> {
    Seq::new(count as nat, |i: int| signal)
}

/// The steps that enter the middleware at the positions `from..to`.
pub open spec fn entering(middleware: Seq<usize>, from: int, to: int) -> Seq<Step> {
    Seq::new((to - from) as nat, |i: int| Step::Enter(middleware[from + i]))
}

/// The steps that leave the `waiting` outermost middleware, innermost
/// first, and then finish.
pub open spec fn unwinding(middleware: Seq<usize>, waiting: int) -> Seq<Step> {
    Seq::new(
        (waiting + 1) as nat,
        |i: int|
            if i < waiting {
                Step::Leave(middleware[waiting - 1 - i])
            } else {
                Step::Finish
            },
    )
}

/// The whole trace of a chain in which every middleware proceeds.
pub open spec fn onion(middleware: Seq<usize>, handler: usize) -> Seq<Step> {
    entering(middleware, 0, middleware.len() as int) + seq![Step::Handle(handler)] + unwinding(
        middleware,
        middleware.len() as int,
    )
}

/// The whole trace of a chain in which the middleware at position `cut`
/// responds without proceeding.
pub open spec fn cut_short(middleware: Seq<usize>, cut: int) -> Seq<Step> {
    entering(middleware, 0, cut + 1) + unwinding(middleware, cut)
}

/// Running a sequence of signals in two parts gives the steps of the first
/// part and then those of the second.
pub proof fn lemma_run_in_parts(state: ChainState, first: Seq<Signal>, second: Seq<Signal>)
    ensures
        state.run(first + second) == state.run(first) + state.after(first).run(second),
        state.after(first + second) == state.after(first).after(second),
    decreases first.len(),
{
    if first.len() == 0 {
        assert(first + second =~= second);
        assert(state.run(first) + state.after(first).run(second) =~= state.run(second));
    } else {
        let all = first + second;
        assert(all[0] == first[0]);
        assert(all.drop_first() =~= first.drop_first() + second);
        let inner = state.next(first[0]).0;
        lemma_run_in_parts(inner, first.drop_first(), second);
        assert(state.run(all) =~= state.run(first) + state.after(first).run(second));
    }
}

/// While middleware proceed, the next middleware inside is entered.
pub proof fn lemma_proceeding_enters(state: ChainState, count: int)
    requires
        state.phase == Phase::Entering,
        0 <= state.depth,
        0 <= count,
        state.depth + count < state.middleware.len(),
    ensures
        state.run(repeated(Signal::Proceed, count)) == entering(
            state.middleware,
            state.depth + 1,
            state.depth + count + 1,
        ),
        state.after(repeated(Signal::Proceed, count)) == state.at(
            state.depth + count,
            Phase::Entering,
        ),
    decreases count,
{
    let signals = repeated(Signal::Proceed, count);
    if count == 0 {
        assert(state.run(signals) =~= entering(state.middleware, state.depth + 1, state.depth + 1));
        assert(state.at(state.depth, Phase::Entering) == state);
    } else {
        let inner = state.next(signals[0]).0;
        assert(signals.drop_first() =~= repeated(Signal::Proceed, count - 1));
        lemma_proceeding_enters(inner, count - 1);
        assert(state.run(signals) =~= entering(
            state.middleware,
            state.depth + 1,
            state.depth + count + 1,
        ));
    }
}

/// Once a response is there, the waiting middleware are left innermost
/// first, and then the chain is done.
pub proof fn lemma_responding_unwinds(state: ChainState)
    requires
        state.phase == Phase::Entering || state.phase == Phase::Handling || state.phase
            == Phase::Leaving,
        0 <= state.depth <= state.middleware.len(),
    ensures
        state.run(repeated(Signal::Respond, state.depth + 1)) == unwinding(
            state.middleware,
            state.depth,
        ),
        state.after(repeated(Signal::Respond, state.depth + 1)) == state.at(0, Phase::Done),
    decreases state.depth,
{
    let signals = repeated(Signal::Respond, state.depth + 1);
    let inner = state.next(signals[0]).0;
    assert(signals[0] == Signal::Respond);
    if state.depth == 0 {
        assert(signals.drop_first() =~= Seq::<Signal>::empty());
        assert(inner.run(signals.drop_first()) =~= Seq::<Step>::empty());
        assert(inner.after(signals.drop_first()) == inner);
        assert(state.run(signals) =~= unwinding(state.middleware, 0));
    } else {
        assert(signals.drop_first() =~= repeated(Signal::Respond, state.depth));
        lemma_responding_unwinds(inner);
        assert(inner.at(0, Phase::Done) == state.at(0, Phase::Done));
        assert(state.run(signals) =~= unwinding(state.middleware, state.depth));
    }
}

/// Onion order. When every middleware proceeds and the handler and every
/// middleware then respond, the steps are: enter the middleware from the
/// outermost to the innermost, run the handler once, leave the middleware
/// from the innermost to the outermost, finish.
pub proof fn lemma_onion_order(middleware: Seq<usize>, handler: usize)
    ensures
        ({
            let (first, step) = ChainState::initial(middleware, handler).started();
            let signals = repeated(Signal::Proceed, middleware.len() as int) + repeated(
                Signal::Respond,
                middleware.len() as int + 1,
            );
            &&& seq![step] + first.run(signals) == onion(middleware, handler)
            &&& first.after(signals).phase == Phase::Done
        }),
{
    let n = middleware.len() as int;
    let (first, step) = ChainState::initial(middleware, handler).started();
    let proceeds = repeated(Signal::Proceed, n);
    let responds = repeated(Signal::Respond, n + 1);
    lemma_run_in_parts(first, proceeds, responds);
    if n == 0 {
        assert(proceeds =~= Seq::<Signal>::empty());
        lemma_responding_unwinds(first);
        assert(seq![step] + first.run(proceeds + responds) =~= onion(middleware, handler));
    } else {
        let early = repeated(Signal::Proceed, n - 1);
        let last = repeated(Signal::Proceed, 1);
        assert(proceeds =~= early + last);
        lemma_run_in_parts(first, early, last);
        lemma_proceeding_enters(first, n - 1);
        let innermost = first.after(early);
        assert(last[0] == Signal::Proceed);
        assert(last.drop_first() =~= Seq::<Signal>::empty());
        let handling = innermost.next(Signal::Proceed).0;
        assert(handling.run(last.drop_first()) =~= Seq::<Step>::empty());
        assert(handling.after(last.drop_first()) == handling);
        assert(innermost.run(last) =~= seq![Step::Handle(handler)]);
        assert(innermost.after(last) == handling);
        lemma_responding_unwinds(handling);
        assert(seq![step] + first.run(proceeds + responds) =~= onion(middleware, handler));
    }
}

/// Short circuit. When the middleware at position `cut` responds without
/// proceeding, the steps are: enter the middleware from the outermost to
/// that one, leave the middleware outside it from the innermost to the
/// outermost, finish. The handler is never run, no middleware inside the
/// one that cut is ever entered, and later signals change nothing.
pub proof fn lemma_short_circuit(middleware: Seq<usize>, handler: usize, cut: int, later: Signal)
    requires
        0 <= cut < middleware.len(),
    ensures
        ({
            let (first, step) = ChainState::initial(middleware, handler).started();
            let signals = repeated(Signal::Proceed, cut) + repeated(Signal::Respond, cut + 1);
            let trace = seq![step] + first.run(signals);
            &&& trace == cut_short(middleware, cut)
            &&& forall|i: int| 0 <= i < trace.len() ==> !(#[trigger] trace[i] is Handle)
            &&& first.after(signals).phase == Phase::Done
            &&& first.after(signals).next(later) == (first.after(signals), Step::Misuse)
        }),
{
    let (first, step) = ChainState::initial(middleware, handler).started();
    let proceeds = repeated(Signal::Proceed, cut);
    let responds = repeated(Signal::Respond, cut + 1);
    lemma_run_in_parts(first, proceeds, responds);
    lemma_proceeding_enters(first, cut);
    lemma_responding_unwinds(first.after(proceeds));
    let trace = seq![step] + first.run(proceeds + responds);
    assert(trace =~= cut_short(middleware, cut));
}

/// The middleware chain of one request.
#[derive(Debug)]
pub struct Chain {
    middleware: Vec<usize>,
    handler: usize,
    depth: usize,
    phase: Phase,
}

impl View for Chain {
    type V = ChainState;

    closed spec fn view(&self) -> ChainState {
        ChainState {
            middleware: self.middleware@,
            handler: self.handler,
            depth: self.depth as int,
            phase: self.phase,
        }
    }
}

impl Chain {
    #[verifier::type_invariant]
    spec fn well_formed(self) -> bool {
        &&& self.depth <= self.middleware@.len()
        &&& self.phase == Phase::Ready ==> self.depth == 0
    }

    /// The chain of `middleware`, outermost first, around `handler`.
    pub fn new(middleware: Vec<usize>, handler: usize) -> (chain: Chain)
        ensures
            chain@ == ChainState::initial(middleware@, handler),
    {
        Chain { middleware, handler, depth: 0, phase: Phase::Ready }
    }

    /// The chain of a matched route.
    pub fn of_match(found: &RouteMatch) -> (chain: Chain)
        ensures
            chain@ == ChainState::initial(found@.middleware, found@.handler),
    {
        let mut middleware: Vec<usize> = Vec::new();
        crate::tree::append_ids(&mut middleware, &found.middleware);
        assert(middleware@ =~= found.middleware@);
        Chain::new(middleware, found.handler)
    }

    /// Where the chain stands.
    pub fn phase(&self) -> (phase: Phase)
        ensures
            phase == self@.phase,
    {
        self.phase
    }

    /// Whether the result is there.
    pub fn is_done(&self) -> (done: bool)
        ensures
            done == (self@.phase == Phase::Done),
    {
        match self.phase {
            Phase::Done => true,
            _ => false,
        }
    }

    /// Starts the chain: the first step to run.
    pub fn start(&mut self) -> (step: Step)
        ensures
            (final(self)@, step) == old(self)@.started(),
    {
        proof {
            use_type_invariant(&*self);
        }
        match self.phase {
            Phase::Ready => {
                if self.middleware.len() == 0 {
                    self.phase = Phase::Handling;
                    Step::Handle(self.handler)
                } else {
                    self.phase = Phase::Entering;
                    Step::Enter(self.middleware[0])
                }
            },
            _ => Step::Misuse,
        }
    }

    /// Takes the signal of the step that ran, and gives the next step.
    pub fn resume(&mut self, signal: Signal) -> (step: Step)
        ensures
            (final(self)@, step) == old(self)@.next(signal),
    {
        proof {
            use_type_invariant(&*self);
        }
        match signal {
            Signal::Proceed => {
                match self.phase {
                    Phase::Entering => {
                        if self.depth < self.middleware.len() && self.depth + 1
                            < self.middleware.len() {
                            self.depth = self.depth + 1;
                            Step::Enter(self.middleware[self.depth])
                        } else {
                            self.depth = self.middleware.len();
                            self.phase = Phase::Handling;
                            Step::Handle(self.handler)
                        }
                    },
                    _ => Step::Misuse,
                }
            },
            Signal::Respond => {
                match self.phase {
                    Phase::Entering | Phase::Handling | Phase::Leaving => {
                        if self.depth == 0 {
                            self.phase = Phase::Done;
                            Step::Finish
                        } else {
                            self.depth = self.depth - 1;
                            self.phase = Phase::Leaving;
                            Step::Leave(self.middleware[self.depth])
                        }
                    },
                    _ => Step::Misuse,
                }
            },
        }
    }
}

} // verus!
