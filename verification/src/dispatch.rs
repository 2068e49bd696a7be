//! The action-dispatch engine: a store owning the state, a reducer applying
//! actions to it, and a middleware layer that may cancel an action before
//! the reducer runs and may inject follow-up actions after it has run.
//!
//! Injected actions are processed through an explicit FIFO queue whose items
//! carry a depth tag, bounded by [`DispatchLimits`]; there is no recursion
//! through the pipeline. A dispatch call is modelled by the small-step
//! relation [`step_rel`] between queue configurations, and `try_dispatch`
//! guarantees that its outcome is reachable through that relation.

use vstd::prelude::*;

verus! {

/// Bounds on one dispatch call: how deep injection chains may nest, and how
/// many actions may be applied in total.
#[derive(Clone, Copy, Debug, PartialEq, Eq, Structural)]
pub struct DispatchLimits {
    pub max_depth: usize,
    pub max_actions: usize,
}

/// Which limit a failed dispatch call tripped.
#[derive(Clone, Copy, Debug, PartialEq, Eq, Structural)]
pub enum DispatchError {
    ActionLimitExceeded,
    DepthLimitExceeded,
}

/// How a successful dispatch call ended: the queue ran dry, or the
/// designated quit action asked the caller to stop.
#[derive(Clone, Copy, Debug, PartialEq, Eq, Structural)]
pub enum DispatchOutcome {
    Completed,
    Terminated,
}

/// An action type with a designated quit variant that stops the dispatch
/// loop and reports termination to the caller.
pub trait DispatchAction: Sized {
    spec fn is_quit_spec(self) -> bool;

    fn is_quit(&self) -> (b: bool)
        ensures
            b == self.is_quit_spec(),
    ;
}

/// A reducer: applies an action to the state in place and reports whether
/// anything changed. Its behaviour is pinned by the relation `apply_rel`,
/// which an implementation makes as tight as its transitions allow (a
/// freshly generated board, for example, admits any acceptable hazard
/// placement).
pub trait Reducer<S, A>: Sized {
    spec fn apply_rel(pre: S, action: A, post: S, changed: bool) -> bool;

    fn apply(&self, state: &mut S, action: A) -> (changed: bool)
        ensures
            Self::apply_rel(*old(state), action, *final(state), changed),
    ;
}

/// A middleware: `before` may veto an action (the reducer is then skipped
/// and `after` is not called), `after` may inject follow-up actions. Both
/// only read the state; they may update the middleware's own bookkeeping.
pub trait Middleware<S, A>: Sized {
    spec fn before_rel(pre: Self, action: A, state: S, post: Self, allow: bool) -> bool;

    spec fn after_rel(
        pre: Self,
        action: A,
        changed: bool,
        state: S,
        post: Self,
        injected: Seq<A>,
    ) -> bool;

    fn before(&mut self, action: &A, state: &S) -> (allow: bool)
        ensures
            Self::before_rel(*old(self), *action, *state, *final(self), allow),
    ;

    fn after(&mut self, action: &A, state_changed: bool, state: &S) -> (injected: Vec<A>)
        ensures
            Self::after_rel(*old(self), *action, state_changed, *state, *final(self), injected@),
    ;
}

// ------------------------------------------------------------------
// The unmediated store.
// ------------------------------------------------------------------

/// State plus reducer, with no middleware: `dispatch` is one reducer call.
pub struct Store<S, R> {
    state: S,
    reducer: R,
}

impl<S, R> Store<S, R> {
    pub closed spec fn state_spec(self) -> S {
        self.state
    }

    pub closed spec fn reducer_spec(self) -> R {
        self.reducer
    }

    pub fn new(state: S, reducer: R) -> (r: Self)
        ensures
            r.state_spec() == state,
            r.reducer_spec() == reducer,
    {
        Store { state, reducer }
    }

    /// Read-only snapshot of the owned state.
    pub fn state(&self) -> (r: &S)
        ensures
            *r == self.state_spec(),
    {
        &self.state
    }

    /// Apply one action through the reducer; no cancellation, no injection.
    pub fn dispatch<A>(&mut self, action: A) -> (changed: bool) where R: Reducer<S, A>
        ensures
            R::apply_rel(
                old(self).state_spec(),
                action,
                final(self).state_spec(),
                changed,
            ),
            final(self).reducer_spec() == old(self).reducer_spec(),
    {
        self.reducer.apply(&mut self.state, action)
    }
}

// ------------------------------------------------------------------
// The dispatch loop as a small-step relation over queue configurations.
// ------------------------------------------------------------------

/// A configuration of the dispatch loop: current state and middleware, the
/// remaining queue of depth-tagged actions, and how many actions have been
/// applied so far in this call.
pub struct DispatchConfig<S, M, A> {
    pub state: S,
    pub middleware: M,
    pub queue: Seq<(A, usize)>,
    pub processed: nat,
}

pub open spec fn init_config<S, M, A>(state: S, middleware: M, action: A) -> DispatchConfig<
    S,
    M,
    A,
> {
    DispatchConfig { state, middleware, queue: seq![(action, 0usize)], processed: 0 }
}

/// One continuing move of the dispatch loop: the head action is popped and
/// either cancelled (not counted, nothing else happens) or applied, with its
/// injected follow-ups enqueued one level deeper.
pub open spec fn step_rel<S, A: DispatchAction, R: Reducer<S, A>, M: Middleware<S, A>>(
    limits: DispatchLimits,
    c1: DispatchConfig<S, M, A>,
    c2: DispatchConfig<S, M, A>,
) -> bool {
    &&& c1.queue.len() > 0
    &&& {
        let a = c1.queue[0].0;
        let d = c1.queue[0].1;
        ||| {
            &&& M::before_rel(c1.middleware, a, c1.state, c2.middleware, false)
            &&& c2.state == c1.state
            &&& c2.queue == c1.queue.drop_first()
            &&& c2.processed == c1.processed
        }
        ||| exists|mid: M, changed: bool, injected: Seq<A>|
            {
                &&& M::before_rel(c1.middleware, a, c1.state, mid, true)
                &&& c1.processed + 1 <= limits.max_actions
                &&& R::apply_rel(c1.state, a, c2.state, changed)
                &&& #[trigger] M::after_rel(mid, a, changed, c2.state, c2.middleware, injected)
                &&& !(injected.len() > 0 && d + 1 > limits.max_depth)
                &&& !a.is_quit_spec()
                &&& enqueued(c1.queue, injected, d, c2.queue)
                &&& c2.processed == c1.processed + 1
            }
    }
}

/// The next queue drops the head item and appends the injected actions,
/// in order, one level deeper than the popped item.
pub open spec fn enqueued<A>(
    q1: Seq<(A, usize)>,
    injected: Seq<A>,
    d: usize,
    q2: Seq<(A, usize)>,
) -> bool {
    &&& q2.len() == q1.len() - 1 + injected.len()
    &&& forall|k: int| 0 <= k < q1.len() - 1 ==> (#[trigger] q2[k]) == q1[k + 1]
    &&& forall|k: int|
        0 <= k < injected.len() ==> (#[trigger] q2[q1.len() - 1 + k]) == (
        injected[k],
        (d + 1) as usize,
        )
}

/// A final move of the dispatch loop: the queue ran dry, a limit tripped,
/// or the quit action stopped the call.
pub open spec fn terminal_rel<S, A: DispatchAction, R: Reducer<S, A>, M: Middleware<S, A>>(
    limits: DispatchLimits,
    c: DispatchConfig<S, M, A>,
    state2: S,
    mw2: M,
    r: Result<DispatchOutcome, DispatchError>,
) -> bool {
    ||| {
        &&& c.queue.len() == 0
        &&& state2 == c.state
        &&& mw2 == c.middleware
        &&& r == Ok::<DispatchOutcome, DispatchError>(DispatchOutcome::Completed)
    }
    ||| {
        &&& c.queue.len() > 0
        &&& M::before_rel(c.middleware, c.queue[0].0, c.state, mw2, true)
        &&& c.processed + 1 > limits.max_actions
        &&& state2 == c.state
        &&& r == Err::<DispatchOutcome, DispatchError>(DispatchError::ActionLimitExceeded)
    }
    ||| {
        &&& c.queue.len() > 0
        &&& c.processed + 1 <= limits.max_actions
        &&& exists|mid: M, changed: bool, injected: Seq<A>|
            {
                &&& M::before_rel(c.middleware, c.queue[0].0, c.state, mid, true)
                &&& R::apply_rel(c.state, c.queue[0].0, state2, changed)
                &&& #[trigger] M::after_rel(mid, c.queue[0].0, changed, state2, mw2, injected)
                &&& if injected.len() > 0 && c.queue[0].1 + 1 > limits.max_depth {
                    r == Err::<DispatchOutcome, DispatchError>(DispatchError::DepthLimitExceeded)
                } else {
                    c.queue[0].0.is_quit_spec() && r == Ok::<DispatchOutcome, DispatchError>(
                        DispatchOutcome::Terminated,
                    )
                }
            }
    }
}

/// The sequence of configurations is a run of the dispatch loop: each next
/// configuration arises from its predecessor by one move.
pub open spec fn is_trace<S, A: DispatchAction, R: Reducer<S, A>, M: Middleware<S, A>>(
    limits: DispatchLimits,
    tr: Seq<DispatchConfig<S, M, A>>,
) -> bool {
    forall|i: int|
        1 <= i < tr.len() ==> step_rel::<S, A, R, M>(limits, tr[i - 1], #[trigger] tr[i])
}

/// The full behaviour of one `try_dispatch` call: some run of the loop leads
/// from the initial single-action queue to a configuration in which the call
/// ends with result `r`, final state `s1` and final middleware state `m1`.
pub open spec fn dispatch_rel<S, A: DispatchAction, R: Reducer<S, A>, M: Middleware<S, A>>(
    limits: DispatchLimits,
    s0: S,
    m0: M,
    action: A,
    s1: S,
    m1: M,
    r: Result<DispatchOutcome, DispatchError>,
) -> bool {
    exists|tr: Seq<DispatchConfig<S, M, A>>|
        {
            &&& tr.len() >= 1
            &&& tr[0] == init_config::<S, M, A>(s0, m0, action)
            &&& #[trigger] is_trace::<S, A, R, M>(limits, tr)
            &&& terminal_rel::<S, A, R, M>(limits, tr.last(), s1, m1, r)
        }
}

/// Extending a run by one more move keeps it a run.
proof fn lemma_trace_push<S, A: DispatchAction, R: Reducer<S, A>, M: Middleware<S, A>>(
    limits: DispatchLimits,
    tr: Seq<DispatchConfig<S, M, A>>,
    c: DispatchConfig<S, M, A>,
)
    requires
        is_trace::<S, A, R, M>(limits, tr),
        tr.len() >= 1,
        step_rel::<S, A, R, M>(limits, tr.last(), c),
    ensures
        is_trace::<S, A, R, M>(limits, tr.push(c)),
{
    let tr2 = tr.push(c);
    assert forall|i: int| 1 <= i < tr2.len() implies step_rel::<S, A, R, M>(
        limits,
        tr2[i - 1],
        #[trigger] tr2[i],
    ) by {
        if i < tr.len() {
            assert(step_rel::<S, A, R, M>(limits, tr[i - 1], tr[i]));
            assert(tr2[i - 1] == tr[i - 1] && tr2[i] == tr[i]);
        } else {
            assert(tr2[i - 1] == tr.last() && tr2[i] == c);
        }
    }
}

// ------------------------------------------------------------------
// The mediated store.
// ------------------------------------------------------------------

/// State, reducer and middleware behind one dispatch pipeline with limits.
pub struct StoreWithMiddleware<S, R, M> {
    state: S,
    reducer: R,
    middleware: M,
    limits: DispatchLimits,
}

impl<S, R, M> StoreWithMiddleware<S, R, M> {
    pub closed spec fn state_spec(self) -> S {
        self.state
    }

    pub closed spec fn reducer_spec(self) -> R {
        self.reducer
    }

    pub closed spec fn middleware_spec(self) -> M {
        self.middleware
    }

    pub closed spec fn limits_spec(self) -> DispatchLimits {
        self.limits
    }

    /// A store with the default limits: generous enough for any single
    /// cascade on the boards this library builds, small enough to stop a
    /// runaway middleware.
    pub fn new(state: S, reducer: R, middleware: M) -> (r: Self)
        ensures
            r.state_spec() == state,
            r.reducer_spec() == reducer,
            r.middleware_spec() == middleware,
            r.limits_spec() == (DispatchLimits { max_depth: 4096, max_actions: 200000 }),
    {
        StoreWithMiddleware {
            state,
            reducer,
            middleware,
            limits: DispatchLimits { max_depth: 4096, max_actions: 200000 },
        }
    }

    pub fn with_dispatch_limits(self, limits: DispatchLimits) -> (r: Self)
        ensures
            r.state_spec() == self.state_spec(),
            r.reducer_spec() == self.reducer_spec(),
            r.middleware_spec() == self.middleware_spec(),
            r.limits_spec() == limits,
    {
        StoreWithMiddleware { limits, ..self }
    }

    /// Read-only snapshot of the owned state.
    pub fn state(&self) -> (r: &S)
        ensures
            *r == self.state_spec(),
    {
        &self.state
    }

    /// Run one action and everything the middleware injects for it through
    /// the pipeline, within the configured limits.
    pub fn try_dispatch<A: Copy + DispatchAction>(&mut self, action: A) -> (r: Result<
        DispatchOutcome,
        DispatchError,
    >) where R: Reducer<S, A>, M: Middleware<S, A>
        ensures
            dispatch_rel::<S, A, R, M>(
                old(self).limits_spec(),
                old(self).state_spec(),
                old(self).middleware_spec(),
                action,
                final(self).state_spec(),
                final(self).middleware_spec(),
                r,
            ),
            final(self).limits_spec() == old(self).limits_spec(),
            final(self).reducer_spec() == old(self).reducer_spec(),
    {
        let limits = self.limits;
        let mut queue: Vec<(A, usize)> = Vec::new();
        queue.push((action, 0));
        let mut head: usize = 0;
        let mut processed: usize = 0;
        let ghost c0 = init_config::<S, M, A>(
            old(self).state_spec(),
            old(self).middleware_spec(),
            action,
        );
        let ghost mut tr: Seq<DispatchConfig<S, M, A>> = seq![c0];
        proof {
            assert(queue@ =~= seq![(action, 0usize)]);
            assert(queue@.skip(0) =~= queue@);
            assert(tr.last() == c0);
        }
        loop
            invariant
                head <= queue@.len(),
                processed <= limits.max_actions,
                limits == old(self).limits_spec(),
                self.limits_spec() == limits,
                self.reducer_spec() == old(self).reducer_spec(),
                c0 == init_config::<S, M, A>(
                    old(self).state_spec(),
                    old(self).middleware_spec(),
                    action,
                ),
                tr.len() >= 1,
                tr[0] == c0,
                is_trace::<S, A, R, M>(limits, tr),
                tr.last() == (DispatchConfig {
                    state: self.state_spec(),
                    middleware: self.middleware_spec(),
                    queue: queue@.skip(head as int),
                    processed: processed as nat,
                }),
            decreases limits.max_actions - processed, queue@.len() - head,
        {
            let ghost c_pre = tr.last();
            if head == queue.len() {
                proof {
                    assert(c_pre.queue.len() == 0);
                    assert(terminal_rel::<S, A, R, M>(
                        limits,
                        c_pre,
                        self.state_spec(),
                        self.middleware_spec(),
                        Ok::<DispatchOutcome, DispatchError>(DispatchOutcome::Completed),
                    ));
                }
                return Ok(DispatchOutcome::Completed);
            }
            let (a, d) = queue[head];
            head = head + 1;
            proof {
                assert(c_pre.queue[0] == (a, d));
            }
            let allow = self.middleware.before(&a, &self.state);
            let ghost mw_mid = self.middleware_spec();
            if !allow {
                proof {
                    let c_next = DispatchConfig {
                        state: self.state_spec(),
                        middleware: self.middleware_spec(),
                        queue: queue@.skip(head as int),
                        processed: processed as nat,
                    };
                    assert(c_next.queue =~= c_pre.queue.drop_first());
                    assert(step_rel::<S, A, R, M>(limits, c_pre, c_next));
                    lemma_trace_push::<S, A, R, M>(limits, tr, c_next);
                    tr = tr.push(c_next);
                    assert(tr.last() == c_next);
                    assert(tr[0] == c0);
                }
                continue ;
            }
            if processed == limits.max_actions {
                proof {
                    assert(terminal_rel::<S, A, R, M>(
                        limits,
                        c_pre,
                        self.state_spec(),
                        self.middleware_spec(),
                        Err::<DispatchOutcome, DispatchError>(DispatchError::ActionLimitExceeded),
                    ));
                }
                return Err(DispatchError::ActionLimitExceeded);
            }
            processed = processed + 1;
            let changed = self.reducer.apply(&mut self.state, a);
            let injected = self.middleware.after(&a, changed, &self.state);
            let quit = a.is_quit();
            if injected.len() > 0 && d >= limits.max_depth {
                proof {
                    assert(M::after_rel(
                        mw_mid,
                        a,
                        changed,
                        self.state_spec(),
                        self.middleware_spec(),
                        injected@,
                    ));
                    assert(terminal_rel::<S, A, R, M>(
                        limits,
                        c_pre,
                        self.state_spec(),
                        self.middleware_spec(),
                        Err::<DispatchOutcome, DispatchError>(DispatchError::DepthLimitExceeded),
                    ));
                }
                return Err(DispatchError::DepthLimitExceeded);
            }
            if quit {
                proof {
                    assert(M::after_rel(
                        mw_mid,
                        a,
                        changed,
                        self.state_spec(),
                        self.middleware_spec(),
                        injected@,
                    ));
                    assert(terminal_rel::<S, A, R, M>(
                        limits,
                        c_pre,
                        self.state_spec(),
                        self.middleware_spec(),
                        Ok::<DispatchOutcome, DispatchError>(DispatchOutcome::Terminated),
                    ));
                }
                return Ok(DispatchOutcome::Terminated);
            }
            let ghost pre_enqueue = queue@;
            if injected.len() > 0 {
                let d1 = d + 1;
                let mut j: usize = 0;
                while j < injected.len()
                    invariant
                        j <= injected@.len(),
                        queue@.len() == pre_enqueue.len() + j as int,
                        forall|k: int| 0 <= k < pre_enqueue.len() ==> (#[trigger] queue@[k])
                            == pre_enqueue[k],
                        forall|k: int|
                            0 <= k < j as int ==> (#[trigger] queue@[pre_enqueue.len() + k]) == (
                            injected@[k],
                            d1,
                            ),
                    decreases injected@.len() - j,
                {
                    queue.push((injected[j], d1));
                    j = j + 1;
                }
            }
            proof {
                let c_next = DispatchConfig {
                    state: self.state_spec(),
                    middleware: self.middleware_spec(),
                    queue: queue@.skip(head as int),
                    processed: processed as nat,
                };
                assert(M::after_rel(
                    mw_mid,
                    a,
                    changed,
                    self.state_spec(),
                    self.middleware_spec(),
                    injected@,
                ));
                assert(c_next.queue.len() == c_pre.queue.len() - 1 + injected@.len());
                assert forall|k: int| 0 <= k < c_pre.queue.len() - 1 implies (
                    #[trigger] c_next.queue[k]) == c_pre.queue[k + 1] by {
                    assert(c_next.queue[k] == queue@[head + k]);
                    assert(queue@[head + k] == pre_enqueue[head + k]);
                    assert(c_pre.queue[k + 1] == pre_enqueue[head + k]);
                }
                assert forall|k: int| 0 <= k < injected@.len() implies (
                    #[trigger] c_next.queue[c_pre.queue.len() - 1 + k]) == (
                injected@[k],
                (d + 1) as usize,
                ) by {
                    assert(c_next.queue[c_pre.queue.len() - 1 + k] == queue@[pre_enqueue.len()
                        + k]);
                    assert(queue@[pre_enqueue.len() + k] == (injected@[k], (d + 1) as usize));
                }
                assert(enqueued(c_pre.queue, injected@, d, c_next.queue));
                assert({
                    &&& M::before_rel(c_pre.middleware, c_pre.queue[0].0, c_pre.state, mw_mid, true)
                    &&& c_pre.processed + 1 <= limits.max_actions
                    &&& R::apply_rel(c_pre.state, c_pre.queue[0].0, c_next.state, changed)
                    &&& M::after_rel(
                        mw_mid,
                        c_pre.queue[0].0,
                        changed,
                        c_next.state,
                        c_next.middleware,
                        injected@,
                    )
                    &&& !(injected@.len() > 0 && c_pre.queue[0].1 + 1 > limits.max_depth)
                    &&& !c_pre.queue[0].0.is_quit_spec()
                    &&& enqueued(c_pre.queue, injected@, c_pre.queue[0].1, c_next.queue)
                    &&& c_next.processed == c_pre.processed + 1
                });
                assert(step_rel::<S, A, R, M>(limits, c_pre, c_next));
                lemma_trace_push::<S, A, R, M>(limits, tr, c_next);
                tr = tr.push(c_next);
                assert(tr.last() == c_next);
                assert(tr[0] == c0);
            }
        }
    }

    /// Like `try_dispatch`, but reports only whether the caller should keep
    /// running: `false` exactly when the quit action terminated the call.
    pub fn dispatch<A: Copy + DispatchAction>(&mut self, action: A) -> (keep_running: bool) where
        R: Reducer<S, A>,
        M: Middleware<S, A>,

        ensures
            exists|r: Result<DispatchOutcome, DispatchError>|
                {
                    &&& #[trigger] dispatch_rel::<S, A, R, M>(
                        old(self).limits_spec(),
                        old(self).state_spec(),
                        old(self).middleware_spec(),
                        action,
                        final(self).state_spec(),
                        final(self).middleware_spec(),
                        r,
                    )
                    &&& keep_running == (r != Ok::<DispatchOutcome, DispatchError>(
                        DispatchOutcome::Terminated,
                    ))
                },
            final(self).limits_spec() == old(self).limits_spec(),
            final(self).reducer_spec() == old(self).reducer_spec(),
    {
        let r = self.try_dispatch(action);
        match r {
            Ok(DispatchOutcome::Terminated) => false,
            _ => true,
        }
    }
}

// ------------------------------------------------------------------
// Laws of the dispatch relation.
// ------------------------------------------------------------------

/// Helper for the cancellation law: on a run that starts from a
/// single-action queue whose action the middleware always vetoes, the loop
/// can only drop that action, leaving the state untouched.
proof fn lemma_cancelled_trace_inv<S, A: DispatchAction, R: Reducer<S, A>, M: Middleware<S, A>>(
    limits: DispatchLimits,
    tr: Seq<DispatchConfig<S, M, A>>,
    i: int,
)
    requires
        is_trace::<S, A, R, M>(limits, tr),
        tr[0].queue.len() == 1,
        forall|post: M, allow: bool| #[trigger]
            M::before_rel(tr[0].middleware, tr[0].queue[0].0, tr[0].state, post, allow)
                ==> !allow,
        1 <= i < tr.len(),
    ensures
        tr[i].state == tr[0].state,
        tr[i].processed == tr[0].processed,
        tr[i].queue.len() == 0,
        M::before_rel(tr[0].middleware, tr[0].queue[0].0, tr[0].state, tr[i].middleware, false),
    decreases i,
{
    if i == 1 {
        assert(step_rel::<S, A, R, M>(limits, tr[0], tr[1]));
        if !M::before_rel(tr[0].middleware, tr[0].queue[0].0, tr[0].state, tr[1].middleware, false) {
            let (mid, changed, injected) = choose|mid: M, changed: bool, injected: Seq<A>|
                {
                    &&& M::before_rel(tr[0].middleware, tr[0].queue[0].0, tr[0].state, mid, true)
                    &&& tr[0].processed + 1 <= limits.max_actions
                    &&& R::apply_rel(tr[0].state, tr[0].queue[0].0, tr[1].state, changed)
                    &&& #[trigger] M::after_rel(
                        mid,
                        tr[0].queue[0].0,
                        changed,
                        tr[1].state,
                        tr[1].middleware,
                        injected,
                    )
                    &&& !(injected.len() > 0 && tr[0].queue[0].1 + 1 > limits.max_depth)
                    &&& !tr[0].queue[0].0.is_quit_spec()
                    &&& enqueued(tr[0].queue, injected, tr[0].queue[0].1, tr[1].queue)
                    &&& tr[1].processed == tr[0].processed + 1
                };
            assert(M::before_rel(tr[0].middleware, tr[0].queue[0].0, tr[0].state, mid, true));
            assert(false);
        }
    } else {
        lemma_cancelled_trace_inv::<S, A, R, M>(limits, tr, i - 1);
        assert(step_rel::<S, A, R, M>(limits, tr[i - 1], tr[i]));
        assert(false);
    }
}

/// Law: dispatching an action that the middleware cancels never changes the
/// state and never reaches the reducer or the `after` hook — the call
/// completes with the state exactly as it was, and the final middleware
/// state comes from the single `before` call alone.
pub proof fn lemma_cancelled_dispatch_unchanged<
    S,
    A: DispatchAction,
    R: Reducer<S, A>,
    M: Middleware<S, A>,
>(
    limits: DispatchLimits,
    s0: S,
    m0: M,
    action: A,
    s1: S,
    m1: M,
    r: Result<DispatchOutcome, DispatchError>,
)
    requires
        dispatch_rel::<S, A, R, M>(limits, s0, m0, action, s1, m1, r),
        forall|post: M, allow: bool| #[trigger]
            M::before_rel(m0, action, s0, post, allow) ==> !allow,
    ensures
        s1 == s0,
        r == Ok::<DispatchOutcome, DispatchError>(DispatchOutcome::Completed),
        M::before_rel(m0, action, s0, m1, false),
{
    let c0 = init_config::<S, M, A>(s0, m0, action);
    let tr = choose|tr: Seq<DispatchConfig<S, M, A>>|
        {
            &&& tr.len() >= 1
            &&& tr[0] == c0
            &&& #[trigger] is_trace::<S, A, R, M>(limits, tr)
            &&& terminal_rel::<S, A, R, M>(limits, tr.last(), s1, m1, r)
        };
    if tr.len() == 1 {
        // A terminal move from the initial configuration would need the
        // middleware to allow the action, which the hypothesis rules out.
        assert(tr.last() == c0);
        if !M::before_rel(c0.middleware, c0.queue[0].0, c0.state, m1, true) {
            let (mid, changed, injected) = choose|mid: M, changed: bool, injected: Seq<A>|
                {
                    &&& M::before_rel(c0.middleware, c0.queue[0].0, c0.state, mid, true)
                    &&& R::apply_rel(c0.state, c0.queue[0].0, s1, changed)
                    &&& #[trigger] M::after_rel(mid, c0.queue[0].0, changed, s1, m1, injected)
                    &&& if injected.len() > 0 && c0.queue[0].1 + 1 > limits.max_depth {
                        r == Err::<DispatchOutcome, DispatchError>(
                            DispatchError::DepthLimitExceeded,
                        )
                    } else {
                        c0.queue[0].0.is_quit_spec() && r == Ok::<DispatchOutcome, DispatchError>(
                            DispatchOutcome::Terminated,
                        )
                    }
                };
            assert(M::before_rel(c0.middleware, c0.queue[0].0, c0.state, mid, true));
            assert(false);
        }
        assert(false);
    } else {
        lemma_cancelled_trace_inv::<S, A, R, M>(limits, tr, tr.len() - 1);
        assert(tr.last() == tr[tr.len() - 1]);
        assert(tr.last().queue.len() == 0);
    }
}

/// Law: one dispatch call never applies more than `max_actions` actions —
/// every configuration the loop can reach keeps the count within the limit
/// (and the loop itself is finite, being a verified terminating function).
pub proof fn lemma_processed_bounded<S, A: DispatchAction, R: Reducer<S, A>, M: Middleware<S, A>>(
    limits: DispatchLimits,
    tr: Seq<DispatchConfig<S, M, A>>,
    i: int,
)
    requires
        is_trace::<S, A, R, M>(limits, tr),
        0 <= i < tr.len(),
        tr[0].processed <= limits.max_actions,
    ensures
        tr[i].processed <= limits.max_actions,
    decreases i,
{
    if i > 0 {
        lemma_processed_bounded::<S, A, R, M>(limits, tr, i - 1);
        assert(step_rel::<S, A, R, M>(limits, tr[i - 1], tr[i]));
        if tr[i].processed != tr[i - 1].processed {
            let (mid, changed, injected) = choose|mid: M, changed: bool, injected: Seq<A>|
                {
                    &&& M::before_rel(
                        tr[i - 1].middleware,
                        tr[i - 1].queue[0].0,
                        tr[i - 1].state,
                        mid,
                        true,
                    )
                    &&& tr[i - 1].processed + 1 <= limits.max_actions
                    &&& R::apply_rel(tr[i - 1].state, tr[i - 1].queue[0].0, tr[i].state, changed)
                    &&& #[trigger] M::after_rel(
                        mid,
                        tr[i - 1].queue[0].0,
                        changed,
                        tr[i].state,
                        tr[i].middleware,
                        injected,
                    )
                    &&& !(injected.len() > 0 && tr[i - 1].queue[0].1 + 1 > limits.max_depth)
                    &&& !tr[i - 1].queue[0].0.is_quit_spec()
                    &&& enqueued(tr[i - 1].queue, injected, tr[i - 1].queue[0].1, tr[i].queue)
                    &&& tr[i].processed == tr[i - 1].processed + 1
                };
            assert(tr[i].processed == tr[i - 1].processed + 1);
        }
    }
}

} // verus!
