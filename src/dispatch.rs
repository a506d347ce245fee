use vstd::prelude::*;

use crate::context::Context;

verus! {

/// The logic of one command: its optional injector and its own handling step.
/// Both see the context as a map from type keys to values; `spec_inject` and
/// `spec_handle` say what each step makes of it.
pub trait Handler<V, E>: Sized {
    /// The values after the injector ran on `ctx`, or its error. Unless an
    /// implementation says otherwise, the injector succeeds and changes nothing.
    open spec fn spec_inject(&self, ctx: Map<u64, V>) -> Result<Map<u64, V>, E> {
        Ok(ctx)
    }

    /// The values after the handling step ran on `ctx`, or its error. Unless
    /// an implementation says otherwise, the step succeeds and changes nothing.
    open spec fn spec_handle(&self, ctx: Map<u64, V>) -> Result<Map<u64, V>, E> {
        Ok(ctx)
    }

    /// Adds the values that this command and its descendants consume.
    fn inject(&self, ctx: &mut Context<V>) -> (r: Result<(), E>)
        requires
            old(ctx).wf(),
        ensures
            final(ctx).wf(),
            step_done(self.spec_inject(old(ctx)@), r, final(ctx)@),
    ;

    /// The command's own work.
    fn handle(&self, ctx: &mut Context<V>) -> (r: Result<(), E>)
        requires
            old(ctx).wf(),
        ensures
            final(ctx).wf(),
            step_done(self.spec_handle(old(ctx)@), r, final(ctx)@),
    ;
}

/// A step whose effect is `expected` returned `r` and left the values `after`.
pub open spec fn step_done<V, E>(
    expected: Result<Map<u64, V>, E>,
    r: Result<(), E>,
    after: Map<u64, V>,
) -> bool {
    match expected {
        Ok(m) => r is Ok && after == m,
        Err(e) => r == Err::<(), E>(e),
    }
}

/// One step that dispatch performs, in the order performed.
#[derive(PartialEq, Eq, Structural, Clone, Copy, Debug)]
pub enum Step {
    /// A command's injector ran.
    Inject,
    /// A command's own handling step ran.
    Handle,
    /// A choice forwarded to the variant at this index.
    Select(usize),
}

/// A concrete command: its logic, whether it has an injector, and the choice
/// among its subcommands, if it has any.
pub struct Command<A> {
    pub handler: A,
    pub injects: bool,
    pub subcommand: Option<Choice<A>>,
}

/// A choice among subcommands, with the variant that the parser selected.
pub struct Choice<A> {
    pub variants: Vec<Command<A>>,
    pub active: usize,
}

/// Every choice on the path that dispatch follows from `c` selects a variant
/// that exists.
pub open spec fn command_resolved<A>(c: Command<A>) -> bool
    decreases c,
{
    match c.subcommand {
        None => true,
        Some(ch) => choice_resolved(ch),
    }
}

/// The choice's selected variant exists, and is itself resolved.
pub open spec fn choice_resolved<A>(ch: Choice<A>) -> bool
    decreases ch,
{
    if ch.active < ch.variants@.len() {
        command_resolved(ch.variants@[ch.active as int])
    } else {
        false
    }
}

/// The self-handling step of `c` from the values `ctx`: the values after it
/// or the first error, and the steps it took. The injector runs first; when
/// it fails the handling step does not run.
pub open spec fn self_outcome<A: Handler<V, E>, V, E>(c: Command<A>, ctx: Map<u64, V>) -> (
    Result<Map<u64, V>, E>,
    Seq<Step>,
) {
    if c.injects {
        match c.handler.spec_inject(ctx) {
            Err(e) => (Err(e), seq![Step::Inject]),
            Ok(m) => (c.handler.spec_handle(m), seq![Step::Inject, Step::Handle]),
        }
    } else {
        (c.handler.spec_handle(ctx), seq![Step::Handle])
    }
}

/// Dispatch of `c` from the values `ctx`: its result and the steps taken.
/// The command handles itself, then descends into its selected subcommand
/// with the values that its own step left.
pub open spec fn command_outcome<A: Handler<V, E>, V, E>(c: Command<A>, ctx: Map<u64, V>) -> (
    Result<(), E>,
    Seq<Step>,
)
    decreases c,
{
    let (s, t) = self_outcome(c, ctx);
    match s {
        Err(e) => (Err(e), t),
        Ok(m) => match c.subcommand {
            None => (Ok(()), t),
            Some(ch) => {
                let (r, u) = choice_outcome(ch, m);
                (r, t + u)
            },
        },
    }
}

/// Dispatch of a choice: it forwards to its selected variant and nothing else.
pub open spec fn choice_outcome<A: Handler<V, E>, V, E>(ch: Choice<A>, ctx: Map<u64, V>) -> (
    Result<(), E>,
    Seq<Step>,
)
    decreases ch,
{
    if ch.active < ch.variants@.len() {
        let (r, t) = command_outcome(ch.variants@[ch.active as int], ctx);
        (r, seq![Step::Select(ch.active)] + t)
    } else {
        (Ok(()), Seq::empty())
    }
}

impl<A> Command<A> {
    /// Whether every choice on the path that dispatch follows selects a
    /// variant that exists.
    pub fn is_resolved(&self) -> (r: bool)
        ensures
            r == command_resolved(*self),
        decreases *self, 1nat,
    {
        match &self.subcommand {
            None => true,
            Some(ch) => ch.is_resolved(),
        }
    }

    /// Runs the injector, if any, then the command's own handling step.
    pub fn handle_command<V, E>(&self, ctx: &mut Context<V>, log: &mut Vec<Step>) -> (r: Result<
        (),
        E,
    >) where A: Handler<V, E>
        requires
            old(ctx).wf(),
        ensures
            final(ctx).wf(),
            step_done(self_outcome(*self, old(ctx)@).0, r, final(ctx)@),
            final(log)@ == old(log)@ + self_outcome(*self, old(ctx)@).1,
    {
        if self.injects {
            log.push(Step::Inject);
            match self.handler.inject(ctx) {
                Ok(()) => {},
                Err(e) => {
                    assert(log@ =~= old(log)@ + seq![Step::Inject]);
                    return Err(e);
                },
            }
        }
        log.push(Step::Handle);
        let r = self.handler.handle(ctx);
        assert(log@ =~= old(log)@ + self_outcome(*self, old(ctx)@).1);
        r
    }

    /// Hands the context over to the selected subcommand, if there is one.
    pub fn handle_subcommand<V, E>(&self, ctx: Context<V>, log: &mut Vec<Step>) -> (r: Result<
        (),
        E,
    >) where A: Handler<V, E>
        requires
            ctx.wf(),
            command_resolved(*self),
        ensures
            match self.subcommand {
                None => r == Ok::<(), E>(()) && final(log)@ == old(log)@,
                Some(ch) => {
                    &&& r == choice_outcome(ch, ctx@).0
                    &&& final(log)@ == old(log)@ + choice_outcome(ch, ctx@).1
                },
            },
        decreases *self, 1nat,
    {
        match &self.subcommand {
            None => Ok(()),
            Some(ch) => ch.execute(ctx, log),
        }
    }

    /// Dispatches this command: its own step, then its selected subcommand.
    /// The first error ends dispatch and is returned unchanged.
    pub fn execute<V, E>(&self, ctx: Context<V>, log: &mut Vec<Step>) -> (r: Result<(), E>) where
        A: Handler<V, E>,
        requires
            ctx.wf(),
            command_resolved(*self),
        ensures
            r == command_outcome(*self, ctx@).0,
            final(log)@ == old(log)@ + command_outcome(*self, ctx@).1,
        decreases *self, 2nat,
    {
        let mut ctx = ctx;
        let ghost start = ctx@;
        match self.handle_command(&mut ctx, log) {
            Err(e) => Err(e),
            Ok(()) => {
                let r = self.handle_subcommand(ctx, log);
                assert(log@ =~= old(log)@ + command_outcome(*self, start).1);
                r
            },
        }
    }
}

impl<A> Choice<A> {
    /// Whether the selected variant exists and is itself resolved.
    pub fn is_resolved(&self) -> (r: bool)
        ensures
            r == choice_resolved(*self),
        decreases *self, 0nat,
    {
        if self.active < self.variants.len() {
            self.variants[self.active].is_resolved()
        } else {
            false
        }
    }

    /// Forwards the context to the selected variant.
    pub fn execute<V, E>(&self, ctx: Context<V>, log: &mut Vec<Step>) -> (r: Result<(), E>) where
        A: Handler<V, E>,
        requires
            ctx.wf(),
            choice_resolved(*self),
        ensures
            r == choice_outcome(*self, ctx@).0,
            final(log)@ == old(log)@ + choice_outcome(*self, ctx@).1,
        decreases *self, 0nat,
    {
        log.push(Step::Select(self.active));
        let r = self.variants[self.active].execute(ctx, log);
        assert(log@ =~= old(log)@ + choice_outcome(*self, ctx@).1);
        r
    }
}

/// Runs the root command of a tree from an initial context.
pub fn dispatch<A, V, E>(root: &Command<A>, ctx: Context<V>) -> (r: Result<(), E>) where
    A: Handler<V, E>,
    requires
        ctx.wf(),
        command_resolved(*root),
    ensures
        r == command_outcome(*root, ctx@).0,
{
    let mut log: Vec<Step> = Vec::new();
    root.execute(ctx, &mut log)
}

/// A command whose own step succeeds hands its selected subcommand exactly the
/// values that its injector and handling step left: the outcome of the whole
/// dispatch is the outcome of that subcommand from those values.
pub proof fn lemma_descent_sees_ancestor_values<A: Handler<V, E>, V, E>(
    c: Command<A>,
    ctx: Map<u64, V>,
    after: Map<u64, V>,
)
    requires
        self_outcome(c, ctx).0 == Ok::<Map<u64, V>, E>(after),
        c.subcommand is Some,
    ensures
        command_outcome(c, ctx).0 == choice_outcome(c.subcommand->0, after).0,
        command_outcome(c, ctx).1 == self_outcome(c, ctx).1 + choice_outcome(
            c.subcommand->0,
            after,
        ).1,
{
}

/// A root whose injector stores `value` under `key` and whose own step leaves
/// the values as they are dispatches into its selected child with exactly
/// those values: the child finds `value` under `key`, and the outcome of the
/// whole dispatch is the child's outcome from them.
pub proof fn lemma_injected_value_reaches_child<A: Handler<V, E>, V, E>(
    root: Command<A>,
    ctx: Map<u64, V>,
    key: u64,
    value: V,
)
    requires
        root.injects,
        root.handler.spec_inject(ctx) == Ok::<Map<u64, V>, E>(ctx.insert(key, value)),
        root.handler.spec_handle(ctx.insert(key, value)) == Ok::<Map<u64, V>, E>(
            ctx.insert(key, value),
        ),
        root.subcommand is Some,
        choice_resolved(root.subcommand->0),
    ensures
        ({
            let ch = root.subcommand->0;
            let child = ch.variants@[ch.active as int];
            &&& ctx.insert(key, value)[key] == value
            &&& command_outcome(root, ctx).0 == command_outcome(child, ctx.insert(key, value)).0
            &&& command_outcome(root, ctx).1 == seq![Step::Inject, Step::Handle, Step::Select(ch.active)]
                + command_outcome(child, ctx.insert(key, value)).1
        }),
{
    let ch = root.subcommand->0;
    let child = ch.variants@[ch.active as int];
    let u = command_outcome(child, ctx.insert(key, value)).1;
    assert(seq![Step::Inject, Step::Handle] + (seq![Step::Select(ch.active)] + u)
        =~= seq![Step::Inject, Step::Handle, Step::Select(ch.active)] + u);
}

/// When a command's injector fails, dispatch returns the injector's error and
/// performs no other step: neither the command's handling step nor any
/// descendant runs.
pub proof fn lemma_injector_failure_stops<A: Handler<V, E>, V, E>(
    c: Command<A>,
    ctx: Map<u64, V>,
    e: E,
)
    requires
        c.injects,
        c.handler.spec_inject(ctx) == Err::<Map<u64, V>, E>(e),
    ensures
        command_outcome(c, ctx) == (Err::<(), E>(e), seq![Step::Inject]),
{
}

/// When the selected variant of a choice fails in its own step, dispatch of the
/// choice returns that error unchanged, and the only variant it selected is the
/// active one.
pub proof fn lemma_variant_failure_propagates<A: Handler<V, E>, V, E>(
    ch: Choice<A>,
    ctx: Map<u64, V>,
    e: E,
)
    requires
        choice_resolved(ch),
        self_outcome(ch.variants@[ch.active as int], ctx).0 == Err::<Map<u64, V>, E>(e),
    ensures
        choice_outcome(ch, ctx).0 == Err::<(), E>(e),
        choice_outcome(ch, ctx).1 == seq![Step::Select(ch.active)] + self_outcome(
            ch.variants@[ch.active as int],
            ctx,
        ).1,
{
}

/// Dispatch of one tree from two empty contexts gives the same result and
/// takes the same steps.
pub proof fn lemma_dispatch_repeatable<A: Handler<V, E>, V, E>(
    root: Command<A>,
    first: Context<V>,
    second: Context<V>,
)
    requires
        first@ == Map::<u64, V>::empty(),
        second@ == Map::<u64, V>::empty(),
    ensures
        command_outcome(root, first@) == command_outcome(root, second@),
{
}

} // verus!
