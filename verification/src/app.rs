//! The application, described before there is a UI thread to build it on.
//!
//! Everything registered is replayed once, on the UI thread, by whoever runs
//! the backend. Here is the recipe and the order it is replayed in; what each
//! step does is up to the one replaying it.

use vstd::prelude::*;

verus! {

/// Who this application is.
///
/// One source for the handful of strings that several plugins need and that
/// nothing else can supply: the store wants a directory to write in, an
/// updater wants a version to compare, a crash reporter wants a publisher.
#[derive(Debug, Clone, PartialEq, Eq)]
pub struct AppMeta {
    /// Shown to a person: "Processes".
    pub name: &'static str,
    /// Written for a machine, and stable across renames: reverse-DNS, as in
    /// "dev.uniproc.processes". This is what decides where data lives.
    pub identifier: &'static str,
    pub version: &'static str,
    pub publisher: &'static str,
}

impl AppMeta {
    pub fn new(
        name: &'static str,
        identifier: &'static str,
        version: &'static str,
        publisher: &'static str,
    ) -> (r: AppMeta)
        ensures
            r.name == name,
            r.identifier == identifier,
            r.version == version,
            r.publisher == publisher,
    {
        AppMeta { name, identifier, version, publisher }
    }
}

/// The shell does not have this concept, or cannot do it here.
///
/// Not an error in the usual sense - nothing went wrong, and a caller that
/// can carry on should. A terminal has no window to move.
#[derive(Clone, Copy, PartialEq, Eq, Debug, Structural)]
pub struct Unsupported;

impl Unsupported {
    /// What the shell said, as a sentence.
    pub fn message(&self) -> (r: &'static str)
        ensures
            r@ == "the shell does not support this"@,
    {
        "the shell does not support this"
    }
}

/// One step of installing an application, in the order they are replayed.
#[derive(Debug)]
pub enum Install<T> {
    /// Provide who the application is, before anything else.
    Meta(AppMeta),
    /// Provide a service the application did not build itself.
    Service(T),
    /// Install a plugin or a feature.
    Register(T),
    /// Run a hook once everything is installed.
    Ready(T),
}

/// The recipe: `T` is what each step carries - a closure over the builder,
/// for whoever replays it.
pub struct GuineaApp<T> {
    meta: Option<AppMeta>,
    services: Vec<T>,
    registrations: Vec<T>,
    ready: Vec<T>,
}

/// The recipe as its contracts speak of it.
pub struct Recipe<T> {
    pub meta: Option<AppMeta>,
    pub services: Seq<T>,
    pub registrations: Seq<T>,
    pub ready: Seq<T>,
}

impl<T> View for GuineaApp<T> {
    type V = Recipe<T>;

    open spec fn view(&self) -> Recipe<T> {
        self.recipe()
    }
}

/// The steps of `recipe` in the order they are replayed: who the application
/// is, then the services, then plugins and features in the order they were
/// registered, then the ready hooks.
pub open spec fn replay<T>(recipe: Recipe<T>) -> Seq<Install<T>> {
    let meta: Seq<Install<T>> = match recipe.meta {
        Some(meta) => seq![Install::Meta(meta)],
        None => Seq::empty(),
    };
    meta + recipe.services.map_values(|t: T| Install::Service(t)) + recipe.registrations.map_values(
        |t: T| Install::Register(t),
    ) + recipe.ready.map_values(|t: T| Install::Ready(t))
}

fn move_into<T>(out: &mut Vec<Install<T>>, steps: Vec<T>, kind: u8)
    requires
        kind < 3,
    ensures
        final(out)@ == old(out)@ + steps@.map_values(
            |t: T|
                if kind == 0 {
                    Install::Service(t)
                } else if kind == 1 {
                    Install::Register(t)
                } else {
                    Install::Ready(t)
                },
        ),
{
    let ghost start = out@;
    let ghost all = steps@;
    let mut rest = steps;
    let mut k: usize = 0;
    while rest.len() > 0
        invariant
            k <= all.len(),
            all.len() == steps.len(),
            rest@ == all.skip(k as int),
            kind < 3,
            out@ == start + all.take(k as int).map_values(
                |t: T|
                    if kind == 0 {
                        Install::Service(t)
                    } else if kind == 1 {
                        Install::Register(t)
                    } else {
                        Install::Ready(t)
                    },
            ),
        decreases rest.len(),
    {
        let step = rest.remove(0);
        proof {
            assert(step == all[k as int]);
            assert(rest@ =~= all.skip(k + 1));
        }
        if kind == 0 {
            out.push(Install::Service(step));
        } else if kind == 1 {
            out.push(Install::Register(step));
        } else {
            out.push(Install::Ready(step));
        }
        proof {
            let wrap = |t: T|
                if kind == 0 {
                    Install::Service(t)
                } else if kind == 1 {
                    Install::Register(t)
                } else {
                    Install::Ready(t)
                };
            assert(all.take(k + 1).map_values(wrap) =~= all.take(k as int).map_values(wrap).push(wrap(all[k as int])));
            assert(out@ =~= start + all.take(k + 1).map_values(wrap));
        }
        k = k + 1;
    }
    proof {
        assert(all.take(k as int) =~= all);
    }
}

impl<T> GuineaApp<T> {
    pub closed spec fn recipe(&self) -> Recipe<T> {
        Recipe {
            meta: self.meta,
            services: self.services@,
            registrations: self.registrations@,
            ready: self.ready@,
        }
    }

    /// An empty recipe.
    pub fn new() -> (r: GuineaApp<T>)
        ensures
            r@.meta is None,
            r@.services.len() == 0,
            r@.registrations.len() == 0,
            r@.ready.len() == 0,
    {
        GuineaApp { meta: None, services: Vec::new(), registrations: Vec::new(), ready: Vec::new() }
    }

    /// Declares who this application is; installed before anything else,
    /// wherever this call sits in the chain.
    pub fn meta(self, meta: AppMeta) -> (r: GuineaApp<T>)
        ensures
            r@ == (Recipe { meta: Some(meta), ..self@ }),
    {
        GuineaApp { meta: Some(meta), ..self }
    }

    /// Provides a service the application did not build itself; installed
    /// before any plugin, like [`meta`](Self::meta).
    pub fn provide(self, service: T) -> (r: GuineaApp<T>)
        ensures
            r@ == (Recipe { services: self@.services.push(service), ..self@ }),
    {
        let mut app = self;
        app.services.push(service);
        app
    }

    /// Registers a plugin, installed in registration order among plugins and
    /// features.
    pub fn plugin(self, plugin: T) -> (r: GuineaApp<T>)
        ensures
            r@ == (Recipe { registrations: self@.registrations.push(plugin), ..self@ }),
    {
        let mut app = self;
        app.registrations.push(plugin);
        app
    }

    /// Registers a feature, installed in registration order among plugins
    /// and features.
    pub fn feature(self, feature: T) -> (r: GuineaApp<T>)
        ensures
            r@ == (Recipe { registrations: self@.registrations.push(feature), ..self@ }),
    {
        let mut app = self;
        app.registrations.push(feature);
        app
    }

    /// Runs once everything is installed, before the first render.
    pub fn on_ready(self, hook: T) -> (r: GuineaApp<T>)
        ensures
            r@ == (Recipe { ready: self@.ready.push(hook), ..self@ }),
    {
        let mut app = self;
        app.ready.push(hook);
        app
    }

    /// The recipe's steps in the order they are replayed.
    pub fn install(self) -> (r: Vec<Install<T>>)
        ensures
            r@ == replay(self@),
    {
        let ghost recipe = self@;
        let GuineaApp { meta, services, registrations, ready } = self;
        let mut steps: Vec<Install<T>> = Vec::new();
        if let Some(meta) = meta {
            steps.push(Install::Meta(meta));
        }
        move_into(&mut steps, services, 0);
        move_into(&mut steps, registrations, 1);
        move_into(&mut steps, ready, 2);
        proof {
            let services_wrap = |t: T| Install::Service(t);
            let wrap0 = |t: T|
                if 0u8 == 0 {
                    Install::Service(t)
                } else if 0u8 == 1 {
                    Install::Register(t)
                } else {
                    Install::Ready(t)
                };
            assert(recipe.services.map_values(wrap0) =~= recipe.services.map_values(services_wrap));
            let wrap1 = |t: T|
                if 1u8 == 0 {
                    Install::Service(t)
                } else if 1u8 == 1 {
                    Install::Register(t)
                } else {
                    Install::Ready(t)
                };
            assert(recipe.registrations.map_values(wrap1) =~= recipe.registrations.map_values(|t: T| Install::Register(t)));
            let wrap2 = |t: T|
                if 2u8 == 0 {
                    Install::Service(t)
                } else if 2u8 == 1 {
                    Install::Register(t)
                } else {
                    Install::Ready(t)
                };
            assert(recipe.ready.map_values(wrap2) =~= recipe.ready.map_values(|t: T| Install::Ready(t)));
            assert(steps@ =~= replay(recipe));
        }
        steps
    }
}

/// An application's identity is not a step in a sequence: a plugin
/// registered before `meta` was declared still finds it, since whatever the
/// order of the calls, who the application is is installed first.
pub proof fn law_meta_installs_first<T>(recipe: Recipe<T>, meta: AppMeta)
    requires
        recipe.meta == Some(meta),
    ensures
        replay(recipe).len() > 0,
        replay(recipe)[0] == Install::<T>::Meta(meta),
{
    let first = seq![Install::<T>::Meta(meta)];
    let rest = recipe.services.map_values(|t: T| Install::Service(t)) + recipe.registrations.map_values(
        |t: T| Install::Register(t),
    ) + recipe.ready.map_values(|t: T| Install::Ready(t));
    assert(replay(recipe) =~= first + rest);
}

/// Plugins and features install in the order they were registered, after
/// every service and before every ready hook.
pub proof fn law_registration_order<T>(recipe: Recipe<T>, k: int)
    requires
        0 <= k < recipe.registrations.len(),
    ensures
        replay(recipe)[(if recipe.meta is Some { 1int } else { 0 }) + recipe.services.len() + k]
            == Install::Register(recipe.registrations[k]),
{
    let meta: Seq<Install<T>> = match recipe.meta {
        Some(meta) => seq![Install::Meta(meta)],
        None => Seq::empty(),
    };
    let services = recipe.services.map_values(|t: T| Install::Service(t));
    let registered = recipe.registrations.map_values(|t: T| Install::Register(t));
    let ready = recipe.ready.map_values(|t: T| Install::Ready(t));
    assert(replay(recipe) =~= meta + services + registered + ready);
    assert((meta + services + registered + ready)[meta.len() + services.len() + k] == registered[k]);
}

/// How many steps saying who the application is come first: one when it
/// was said, else none.
pub open spec fn meta_steps<T>(recipe: Recipe<T>) -> int {
    if recipe.meta is Some {
        1
    } else {
        0
    }
}

/// Installing keeps every step of the recipe, each once: who the
/// application is (when it was said), every service, every plugin and
/// feature, then every ready hook, each group in the order it was given.
pub proof fn law_install_keeps_every_step<T>(recipe: Recipe<T>)
    ensures
        replay(recipe).len() == meta_steps(recipe) + recipe.services.len()
            + recipe.registrations.len() + recipe.ready.len(),
        forall|k: int| 0 <= k < recipe.services.len() ==> #[trigger] replay(recipe)[meta_steps(recipe) + k]
            == Install::Service(recipe.services[k]),
        forall|k: int| 0 <= k < recipe.ready.len() ==> #[trigger] replay(recipe)[meta_steps(recipe)
            + recipe.services.len() + recipe.registrations.len() + k] == Install::Ready(recipe.ready[k]),
{
    let meta: Seq<Install<T>> = match recipe.meta {
        Some(meta) => seq![Install::Meta(meta)],
        None => Seq::empty(),
    };
    let services = recipe.services.map_values(|t: T| Install::Service(t));
    let registered = recipe.registrations.map_values(|t: T| Install::Register(t));
    let ready = recipe.ready.map_values(|t: T| Install::Ready(t));
    let all = meta + services + registered + ready;
    assert(replay(recipe) =~= all);
    assert forall|k: int| 0 <= k < recipe.services.len() implies #[trigger] replay(recipe)[meta.len() + k]
        == Install::Service(recipe.services[k]) by {
        assert(all[meta.len() + k] == services[k]);
    }
    assert forall|k: int| 0 <= k < recipe.ready.len() implies #[trigger] replay(recipe)[meta.len() + services.len()
        + registered.len() + k] == Install::Ready(recipe.ready[k]) by {
        assert(all[meta.len() + services.len() + registered.len() + k] == ready[k]);
    }
}

/// Records a navigation to `to`: hands back where the application was, and
/// remembers where it is now.
pub fn route_changed(last: &mut Option<String>, to: &str) -> (from: Option<String>)
    ensures
        from == *old(last),
        *final(last) matches Some(now) && now@ == to@,
{
    let mut next = Some(String::from_str(to));
    std::mem::swap(last, &mut next);
    next
}

/// Whether `seen` is where the application was, as a route hook is handed
/// it: the same text, or none when it was nowhere.
pub open spec fn same_route(seen: Option<&str>, was: Option<String>) -> bool {
    match (seen, was) {
        (Some(text), Some(route)) => text@ == route@,
        (None, None) => true,
        _ => false,
    }
}

/// Whether `hook` was told of a navigation from `was` to `to`.
pub open spec fn told_route<H: Fn(Option<&str>, &str)>(hook: H, was: Option<String>, to: &str) -> bool {
    exists|seen: Option<&str>| same_route(seen, was) && #[trigger] hook.ensures((seen, to), ())
}

/// Records a navigation to `to` and tells each route hook, once and in
/// order, where the application was and where it is now.
pub fn tell_route_hooks<H: Fn(Option<&str>, &str)>(hooks: &Vec<H>, last: &mut Option<String>, to: &str)
    requires
        forall|i: int, seen: Option<&str>| 0 <= i < hooks.len() ==> #[trigger] hooks@[i].requires((seen, to)),
    ensures
        *final(last) matches Some(now) && now@ == to@,
        forall|i: int| 0 <= i < hooks.len() ==> #[trigger] told_route(hooks@[i], *old(last), to),
{
    let from = route_changed(last, to);
    let seen: Option<&str> = match &from {
        Some(route) => Some(route.as_str()),
        None => None,
    };
    let mut k: usize = 0;
    while k < hooks.len()
        invariant
            k <= hooks.len(),
            same_route(seen, from),
            forall|i: int, s: Option<&str>| 0 <= i < hooks.len() ==> #[trigger] hooks@[i].requires((s, to)),
            forall|i: int| 0 <= i < k ==> #[trigger] told_route(hooks@[i], from, to),
        decreases hooks.len() - k,
    {
        let hook = &hooks[k];
        hook(seen, to);
        proof {
            assert(hooks@[k as int].ensures((seen, to), ()));
            assert(told_route(hooks@[k as int], from, to));
        }
        k = k + 1;
    }
}

/// Whether `mids` are the contexts running `steps` in order went through,
/// each step succeeding: the first is where it started, each next one what
/// a step left.
pub open spec fn chained<T, C, E, R: Fn(T, C) -> (C, Option<E>)>(run: R, steps: Seq<T>, mids: Seq<C>) -> bool {
    &&& mids.len() == steps.len() + 1
    &&& forall|i: int| 0 <= i < steps.len() ==> #[trigger] run.ensures((steps[i], mids[i]), (mids[i + 1], None::<E>))
}

/// Whether running `steps` in order from `init`, the ones before `at`
/// succeeding, can have the one at `at` fail with `error`, leaving `left`.
pub open spec fn stopped_at<T, C, E, R: Fn(T, C) -> (C, Option<E>)>(
    run: R,
    steps: Seq<T>,
    init: C,
    at: int,
    left: C,
    error: E,
) -> bool {
    exists|mids: Seq<C>| #[trigger] chained(run, steps.take(at), mids) && mids[0] == init && run.ensures(
        (steps[at], mids.last()),
        (left, Some(error)),
    )
}

/// Runs `steps` in order on `ctx`, stopping at the first that fails: a
/// step hands back the context and its error, if any. With no error, every
/// step ran and succeeded, each on what the one before left. On an error,
/// the steps before the failing one ran and succeeded, the failing one's
/// error comes back with what it left, and no step after it ran: the
/// context handed back is the failing step's. `r.1` is how many steps
/// succeeded.
pub fn run_steps<T, C, E, R: Fn(T, C) -> (C, Option<E>)>(steps: Vec<T>, init: C, run: R) -> (r: (C, usize, Option<E>))
    requires
        forall|t: T, c: C| #[trigger] run.requires((t, c)),
    ensures
        r.1 <= steps.len(),
        r.2 is None ==> r.1 == steps.len() && exists|mids: Seq<C>| #[trigger] chained(run, steps@, mids)
            && mids[0] == init && mids.last() == r.0,
        r.2 is Some ==> r.1 < steps.len(),
        r.2 matches Some(e) ==> stopped_at(run, steps@, init, r.1 as int, r.0, e),
{
    let ghost all = steps@;
    let ghost start = init;
    let mut rest = steps;
    let mut ctx = init;
    let mut done: usize = 0;
    let ghost mut mids: Seq<C> = seq![ctx];
    proof {
        assert(all.take(0) =~= Seq::<T>::empty());
        assert(rest@ =~= all.skip(0));
        assert(all.len() == rest.len());
    }
    while rest.len() > 0
        invariant
            done + rest.len() == all.len(),
            all.len() <= usize::MAX,
            all == steps@,
            rest@ == all.skip(done as int),
            chained(run, all.take(done as int), mids),
            mids[0] == start,
            start == init,
            mids.last() == ctx,
            forall|t: T, c: C| #[trigger] run.requires((t, c)),
        decreases rest.len(),
    {
        let ghost before = ctx;
        let step = rest.remove(0);
        proof {
            assert(step == all[done as int]);
            assert(rest@ =~= all.skip(done + 1));
        }
        let ghost this = step;
        let result = run(step, ctx);
        let ghost got = result;
        let (next, outcome) = result;
        ctx = next;
        if outcome.is_some() {
            proof {
                assert(run.ensures((this, before), (ctx, outcome)));
                assert(this == steps@[done as int]);
                assert(mids.last() == before);
                assert(chained(run, steps@.take(done as int), mids));
                let ghost failure = outcome;
                assert(failure matches Some(e) ==> stopped_at(run, steps@, init, done as int, ctx, e));
            }
            return (ctx, done, outcome);
        }
        proof {
            assert(run.ensures((this, before), (ctx, None::<E>)));
            let old_mids = mids;
            mids = mids.push(ctx);
            let taken = all.take(done + 1);
            assert forall|i: int| 0 <= i < taken.len() implies #[trigger] run.ensures(
                (taken[i], mids[i]),
                (mids[i + 1], None::<E>),
            ) by {
                if i < done {
                    assert(taken[i] == all.take(done as int)[i]);
                    assert(run.ensures((all.take(done as int)[i], old_mids[i]), (old_mids[i + 1], None::<E>)));
                }
            }
        }
        done = done + 1;
    }
    proof {
        assert(all.take(done as int) =~= all);
    }
    (ctx, done, None)
}

} // verus!
