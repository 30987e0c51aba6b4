//! `cman build`: the order in which a build removes stale artifacts,
//! compiles, links and records its flags. The decisions are a step function
//! from the build's state and the outcome of the last action to the next
//! action; the caller performs each action and reports how it went.

use vstd::prelude::*;

use crate::error::CmanError;
use crate::fingerprint::must_relink;

verus! {

/// What a build has done so far: which units are stale, whether the
/// executable is to be linked again, and which steps have been carried out.
/// Held with `Vec<bool>` while running and `Seq<bool>` in specifications.
pub struct BuildState<B> {
    pub stale: B,
    pub relink: bool,
    pub removed: B,
    pub compiled: bool,
    pub binary_removed: bool,
    pub linked: bool,
    pub recorded: bool,
}

/// The next thing a build does.
pub enum BuildAction<U> {
    /// Remove the object and dependency file of the stale unit `unit`, so
    /// that a compile that fails part way leaves nothing that looks fresh.
    RemoveArtifacts { unit: usize },
    /// Compile these stale units, in order.
    Compile { units: U },
    /// Remove the executable before linking it again.
    RemoveBinary,
    /// Link the executable.
    Link,
    /// Record the flag hash of this build.
    RecordFlags,
    /// The build is done.
    Finish,
    /// The build stops with this error.
    Fail(CmanError),
}

/// How the last action went.
pub enum BuildEvent {
    /// The build begins.
    Start,
    /// The files were removed.
    Removed,
    /// The compile finished, with the verdict of `compile_result`.
    Compiled(Result<(), CmanError>),
    /// The link finished, with the verdict of `link_result`.
    Linked(Result<(), CmanError>),
    /// The flag hash was recorded.
    Recorded,
}

/// The view of a running build's state.
pub open spec fn state_view(s: BuildState<Vec<bool>>) -> BuildState<Seq<bool>> {
    BuildState {
        stale: s.stale@,
        relink: s.relink,
        removed: s.removed@,
        compiled: s.compiled,
        binary_removed: s.binary_removed,
        linked: s.linked,
        recorded: s.recorded,
    }
}

/// The view of an action.
pub open spec fn action_view(a: BuildAction<Vec<usize>>) -> BuildAction<Seq<usize>> {
    match a {
        BuildAction::RemoveArtifacts { unit } => BuildAction::RemoveArtifacts { unit },
        BuildAction::Compile { units } => BuildAction::Compile { units: units@ },
        BuildAction::RemoveBinary => BuildAction::RemoveBinary,
        BuildAction::Link => BuildAction::Link,
        BuildAction::RecordFlags => BuildAction::RecordFlags,
        BuildAction::Finish => BuildAction::Finish,
        BuildAction::Fail(e) => BuildAction::Fail(e),
    }
}

/// Some unit is stale.
pub open spec fn any_stale(stale: Seq<bool>) -> bool {
    exists|i: int| 0 <= i < stale.len() && stale[i]
}

/// The indices below `n` of the stale units, in order.
pub open spec fn stale_units(stale: Seq<bool>, n: int) -> Seq<usize>
    decreases n,
{
    if n <= 0 {
        Seq::empty()
    } else if stale[n - 1] {
        stale_units(stale, n - 1).push((n - 1) as usize)
    } else {
        stale_units(stale, n - 1)
    }
}

/// The first stale unit from `i` on whose artifacts are still there, or the
/// number of units when there is none.
pub open spec fn first_pending(stale: Seq<bool>, removed: Seq<bool>, i: int) -> int
    decreases stale.len() - i,
{
    if i < 0 || i >= stale.len() {
        stale.len() as int
    } else if stale[i] && !removed[i] {
        i
    } else {
        first_pending(stale, removed, i + 1)
    }
}

/// The action a build in state `s` takes next: remove the artifacts of each
/// stale unit in turn, compile the stale units, remove and then link the
/// executable when it is to be linked again, record the flags, and finish.
pub open spec fn next_action(s: BuildState<Seq<bool>>) -> BuildAction<Seq<usize>> {
    let p = first_pending(s.stale, s.removed, 0);
    if p < s.stale.len() {
        BuildAction::RemoveArtifacts { unit: p as usize }
    } else if any_stale(s.stale) && !s.compiled {
        BuildAction::Compile { units: stale_units(s.stale, s.stale.len() as int) }
    } else if s.relink && !s.binary_removed {
        BuildAction::RemoveBinary
    } else if s.relink && !s.linked {
        BuildAction::Link
    } else if !s.recorded {
        BuildAction::RecordFlags
    } else {
        BuildAction::Finish
    }
}

/// The state after the outcome `e` of the action that state `s` called
/// for, or the error that stops the build. An outcome that does not answer
/// that action changes nothing.
pub open spec fn apply_event(s: BuildState<Seq<bool>>, e: BuildEvent) -> Result<BuildState<Seq<bool>>, CmanError> {
    match e {
        BuildEvent::Start => Ok(s),
        BuildEvent::Removed => match next_action(s) {
            BuildAction::RemoveArtifacts { unit } => Ok(
                BuildState {
                    stale: s.stale,
                    relink: s.relink,
                    removed: s.removed.update(unit as int, true),
                    compiled: s.compiled,
                    binary_removed: s.binary_removed,
                    linked: s.linked,
                    recorded: s.recorded,
                },
            ),
            BuildAction::RemoveBinary => Ok(
                BuildState {
                    stale: s.stale,
                    relink: s.relink,
                    removed: s.removed,
                    compiled: s.compiled,
                    binary_removed: true,
                    linked: s.linked,
                    recorded: s.recorded,
                },
            ),
            _ => Ok(s),
        },
        BuildEvent::Compiled(Ok(())) => if next_action(s) is Compile {
            Ok(
                BuildState {
                    stale: s.stale,
                    relink: s.relink,
                    removed: s.removed,
                    compiled: true,
                    binary_removed: s.binary_removed,
                    linked: s.linked,
                    recorded: s.recorded,
                },
            )
        } else {
            Ok(s)
        },
        BuildEvent::Compiled(Err(err)) => Err(err),
        BuildEvent::Linked(Ok(())) => if next_action(s) is Link {
            Ok(
                BuildState {
                    stale: s.stale,
                    relink: s.relink,
                    removed: s.removed,
                    compiled: s.compiled,
                    binary_removed: s.binary_removed,
                    linked: true,
                    recorded: s.recorded,
                },
            )
        } else {
            Ok(s)
        },
        BuildEvent::Linked(Err(err)) => Err(err),
        BuildEvent::Recorded => if next_action(s) is RecordFlags {
            Ok(
                BuildState {
                    stale: s.stale,
                    relink: s.relink,
                    removed: s.removed,
                    compiled: s.compiled,
                    binary_removed: s.binary_removed,
                    linked: s.linked,
                    recorded: true,
                },
            )
        } else {
            Ok(s)
        },
    }
}

/// One step of a build: take in the outcome of the last action and say
/// what to do next; a failed compile or link stops the build with its error.
pub open spec fn spec_build_step(s: BuildState<Seq<bool>>, e: BuildEvent) -> (BuildState<Seq<bool>>, BuildAction<Seq<usize>>) {
    match apply_event(s, e) {
        Ok(t) => (t, next_action(t)),
        Err(err) => (s, BuildAction::Fail(err)),
    }
}

/// The state a build starts in: the units' staleness, and a relink when a
/// unit is stale or the executable is out of date.
pub open spec fn spec_start_build(stale: Seq<bool>, out_of_date: bool) -> BuildState<Seq<bool>> {
    BuildState {
        stale,
        relink: any_stale(stale) || out_of_date,
        removed: Seq::new(stale.len(), |i: int| false),
        compiled: false,
        binary_removed: false,
        linked: false,
        recorded: false,
    }
}

/// A state whose lists describe the same units.
pub open spec fn well_formed(s: BuildState<Seq<bool>>) -> bool {
    s.stale.len() == s.removed.len()
}

proof fn lemma_first_pending(stale: Seq<bool>, removed: Seq<bool>, i: int)
    requires
        0 <= i <= stale.len(),
    ensures
        i <= first_pending(stale, removed, i) <= stale.len(),
        first_pending(stale, removed, i) < stale.len() ==> stale[first_pending(stale, removed, i)]
            && !removed[first_pending(stale, removed, i)],
        forall|j: int| i <= j < first_pending(stale, removed, i) ==> !(stale[j] && !removed[j]),
    decreases stale.len() - i,
{
    if i < stale.len() && !(stale[i] && !removed[i]) {
        lemma_first_pending(stale, removed, i + 1);
    }
}

proof fn lemma_stale_units(stale: Seq<bool>, n: int)
    requires
        0 <= n <= stale.len(),
        stale.len() <= usize::MAX,
    ensures
        forall|m: int| 0 <= m < stale_units(stale, n).len() ==> (#[trigger] stale_units(stale, n)[m]) < n
            && stale[stale_units(stale, n)[m] as int],
        stale_units(stale, n).len() > 0 <==> exists|i: int| 0 <= i < n && stale[i],
    decreases n,
{
    if n > 0 {
        lemma_stale_units(stale, n - 1);
        let prev = stale_units(stale, n - 1);
        let su = stale_units(stale, n);
        assert forall|m: int| 0 <= m < su.len() implies (#[trigger] su[m]) < n && stale[su[m] as int] by {
            if m < prev.len() {
                assert(su[m] == prev[m]);
            }
        }
        if stale[n - 1] {
            assert(su[su.len() - 1] == (n - 1) as usize);
        }
    }
}

/// Start a build over units whose staleness is `stale`; `out_of_date` says
/// whether the executable is out of date, which only matters when no unit
/// is stale.
pub fn start_build(stale: Vec<bool>, out_of_date: bool) -> (state: BuildState<Vec<bool>>)
    ensures
        state_view(state) == spec_start_build(stale@, out_of_date),
{
    let n = stale.len();
    let mut removed: Vec<bool> = Vec::new();
    let mut any = false;
    let mut i: usize = 0;
    while i < n
        invariant
            n == stale@.len(),
            i <= n,
            removed@ == Seq::new(i as nat, |k: int| false),
            any == exists|k: int| 0 <= k < i && stale@[k],
        decreases n - i,
    {
        if stale[i] {
            any = true;
        }
        removed.push(false);
        assert(removed@ =~= Seq::new((i + 1) as nat, |k: int| false));
        i = i + 1;
    }
    let relink = must_relink(any, out_of_date);
    BuildState {
        stale,
        relink,
        removed,
        compiled: false,
        binary_removed: false,
        linked: false,
        recorded: false,
    }
}

/// The action a running build takes next.
fn pending_action(state: &BuildState<Vec<bool>>) -> (action: BuildAction<Vec<usize>>)
    requires
        state.stale.len() == state.removed.len(),
    ensures
        action_view(action) == next_action(state_view(*state)),
{
    let ghost s = state_view(*state);
    let n = state.stale.len();
    proof {
        lemma_first_pending(s.stale, s.removed, 0);
    }
    let mut i: usize = 0;
    while i < n
        invariant
            s == state_view(*state),
            n == s.stale.len(),
            n == s.removed.len(),
            i <= n,
            first_pending(s.stale, s.removed, i as int) == first_pending(s.stale, s.removed, 0),
        decreases n - i,
    {
        if state.stale[i] && !state.removed[i] {
            return BuildAction::RemoveArtifacts { unit: i };
        }
        i = i + 1;
    }
    let mut units: Vec<usize> = Vec::new();
    let mut j: usize = 0;
    while j < n
        invariant
            s == state_view(*state),
            n == s.stale.len(),
            j <= n,
            units@ == stale_units(s.stale, j as int),
        decreases n - j,
    {
        if state.stale[j] {
            units.push(j);
        }
        j = j + 1;
    }
    proof {
        lemma_stale_units(s.stale, n as int);
    }
    if units.len() > 0 && !state.compiled {
        BuildAction::Compile { units }
    } else if state.relink && !state.binary_removed {
        BuildAction::RemoveBinary
    } else if state.relink && !state.linked {
        BuildAction::Link
    } else if !state.recorded {
        BuildAction::RecordFlags
    } else {
        BuildAction::Finish
    }
}

/// One step of a build: take in how the last action went (`Start` at
/// first) and return the new state and the next action to perform.
pub fn next_build_step(state: BuildState<Vec<bool>>, event: BuildEvent) -> (next: (
    BuildState<Vec<bool>>,
    BuildAction<Vec<usize>>,
))
    requires
        state.stale.len() == state.removed.len(),
    ensures
        state_view(next.0) == spec_build_step(state_view(state), event).0,
        action_view(next.1) == spec_build_step(state_view(state), event).1,
        next.0.stale.len() == next.0.removed.len(),
{
    let ghost s = state_view(state);
    let mut state = state;
    let pending = pending_action(&state);
    proof {
        lemma_first_pending(s.stale, s.removed, 0);
    }
    match event {
        BuildEvent::Start => {},
        BuildEvent::Removed => match pending {
            BuildAction::RemoveArtifacts { unit } => {
                state.removed.set(unit, true);
            },
            BuildAction::RemoveBinary => {
                state.binary_removed = true;
            },
            _ => {},
        },
        BuildEvent::Compiled(Ok(())) => if let BuildAction::Compile { .. } = pending {
            state.compiled = true;
        },
        BuildEvent::Compiled(Err(err)) => {
            return (state, BuildAction::Fail(err));
        },
        BuildEvent::Linked(Ok(())) => if let BuildAction::Link = pending {
            state.linked = true;
        },
        BuildEvent::Linked(Err(err)) => {
            return (state, BuildAction::Fail(err));
        },
        BuildEvent::Recorded => if let BuildAction::RecordFlags = pending {
            state.recorded = true;
        },
    }
    assert(apply_event(s, event) == Ok::<BuildState<Seq<bool>>, CmanError>(state_view(state)));
    let action = pending_action(&state);
    (state, action)
}

/// The steps a build takes from state `s0` for the outcomes `events`, one
/// step per outcome: each step's new state and action.
pub open spec fn run_build(s0: BuildState<Seq<bool>>, events: Seq<BuildEvent>) -> Seq<
    (BuildState<Seq<bool>>, BuildAction<Seq<usize>>),
>
    decreases events.len(),
{
    if events.len() == 0 {
        Seq::empty()
    } else {
        let before = run_build(s0, events.drop_last());
        let s = if before.len() == 0 {
            s0
        } else {
            before.last().0
        };
        before.push(spec_build_step(s, events.last()))
    }
}

/// The state of a run before its step `k`.
pub open spec fn state_before(
    s0: BuildState<Seq<bool>>,
    r: Seq<(BuildState<Seq<bool>>, BuildAction<Seq<usize>>)>,
    k: int,
) -> BuildState<Seq<bool>> {
    if k == 0 {
        s0
    } else {
        r[k - 1].0
    }
}

/// Before step `k` of run `r`, the action `a` was asked for and the next
/// outcome reported was `e`.
pub open spec fn answered(
    r: Seq<(BuildState<Seq<bool>>, BuildAction<Seq<usize>>)>,
    events: Seq<BuildEvent>,
    k: int,
    a: BuildAction<Seq<usize>>,
    e: BuildEvent,
) -> bool {
    exists|j: int| #![trigger r[j]] 0 <= j && j + 1 < k && r[j].1 == a && events[j + 1] == e
}

proof fn lemma_run_steps(s0: BuildState<Seq<bool>>, events: Seq<BuildEvent>)
    ensures
        run_build(s0, events).len() == events.len(),
        forall|k: int|
            0 <= k < events.len() ==> #[trigger] run_build(s0, events)[k] == spec_build_step(
                state_before(s0, run_build(s0, events), k),
                events[k],
            ),
    decreases events.len(),
{
    if events.len() > 0 {
        let init = events.drop_last();
        lemma_run_steps(s0, init);
        let ri = run_build(s0, init);
        let r = run_build(s0, events);
        assert forall|k: int| 0 <= k < events.len() implies #[trigger] r[k] == spec_build_step(
            state_before(s0, r, k),
            events[k],
        ) by {
            if k < events.len() - 1 {
                assert(r[k] == ri[k]);
                assert(events[k] == init[k]);
                if k > 0 {
                    assert(r[k - 1] == ri[k - 1]);
                }
            }
        }
    }
}

proof fn lemma_answered_grows(
    r: Seq<(BuildState<Seq<bool>>, BuildAction<Seq<usize>>)>,
    events: Seq<BuildEvent>,
    k: int,
    a: BuildAction<Seq<usize>>,
    e: BuildEvent,
)
    requires
        answered(r, events, k, a, e),
    ensures
        answered(r, events, k + 1, a, e),
{
    let j = choose|j: int| #![trigger r[j]] 0 <= j && j + 1 < k && r[j].1 == a && events[j + 1] == e;
    assert(r[j].1 == a);
}

/// What has been done before step `k` of a run of a build was asked for and
/// reported done: every removal and the link.
pub open spec fn explained(
    stale: Seq<bool>,
    relink: bool,
    r: Seq<(BuildState<Seq<bool>>, BuildAction<Seq<usize>>)>,
    events: Seq<BuildEvent>,
    st: BuildState<Seq<bool>>,
    k: int,
) -> bool {
    &&& st.stale == stale
    &&& st.relink == relink
    &&& st.removed.len() == stale.len()
    &&& forall|i: int|
        0 <= i < stale.len() && #[trigger] st.removed[i] ==> answered(
            r,
            events,
            k,
            BuildAction::RemoveArtifacts { unit: i as usize },
            BuildEvent::Removed,
        )
    &&& st.binary_removed ==> answered(r, events, k, BuildAction::RemoveBinary, BuildEvent::Removed)
    &&& st.linked ==> answered(r, events, k, BuildAction::Link, BuildEvent::Linked(Ok(())))
    &&& st.compiled ==> answered(
        r,
        events,
        k,
        BuildAction::Compile { units: stale_units(stale, stale.len() as int) },
        BuildEvent::Compiled(Ok(())),
    )
}

proof fn lemma_explained_step(
    stale: Seq<bool>,
    relink: bool,
    r: Seq<(BuildState<Seq<bool>>, BuildAction<Seq<usize>>)>,
    events: Seq<BuildEvent>,
    st: BuildState<Seq<bool>>,
    k: int,
)
    requires
        1 <= k <= events.len(),
        r.len() == events.len(),
        explained(stale, relink, r, events, st, k - 1),
        r[k - 1] == spec_build_step(st, events[k - 1]),
        k == 1 ==> events[0] == BuildEvent::Start,
        k >= 2 ==> r[k - 2].1 == next_action(st),
    ensures
        explained(stale, relink, r, events, r[k - 1].0, k),
{
    let ev = events[k - 1];
    let t = r[k - 1].0;
    assert forall|i: int| 0 <= i < stale.len() && #[trigger] st.removed[i] implies answered(
        r,
        events,
        k,
        BuildAction::RemoveArtifacts { unit: i as usize },
        BuildEvent::Removed,
    ) by {
        lemma_answered_grows(r, events, k - 1, BuildAction::RemoveArtifacts { unit: i as usize }, BuildEvent::Removed);
    }
    if st.binary_removed {
        lemma_answered_grows(r, events, k - 1, BuildAction::RemoveBinary, BuildEvent::Removed);
    }
    if st.linked {
        lemma_answered_grows(r, events, k - 1, BuildAction::Link, BuildEvent::Linked(Ok(())));
    }
    if st.compiled {
        lemma_answered_grows(
            r,
            events,
            k - 1,
            BuildAction::Compile { units: stale_units(stale, stale.len() as int) },
            BuildEvent::Compiled(Ok(())),
        );
    }
    if k == 1 || apply_event(st, ev) is Err {
        assert(t == st);
    } else {
        let j = k - 2;
        assert(r[j].1 == next_action(st));
        assert(events[j + 1] == ev);
        lemma_first_pending(st.stale, st.removed, 0);
        match ev {
            BuildEvent::Removed => {
                match next_action(st) {
                    BuildAction::RemoveArtifacts { unit } => {
                        assert(t.removed == st.removed.update(unit as int, true));
                        assert forall|i: int| 0 <= i < stale.len() && #[trigger] t.removed[i] implies answered(
                            r,
                            events,
                            k,
                            BuildAction::RemoveArtifacts { unit: i as usize },
                            BuildEvent::Removed,
                        ) by {
                            if i == unit as int {
                                assert(r[j].1 == BuildAction::<Seq<usize>>::RemoveArtifacts { unit: i as usize });
                            } else {
                                assert(st.removed[i]);
                            }
                        }
                    },
                    BuildAction::RemoveBinary => {
                        assert(t.removed == st.removed);
                        assert(r[j].1 == BuildAction::<Seq<usize>>::RemoveBinary);
                    },
                    _ => {
                        assert(t == st);
                    },
                }
            },
            BuildEvent::Compiled(Ok(())) => {
                if next_action(st) is Compile {
                    if let BuildEvent::Compiled(Ok(x)) = ev {
                        assert(x == ());
                        assert(ev == BuildEvent::Compiled(Ok(x)));
                    }
                    assert(ev == BuildEvent::Compiled(Ok(())));
                    let c = BuildAction::<Seq<usize>>::Compile { units: stale_units(stale, stale.len() as int) };
                    assert(r[j].1 == c && events[j + 1] == BuildEvent::Compiled(Ok(())));
                    assert(answered(r, events, k, c, BuildEvent::Compiled(Ok(()))));
                } else {
                    assert(t == st);
                }
            },
            BuildEvent::Linked(Ok(())) => {
                if next_action(st) is Link {
                    if let BuildEvent::Linked(Ok(x)) = ev {
                        assert(x == ());
                        assert(ev == BuildEvent::Linked(Ok(x)));
                    }
                    assert(ev == BuildEvent::Linked(Ok(())));
                    assert(r[j].1 == BuildAction::<Seq<usize>>::Link && events[j + 1] == BuildEvent::Linked(
                        Ok(()),
                    ));
                    assert(answered(r, events, k, BuildAction::Link, BuildEvent::Linked(Ok(()))));
                } else {
                    assert(t == st);
                }
            },
            _ => {
                assert(t.removed == st.removed);
                assert(t.binary_removed == st.binary_removed);
                assert(t.linked == st.linked);
                assert(t.compiled == st.compiled);
            },
        }
    }
}

proof fn lemma_explained(stale: Seq<bool>, out_of_date: bool, events: Seq<BuildEvent>, k: int)
    requires
        stale.len() <= usize::MAX,
        events.len() > 0,
        events[0] == BuildEvent::Start,
        forall|j: int|
            0 <= j < events.len() - 1 ==> !(run_build(spec_start_build(stale, out_of_date), events)[j].1 is Fail),
        0 <= k <= events.len(),
    ensures
        ({
            let s0 = spec_start_build(stale, out_of_date);
            let r = run_build(s0, events);
            explained(stale, s0.relink, r, events, state_before(s0, r, k), k)
        }),
    decreases k,
{
    let s0 = spec_start_build(stale, out_of_date);
    let r = run_build(s0, events);
    lemma_run_steps(s0, events);
    if k > 0 {
        lemma_explained(stale, out_of_date, events, k - 1);
        let st = state_before(s0, r, k - 1);
        assert(r[k - 1] == spec_build_step(st, events[k - 1]));
        if k >= 2 {
            let j = k - 2;
            assert(!(r[j].1 is Fail));
            assert(r[j] == spec_build_step(state_before(s0, r, j), events[j]));
            assert(st == r[j].0);
        }
        lemma_explained_step(stale, s0.relink, r, events, st, k);
    }
}

/// A build acts in a safe order. Started over units whose staleness is
/// `stale` (with `out_of_date` saying whether the executable is out of date)
/// and fed the outcome of each action in turn, beginning with `Start` and
/// stopping at a failure:
/// - it compiles exactly the stale units, and each only after it asked for
///   that unit's object and dependency file to be removed and heard back;
/// - it links only after it asked for the old executable to be removed and
///   heard back;
/// - it records the flags only after a successful link, or when nothing was
///   stale and the executable was up to date.
pub proof fn law_build_acts_in_order(stale: Seq<bool>, out_of_date: bool, events: Seq<BuildEvent>)
    requires
        stale.len() <= usize::MAX,
        events.len() > 0,
        events[0] == BuildEvent::Start,
        forall|j: int|
            0 <= j < events.len() - 1 ==> !(run_build(spec_start_build(stale, out_of_date), events)[j].1 is Fail),
    ensures
        ({
            let r = run_build(spec_start_build(stale, out_of_date), events);
            forall|k: int|
                #![trigger r[k]]
                0 <= k < events.len() ==> {
                    &&& (r[k].1 matches BuildAction::Compile { units } ==> units == stale_units(
                        stale,
                        stale.len() as int,
                    ) && forall|m: int|
                        0 <= m < units.len() ==> answered(
                            r,
                            events,
                            k + 1,
                            BuildAction::RemoveArtifacts { unit: #[trigger] units[m] },
                            BuildEvent::Removed,
                        ))
                    &&& (r[k].1 is Link ==> answered(
                        r,
                        events,
                        k + 1,
                        BuildAction::RemoveBinary,
                        BuildEvent::Removed,
                    ))
                    &&& (r[k].1 is RecordFlags ==> answered(
                        r,
                        events,
                        k + 1,
                        BuildAction::Link,
                        BuildEvent::Linked(Ok(())),
                    ) || (!any_stale(stale) && !out_of_date))
                }
        }),
{
    let s0 = spec_start_build(stale, out_of_date);
    let r = run_build(s0, events);
    lemma_run_steps(s0, events);
    assert forall|k: int| #![trigger r[k]] 0 <= k < events.len() implies {
        &&& (r[k].1 matches BuildAction::Compile { units } ==> units == stale_units(
            stale,
            stale.len() as int,
        ) && forall|m: int|
            0 <= m < units.len() ==> answered(
                r,
                events,
                k + 1,
                BuildAction::RemoveArtifacts { unit: #[trigger] units[m] },
                BuildEvent::Removed,
            ))
        &&& (r[k].1 is Link ==> answered(r, events, k + 1, BuildAction::RemoveBinary, BuildEvent::Removed))
        &&& (r[k].1 is RecordFlags ==> answered(
            r,
            events,
            k + 1,
            BuildAction::Link,
            BuildEvent::Linked(Ok(())),
        ) || (!any_stale(stale) && !out_of_date))
    } by {
        lemma_explained(stale, out_of_date, events, k + 1);
        let st = state_before(s0, r, k);
        let t = state_before(s0, r, k + 1);
        assert(r[k] == spec_build_step(st, events[k]));
        assert(t == r[k].0);
        if !(r[k].1 is Fail) {
            assert(r[k].1 == next_action(t));
            lemma_first_pending(t.stale, t.removed, 0);
            lemma_stale_units(stale, stale.len() as int);
            if let BuildAction::Compile { units } = r[k].1 {
                assert forall|m: int| 0 <= m < units.len() implies answered(
                    r,
                    events,
                    k + 1,
                    BuildAction::RemoveArtifacts { unit: #[trigger] units[m] },
                    BuildEvent::Removed,
                ) by {
                    let u = units[m] as int;
                    assert(stale[u]);
                    assert(t.removed[u]);
                    assert((u as usize) == units[m]);
                }
            }
        }
    }
}

/// The units a build compiles are exactly the stale ones: every listed
/// unit is stale, every stale unit is listed, each once, in order.
pub proof fn law_stale_units_are_the_stale_ones(stale: Seq<bool>)
    requires
        stale.len() <= usize::MAX,
    ensures
        forall|m: int|
            0 <= m < stale_units(stale, stale.len() as int).len() ==> (#[trigger] stale_units(
                stale,
                stale.len() as int,
            )[m]) < stale.len() && stale[stale_units(stale, stale.len() as int)[m] as int],
        forall|i: int| 0 <= i < stale.len() && stale[i] ==> #[trigger] stale_units(stale, stale.len() as int).contains(i as usize),
        forall|a: int, b: int|
            0 <= a < b < stale_units(stale, stale.len() as int).len() ==> stale_units(stale, stale.len() as int)[a]
                < stale_units(stale, stale.len() as int)[b],
{
    lemma_stale_units_all(stale, stale.len() as int);
}

proof fn lemma_stale_units_all(stale: Seq<bool>, n: int)
    requires
        0 <= n <= stale.len(),
        stale.len() <= usize::MAX,
    ensures
        forall|m: int|
            0 <= m < stale_units(stale, n).len() ==> (#[trigger] stale_units(stale, n)[m]) < n
                && stale[stale_units(stale, n)[m] as int],
        forall|i: int| 0 <= i < n && stale[i] ==> #[trigger] stale_units(stale, n).contains(i as usize),
        forall|a: int, b: int|
            0 <= a < b < stale_units(stale, n).len() ==> stale_units(stale, n)[a] < stale_units(stale, n)[b],
    decreases n,
{
    lemma_stale_units(stale, n);
    if n > 0 {
        lemma_stale_units_all(stale, n - 1);
        let prev = stale_units(stale, n - 1);
        let su = stale_units(stale, n);
        assert forall|i: int| 0 <= i < n && stale[i] implies #[trigger] su.contains(i as usize) by {
            if i < n - 1 {
                assert(prev.contains(i as usize));
                let m = choose|m: int| 0 <= m < prev.len() && prev[m] == i as usize;
                assert(su[m] == prev[m]);
            } else {
                assert(su[su.len() - 1] == i as usize);
            }
        }
        assert forall|a: int, b: int| 0 <= a < b < su.len() implies su[a] < su[b] by {
            if b < prev.len() {
                assert(su[a] == prev[a] && su[b] == prev[b]);
            } else {
                assert(su[a] == prev[a]);
            }
        }
    }
}

/// A build with a stale unit compiles before anything that follows: it
/// removes the executable, links, records the flags or finishes only after
/// it asked for exactly the stale units to be compiled and heard that the
/// compile succeeded.
pub proof fn law_stale_units_are_compiled_first(stale: Seq<bool>, out_of_date: bool, events: Seq<BuildEvent>)
    requires
        stale.len() <= usize::MAX,
        events.len() > 0,
        events[0] == BuildEvent::Start,
        forall|j: int|
            0 <= j < events.len() - 1 ==> !(run_build(spec_start_build(stale, out_of_date), events)[j].1 is Fail),
        any_stale(stale),
    ensures
        ({
            let r = run_build(spec_start_build(stale, out_of_date), events);
            forall|k: int|
                #![trigger r[k]]
                0 <= k < events.len() && (r[k].1 is RemoveBinary || r[k].1 is Link || r[k].1 is RecordFlags
                    || r[k].1 is Finish) ==> answered(
                    r,
                    events,
                    k + 1,
                    BuildAction::Compile { units: stale_units(stale, stale.len() as int) },
                    BuildEvent::Compiled(Ok(())),
                )
        }),
{
    let s0 = spec_start_build(stale, out_of_date);
    let r = run_build(s0, events);
    lemma_run_steps(s0, events);
    assert forall|k: int|
        #![trigger r[k]]
        0 <= k < events.len() && (r[k].1 is RemoveBinary || r[k].1 is Link || r[k].1 is RecordFlags
            || r[k].1 is Finish) implies answered(
        r,
        events,
        k + 1,
        BuildAction::Compile { units: stale_units(stale, stale.len() as int) },
        BuildEvent::Compiled(Ok(())),
    ) by {
        lemma_explained(stale, out_of_date, events, k + 1);
        let st = state_before(s0, r, k);
        let t = state_before(s0, r, k + 1);
        assert(r[k] == spec_build_step(st, events[k]));
        assert(t == r[k].0);
        assert(r[k].1 == next_action(t));
        assert(t.compiled);
    }
}

/// The outcome that reports `a` carried out successfully.
pub open spec fn success_answer(a: BuildAction<Seq<usize>>) -> BuildEvent {
    match a {
        BuildAction::RemoveArtifacts { .. } => BuildEvent::Removed,
        BuildAction::RemoveBinary => BuildEvent::Removed,
        BuildAction::Compile { .. } => BuildEvent::Compiled(Ok(())),
        BuildAction::Link => BuildEvent::Linked(Ok(())),
        BuildAction::RecordFlags => BuildEvent::Recorded,
        _ => BuildEvent::Start,
    }
}

/// The first `n` actions of a build in state `s` that is given the outcome
/// `e` and then sees every action it asks for succeed.
pub open spec fn drive_build(s: BuildState<Seq<bool>>, e: BuildEvent, n: nat) -> Seq<BuildAction<Seq<usize>>>
    decreases n,
{
    if n == 0 {
        Seq::empty()
    } else {
        let (t, a) = spec_build_step(s, e);
        seq![a] + drive_build(t, success_answer(a), (n - 1) as nat)
    }
}

/// What a successful build does, in order: remove the artifacts of each
/// stale unit, compile the stale units when there are any, remove and relink
/// the executable when a relink is due, record the flags, and finish.
pub open spec fn successful_build(stale: Seq<bool>, relink: bool) -> Seq<BuildAction<Seq<usize>>> {
    let units = stale_units(stale, stale.len() as int);
    units.map_values(|u: usize| BuildAction::<Seq<usize>>::RemoveArtifacts { unit: u }) + (if units.len()
        > 0 {
        seq![BuildAction::Compile { units }]
    } else {
        Seq::empty()
    }) + (if relink {
        seq![BuildAction::RemoveBinary, BuildAction::Link]
    } else {
        Seq::empty()
    }) + seq![BuildAction::RecordFlags, BuildAction::Finish]
}

/// The progress of a successful build: how many stale units' artifacts are
/// removed, and whether it compiled, removed the executable, linked and
/// recorded the flags.
pub open spec fn progress_state(stale: Seq<bool>, relink: bool, p: (int, bool, bool, bool, bool)) -> BuildState<
    Seq<bool>,
> {
    let units = stale_units(stale, stale.len() as int);
    BuildState {
        stale,
        relink,
        removed: Seq::new(stale.len(), |i: int| stale[i] && (p.0 >= units.len() || i < units[p.0] as int)),
        compiled: p.1,
        binary_removed: p.2,
        linked: p.3,
        recorded: p.4,
    }
}

/// The actions a successful build still takes from progress `p`.
pub open spec fn remaining_actions(stale: Seq<bool>, relink: bool, p: (int, bool, bool, bool, bool)) -> Seq<
    BuildAction<Seq<usize>>,
> {
    let units = stale_units(stale, stale.len() as int);
    units.skip(p.0).map_values(|u: usize| BuildAction::<Seq<usize>>::RemoveArtifacts { unit: u }) + (
    if units.len() > 0 && !p.1 {
        seq![BuildAction::Compile { units }]
    } else {
        Seq::empty()
    }) + (if relink && !p.2 {
        seq![BuildAction::RemoveBinary]
    } else {
        Seq::empty()
    }) + (if relink && !p.3 {
        seq![BuildAction::Link]
    } else {
        Seq::empty()
    }) + (if !p.4 {
        seq![BuildAction::RecordFlags]
    } else {
        Seq::empty()
    }) + seq![BuildAction::Finish]
}

/// The progress after the next action succeeds.
pub open spec fn advance(stale: Seq<bool>, relink: bool, p: (int, bool, bool, bool, bool)) -> (
    int,
    bool,
    bool,
    bool,
    bool,
) {
    let units = stale_units(stale, stale.len() as int);
    if p.0 < units.len() {
        (p.0 + 1, p.1, p.2, p.3, p.4)
    } else if units.len() > 0 && !p.1 {
        (p.0, true, p.2, p.3, p.4)
    } else if relink && !p.2 {
        (p.0, p.1, true, p.3, p.4)
    } else if relink && !p.3 {
        (p.0, p.1, p.2, true, p.4)
    } else {
        (p.0, p.1, p.2, p.3, true)
    }
}

/// Progress that a successful build can reach, in order.
pub open spec fn valid_progress(stale: Seq<bool>, relink: bool, p: (int, bool, bool, bool, bool)) -> bool {
    let n = stale_units(stale, stale.len() as int).len() as int;
    &&& 0 <= p.0 <= n
    &&& n > 0 ==> relink
    &&& p.1 ==> p.0 == n
    &&& p.2 ==> p.0 == n && (p.1 || n == 0) && relink
    &&& p.3 ==> p.2
    &&& p.4 ==> p.0 == n && (p.1 || n == 0) && (relink ==> p.3)
}

proof fn lemma_progress_step(stale: Seq<bool>, relink: bool, p: (int, bool, bool, bool, bool))
    requires
        stale.len() <= usize::MAX,
        valid_progress(stale, relink, p),
    ensures
        next_action(progress_state(stale, relink, p)) == remaining_actions(stale, relink, p)[0],
        remaining_actions(stale, relink, p)[0] is Finish ==> remaining_actions(stale, relink, p).len() == 1,
        !(remaining_actions(stale, relink, p)[0] is Finish) ==> {
            &&& valid_progress(stale, relink, advance(stale, relink, p))
            &&& apply_event(
                progress_state(stale, relink, p),
                success_answer(remaining_actions(stale, relink, p)[0]),
            ) == Ok::<BuildState<Seq<bool>>, CmanError>(progress_state(stale, relink, advance(stale, relink, p)))
            &&& remaining_actions(stale, relink, advance(stale, relink, p)) == remaining_actions(
                stale,
                relink,
                p,
            ).drop_first()
        },
{
    let units = stale_units(stale, stale.len() as int);
    let n = units.len() as int;
    let st = progress_state(stale, relink, p);
    let rest = remaining_actions(stale, relink, p);
    law_stale_units_are_the_stale_ones(stale);
    lemma_stale_units(stale, stale.len() as int);
    lemma_first_pending(st.stale, st.removed, 0);
    let fp = first_pending(st.stale, st.removed, 0);
    let tailing = (if n > 0 && !p.1 {
        seq![BuildAction::<Seq<usize>>::Compile { units }]
    } else {
        Seq::empty()
    }) + (if relink && !p.2 {
        seq![BuildAction::<Seq<usize>>::RemoveBinary]
    } else {
        Seq::empty()
    }) + (if relink && !p.3 {
        seq![BuildAction::<Seq<usize>>::Link]
    } else {
        Seq::empty()
    }) + (if !p.4 {
        seq![BuildAction::<Seq<usize>>::RecordFlags]
    } else {
        Seq::empty()
    }) + seq![BuildAction::<Seq<usize>>::Finish];
    let removals = units.skip(p.0).map_values(|u: usize| BuildAction::<Seq<usize>>::RemoveArtifacts { unit: u });
    assert(rest == removals + tailing);
    if p.0 < n {
        let q = units[p.0] as int;
        assert(stale[q]);
        assert(!st.removed[q]);
        // every stale unit before q is removed
        assert forall|j: int| 0 <= j < q implies !(st.stale[j] && !st.removed[j]) by {
            if stale[j] {
                assert(units.contains(j as usize));
                let t = choose|t: int| 0 <= t < units.len() && units[t] == j as usize;
                if t >= p.0 {
                    if t > p.0 {
                        assert(units[p.0] < units[t]);
                    }
                }
            }
        }
        if fp < q {
            assert(!(st.stale[fp] && !st.removed[fp]));
        }
        if fp > q {
            assert(!(st.stale[q] && !st.removed[q]));
        }
        assert(fp == q);
        assert(removals[0] == BuildAction::<Seq<usize>>::RemoveArtifacts { unit: units[p.0] });
        assert(rest[0] == removals[0]);
        let p2 = advance(stale, relink, p);
        let st2 = progress_state(stale, relink, p2);
        assert(st.removed.update(q, true) =~= st2.removed) by {
            assert forall|i: int| 0 <= i < stale.len() implies st.removed.update(q, true)[i] == st2.removed[i] by {
                if stale[i] && i != q {
                    assert(units.contains(i as usize));
                    let t = choose|t: int| 0 <= t < units.len() && units[t] == i as usize;
                    if t < p.0 {
                        assert(units[t] < units[p.0]);
                    } else if t > p.0 {
                        assert(units[p.0] < units[t]);
                        if t > p.0 + 1 {
                            assert(units[p.0 + 1] < units[t]);
                        }
                    }
                    if p.0 + 1 < n {
                        assert(units[p.0] < units[p.0 + 1]);
                    }
                }
                if i == q && p.0 + 1 < n {
                    assert(units[p.0] < units[p.0 + 1]);
                }
            }
        }
        let removals2 = units.skip(p.0 + 1).map_values(|u: usize| BuildAction::<Seq<usize>>::RemoveArtifacts { unit: u });
        assert(removals2 =~= removals.drop_first());
        assert(rest.drop_first() =~= removals2 + tailing);
    } else {
        assert(removals =~= Seq::<BuildAction<Seq<usize>>>::empty());
        assert(rest =~= tailing);
        assert forall|j: int| 0 <= j < stale.len() implies !(st.stale[j] && !st.removed[j]) by {}
        if fp < stale.len() {
            assert(!(st.stale[fp] && !st.removed[fp]));
        }
        assert(any_stale(stale) == (n > 0));
        let p2 = advance(stale, relink, p);
        assert(progress_state(stale, relink, p2).removed =~= st.removed);
    }
}

proof fn lemma_drive_progress(stale: Seq<bool>, relink: bool, p: (int, bool, bool, bool, bool))
    requires
        stale.len() <= usize::MAX,
        valid_progress(stale, relink, p),
    ensures
        drive_build(
            progress_state(stale, relink, p),
            success_answer(next_action(progress_state(stale, relink, p))),
            (remaining_actions(stale, relink, p).len() - 1) as nat,
        ) == remaining_actions(stale, relink, p).drop_first(),
    decreases remaining_actions(stale, relink, p).len(),
{
    lemma_progress_step(stale, relink, p);
    let rest = remaining_actions(stale, relink, p);
    let st = progress_state(stale, relink, p);
    if rest[0] is Finish {
        assert(rest.drop_first() =~= Seq::<BuildAction<Seq<usize>>>::empty());
    } else {
        let p2 = advance(stale, relink, p);
        let st2 = progress_state(stale, relink, p2);
        lemma_progress_step(stale, relink, p2);
        lemma_drive_progress(stale, relink, p2);
        let rest2 = remaining_actions(stale, relink, p2);
        assert(spec_build_step(st, success_answer(next_action(st))) == (st2, next_action(st2)));
        assert(rest2.len() == rest.len() - 1);
        assert(rest2.len() >= 1);
        assert(rest.drop_first() =~= seq![rest2[0]] + rest2.drop_first());
    }
}

/// A build whose every action succeeds takes exactly these actions, in this
/// order: it removes the object and dependency file of each stale unit,
/// compiles the stale units when there are any, removes and relinks the
/// executable when a unit was stale or the executable was out of date,
/// records the flags, and finishes.
pub proof fn law_successful_build_actions(stale: Seq<bool>, out_of_date: bool)
    requires
        stale.len() <= usize::MAX,
    ensures
        ({
            let plan = successful_build(stale, any_stale(stale) || out_of_date);
            drive_build(spec_start_build(stale, out_of_date), BuildEvent::Start, plan.len()) == plan
        }),
{
    let relink = any_stale(stale) || out_of_date;
    let p = (0int, false, false, false, false);
    lemma_stale_units(stale, stale.len() as int);
    let units = stale_units(stale, stale.len() as int);
    let s0 = spec_start_build(stale, out_of_date);
    let st = progress_state(stale, relink, p);
    law_stale_units_are_the_stale_ones(stale);
    assert(s0.removed =~= st.removed) by {
        assert forall|i: int| 0 <= i < stale.len() implies !st.removed[i] by {
            if stale[i] && units.len() > 0 {
                assert(units.contains(i as usize));
                let t = choose|t: int| 0 <= t < units.len() && units[t] == i as usize;
                if t > 0 {
                    assert(units[0] < units[t]);
                }
            }
        }
    }
    assert(s0 == st);
    let rest = remaining_actions(stale, relink, p);
    let plan = successful_build(stale, relink);
    assert(units.skip(0) =~= units);
    assert(rest =~= plan);
    lemma_progress_step(stale, relink, p);
    lemma_drive_progress(stale, relink, p);
    assert(spec_build_step(s0, BuildEvent::Start) == (s0, next_action(s0)));
    assert(plan =~= seq![plan[0]] + plan.drop_first());
}

} // verus!
