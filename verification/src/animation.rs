use vstd::prelude::*;

verus! {

broadcast use vstd::string::group_string_axioms;

// ─── Named flags ──────────────────────────────────────────────────────────────

/// The names in a list of named flags are pairwise different.
pub open spec fn distinct_names(s: Seq<(String, bool)>) -> bool {
    forall|i: int, j: int| 0 <= i < s.len() && 0 <= j < s.len() && i != j ==> (#[trigger] s[i]).0@ != (#[trigger] s[j]).0@
}

/// The list `s` names `k`.
pub open spec fn names(s: Seq<(String, bool)>, k: Seq<char>) -> bool {
    exists|i: int| 0 <= i < s.len() && (#[trigger] s[i]).0@ == k
}

/// A list of named flags read as a map from names to values.
pub open spec fn flag_map(s: Seq<(String, bool)>) -> Map<Seq<char>, bool> {
    Map::new(
        |k: Seq<char>| names(s, k),
        |k: Seq<char>| s[choose|i: int| 0 <= i < s.len() && (#[trigger] s[i]).0@ == k].1,
    )
}

/// Position of the entry named `name`, if there is one.
fn find_flag(s: &Vec<(String, bool)>, name: &String) -> (r: Option<usize>)
    ensures
        match r {
            Some(i) => i < s@.len() && s@[i as int].0@ == name@,
            None => !names(s@, name@),
        },
{
    let n = s.len();
    let mut i: usize = 0;
    while i < n
        invariant
            0 <= i <= n,
            n == s@.len(),
            forall|j: int| 0 <= j < i ==> (#[trigger] s@[j]).0@ != name@,
        decreases n - i,
    {
        if s[i].0 == *name {
            return Some(i);
        }
        i = i + 1;
    }
    None
}

/// In a list without repeated names, the entry at `i` is the one the map reads for its name.
proof fn lemma_flag_at(s: Seq<(String, bool)>, i: int)
    requires
        distinct_names(s),
        0 <= i < s.len(),
    ensures
        flag_map(s).contains_key(s[i].0@),
        flag_map(s)[s[i].0@] == s[i].1,
{
    let k = s[i].0@;
    assert(names(s, k));
    let j = choose|j: int| 0 <= j < s.len() && (#[trigger] s[j]).0@ == k;
    assert(j == i);
}

/// Sets `name` to `value` in a list of named flags, adding the name when it is new.
fn set_flag(s: &mut Vec<(String, bool)>, name: &str, value: bool)
    requires
        distinct_names(old(s)@),
    ensures
        distinct_names(final(s)@),
        flag_map(final(s)@) == flag_map(old(s)@).insert(name@, value),
{
    let key = name.to_string();
    match find_flag(s, &key) {
        Some(i) => {
            let ghost before = s@;
            s[i].1 = value;
            proof {
                assert forall|a: int, b: int| 0 <= a < s@.len() && 0 <= b < s@.len() && a != b implies (#[trigger] s@[a]).0@ != (#[trigger] s@[b]).0@ by {
                    assert(s@[a].0 == before[a].0);
                    assert(s@[b].0 == before[b].0);
                }
                assert forall|k: Seq<char>| names(s@, k) <==> names(before, k) by {
                    if names(s@, k) {
                        let j = choose|j: int| 0 <= j < s@.len() && (#[trigger] s@[j]).0@ == k;
                        assert(before[j].0@ == k);
                    }
                    if names(before, k) {
                        let j = choose|j: int| 0 <= j < before.len() && (#[trigger] before[j]).0@ == k;
                        assert(s@[j].0@ == k);
                    }
                }
                assert forall|k: Seq<char>| #[trigger] flag_map(s@).contains_key(k) implies flag_map(s@)[k] == flag_map(before).insert(name@, value)[k] by {
                    let j = choose|j: int| 0 <= j < s@.len() && (#[trigger] s@[j]).0@ == k;
                    lemma_flag_at(s@, j);
                    lemma_flag_at(before, j);
                }
                assert(flag_map(s@) =~= flag_map(before).insert(name@, value));
            }
        }
        None => {
            let ghost before = s@;
            s.push((key, value));
            proof {
                let n = before.len() as int;
                assert forall|a: int, b: int| 0 <= a < s@.len() && 0 <= b < s@.len() && a != b implies (#[trigger] s@[a]).0@ != (#[trigger] s@[b]).0@ by {
                    if a == n {
                        assert(!(before[b].0@ == name@));
                    } else if b == n {
                        assert(!(before[a].0@ == name@));
                    } else {
                        assert(s@[a] == before[a] && s@[b] == before[b]);
                    }
                }
                assert forall|k: Seq<char>| names(s@, k) <==> names(before, k) || k == name@ by {
                    if names(s@, k) {
                        let j = choose|j: int| 0 <= j < s@.len() && (#[trigger] s@[j]).0@ == k;
                        if j < n {
                            assert(before[j].0@ == k);
                        }
                    }
                    if names(before, k) {
                        let j = choose|j: int| 0 <= j < before.len() && (#[trigger] before[j]).0@ == k;
                        assert(s@[j].0@ == k);
                    }
                    if k == name@ {
                        assert(s@[n].0@ == k);
                    }
                }
                assert forall|k: Seq<char>| #[trigger] flag_map(s@).contains_key(k) implies flag_map(s@)[k] == flag_map(before).insert(name@, value)[k] by {
                    let j = choose|j: int| 0 <= j < s@.len() && (#[trigger] s@[j]).0@ == k;
                    lemma_flag_at(s@, j);
                    if j < n {
                        lemma_flag_at(before, j);
                    }
                }
                assert(flag_map(s@) =~= flag_map(before).insert(name@, value));
            }
        }
    }
}

/// The value of `name` in a list of named flags; `false` when absent.
fn get_flag(s: &Vec<(String, bool)>, name: &str) -> (b: bool)
    requires
        distinct_names(s@),
    ensures
        b == (flag_map(s@).contains_key(name@) && flag_map(s@)[name@]),
{
    let key = name.to_string();
    match find_flag(s, &key) {
        Some(i) => {
            proof {
                lemma_flag_at(s@, i as int);
            }
            s[i].1
        }
        None => false,
    }
}

/// Sets every flag to `false`, keeping the names.
fn clear_flags(s: &mut Vec<(String, bool)>)
    requires
        distinct_names(old(s)@),
    ensures
        distinct_names(final(s)@),
        flag_map(final(s)@).dom() == flag_map(old(s)@).dom(),
        forall|k: Seq<char>| #[trigger] flag_map(final(s)@).contains_key(k) ==> !flag_map(final(s)@)[k],
{
    let n = s.len();
    let mut i: usize = 0;
    while i < n
        invariant
            0 <= i <= n,
            n == s@.len(),
            n == old(s)@.len(),
            forall|j: int| 0 <= j < n ==> (#[trigger] s@[j]).0 == old(s)@[j].0,
            forall|j: int| 0 <= j < i ==> !(#[trigger] s@[j]).1,
        decreases n - i,
    {
        s[i].1 = false;
        i = i + 1;
    }
    proof {
        assert forall|a: int, b: int| 0 <= a < s@.len() && 0 <= b < s@.len() && a != b implies (#[trigger] s@[a]).0@ != (#[trigger] s@[b]).0@ by {
            assert(old(s)@[a].0@ != old(s)@[b].0@);
        }
        assert forall|k: Seq<char>| names(s@, k) <==> names(old(s)@, k) by {
            if names(s@, k) {
                let j = choose|j: int| 0 <= j < s@.len() && (#[trigger] s@[j]).0@ == k;
                assert(old(s)@[j].0@ == k);
            }
            if names(old(s)@, k) {
                let j = choose|j: int| 0 <= j < old(s)@.len() && (#[trigger] old(s)@[j]).0@ == k;
                assert(s@[j].0@ == k);
            }
        }
        assert(flag_map(s@).dom() =~= flag_map(old(s)@).dom());
        assert forall|k: Seq<char>| #[trigger] flag_map(s@).contains_key(k) implies !flag_map(s@)[k] by {
            let j = choose|j: int| 0 <= j < s@.len() && (#[trigger] s@[j]).0@ == k;
            lemma_flag_at(s@, j);
        }
    }
}

// ─── Parameters ───────────────────────────────────────────────────────────────

/// The boolean and trigger parameters that transition conditions read.
/// A trigger is a one-shot flag: taking a transition on it resets it.
pub struct AnimatorParams {
    bools: Vec<(String, bool)>,
    triggers: Vec<(String, bool)>,
}

impl AnimatorParams {
    /// Boolean parameters by name.
    pub closed spec fn bools_map(&self) -> Map<Seq<char>, bool> {
        flag_map(self.bools@)
    }

    /// Trigger parameters by name.
    pub closed spec fn triggers_map(&self) -> Map<Seq<char>, bool> {
        flag_map(self.triggers@)
    }

    /// No name is stored twice.
    pub closed spec fn wf(&self) -> bool {
        distinct_names(self.bools@) && distinct_names(self.triggers@)
    }

    /// The value that `get_bool` reports for `name`.
    pub open spec fn bool_value(&self, name: Seq<char>) -> bool {
        self.bools_map().contains_key(name) && self.bools_map()[name]
    }

    /// Whether the trigger `name` is set.
    pub open spec fn trigger_set(&self, name: Seq<char>) -> bool {
        self.triggers_map().contains_key(name) && self.triggers_map()[name]
    }

    pub fn new() -> (p: Self)
        ensures
            p.wf(),
            p.bools_map() == Map::<Seq<char>, bool>::empty(),
            p.triggers_map() == Map::<Seq<char>, bool>::empty(),
    {
        let p = AnimatorParams { bools: Vec::new(), triggers: Vec::new() };
        proof {
            assert(flag_map(p.bools@) =~= Map::<Seq<char>, bool>::empty());
            assert(flag_map(p.triggers@) =~= Map::<Seq<char>, bool>::empty());
        }
        p
    }

    pub fn set_bool(&mut self, name: &str, value: bool)
        requires
            old(self).wf(),
        ensures
            final(self).wf(),
            final(self).bools_map() == old(self).bools_map().insert(name@, value),
            final(self).triggers_map() == old(self).triggers_map(),
    {
        set_flag(&mut self.bools, name, value);
    }

    /// Sets the trigger `name`.
    pub fn set_trigger(&mut self, name: &str)
        requires
            old(self).wf(),
        ensures
            final(self).wf(),
            final(self).bools_map() == old(self).bools_map(),
            final(self).triggers_map() == old(self).triggers_map().insert(name@, true),
    {
        set_flag(&mut self.triggers, name, true);
    }

    /// The boolean `name`; `false` when it was never set.
    pub fn get_bool(&self, name: &str) -> (b: bool)
        requires
            self.wf(),
        ensures
            b == self.bool_value(name@),
    {
        get_flag(&self.bools, name)
    }

    /// Reports whether the trigger `name` is set, and resets it if so.
    pub fn consume_trigger(&mut self, name: &str) -> (b: bool)
        requires
            old(self).wf(),
        ensures
            final(self).wf(),
            b == old(self).trigger_set(name@),
            final(self).bools_map() == old(self).bools_map(),
            final(self).triggers_map() == if b {
                old(self).triggers_map().insert(name@, false)
            } else {
                old(self).triggers_map()
            },
    {
        let active = get_flag(&self.triggers, name);
        if active {
            set_flag(&mut self.triggers, name, false);
        }
        active
    }

    /// Resets every trigger.
    pub fn clear_triggers(&mut self)
        requires
            old(self).wf(),
        ensures
            final(self).wf(),
            final(self).bools_map() == old(self).bools_map(),
            final(self).triggers_map().dom() == old(self).triggers_map().dom(),
            forall|k: Seq<char>| #[trigger] final(self).triggers_map().contains_key(k) ==> !final(self).triggers_map()[k],
    {
        clear_flags(&mut self.triggers);
    }
}

impl Default for AnimatorParams {
    fn default() -> (p: Self)
        ensures
            p.wf(),
            p.bools_map() == Map::<Seq<char>, bool>::empty(),
            p.triggers_map() == Map::<Seq<char>, bool>::empty(),
    {
        Self::new()
    }
}

// ─── Transitions ──────────────────────────────────────────────────────────────

/// When a transition may be taken. Conditions on continuous quantities (a parameter
/// above or below a threshold, time spent in the state) arrive already measured.
pub enum TransitionCondition {
    /// The boolean parameter equals `expected`.
    BoolIs { param: String, expected: bool },
    /// The trigger parameter is set; taking the transition resets it.
    Trigger { param: String },
    /// The current one-shot clip has reached its last frame.
    OnFinish,
    /// A measured condition, with its outcome for this frame.
    Measured { holds: bool },
}

/// A rule for leaving the current state.
pub struct Transition {
    pub target: String,
    pub condition: TransitionCondition,
    /// Higher priorities are checked first; equal ones in insertion order.
    pub priority: i32,
}

impl Transition {
    pub fn new(target: &str, condition: TransitionCondition) -> (t: Self)
        ensures
            t.target@ == target@,
            t.condition == condition,
            t.priority == 0,
    {
        Transition { target: target.to_string(), condition, priority: 0 }
    }

    pub fn priority(self, p: i32) -> (t: Self)
        ensures
            t.target == self.target,
            t.condition == self.condition,
            t.priority == p,
    {
        let mut t = self;
        t.priority = p;
        t
    }
}

/// Whether condition `c` holds for the given parameters and clip state.
pub open spec fn condition_holds(c: TransitionCondition, params: AnimatorParams, finished: bool) -> bool {
    match c {
        TransitionCondition::BoolIs { param, expected } => params.bool_value(param@) == expected,
        TransitionCondition::Trigger { param } => params.trigger_set(param@),
        TransitionCondition::OnFinish => finished,
        TransitionCondition::Measured { holds } => holds,
    }
}

/// Transition `i` is the one taken: its condition holds, and every other transition
/// whose condition holds has a lower priority, or the same priority and a later place.
pub open spec fn chosen(ts: Seq<Transition>, i: int, params: AnimatorParams, finished: bool) -> bool {
    &&& 0 <= i < ts.len()
    &&& condition_holds(ts[i].condition, params, finished)
    &&& forall|j: int| 0 <= j < ts.len() && condition_holds(#[trigger] ts[j].condition, params, finished)
        ==> ts[j].priority < ts[i].priority || (ts[j].priority == ts[i].priority && i <= j)
}

/// Checks the transitions from the highest priority down (ties in insertion order) and
/// returns the first one whose condition holds. A trigger that decides is reset.
pub fn evaluate_transitions(params: &mut AnimatorParams, finished: bool, ts: &Vec<Transition>) -> (r: Option<usize>)
    requires
        old(params).wf(),
    ensures
        final(params).wf(),
        match r {
            Some(i) => chosen(ts@, i as int, *old(params), finished),
            None => forall|j: int| 0 <= j < ts@.len() ==> !condition_holds(#[trigger] ts@[j].condition, *old(params), finished),
        },
        final(params).bools_map() == old(params).bools_map(),
        final(params).triggers_map() == match r {
            Some(i) => match ts@[i as int].condition {
                TransitionCondition::Trigger { param } => old(params).triggers_map().insert(param@, false),
                _ => old(params).triggers_map(),
            },
            None => old(params).triggers_map(),
        },
{
    let n = ts.len();
    let mut best: Option<usize> = None;
    let mut i: usize = 0;
    while i < n
        invariant
            0 <= i <= n,
            n == ts@.len(),
            params.wf(),
            *params == *old(params),
            match best {
                Some(b) => b < i && condition_holds(ts@[b as int].condition, *params, finished)
                    && forall|j: int| 0 <= j < i && condition_holds(#[trigger] ts@[j].condition, *params, finished)
                        ==> ts@[j].priority < ts@[b as int].priority || (ts@[j].priority == ts@[b as int].priority && b <= j),
                None => forall|j: int| 0 <= j < i ==> !condition_holds(#[trigger] ts@[j].condition, *params, finished),
            },
        decreases n - i,
    {
        let holds = match &ts[i].condition {
            TransitionCondition::BoolIs { param, expected } => params.get_bool(param.as_str()) == *expected,
            TransitionCondition::Trigger { param } => get_flag(&params.triggers, param.as_str()),
            TransitionCondition::OnFinish => finished,
            TransitionCondition::Measured { holds } => *holds,
        };
        if holds {
            match best {
                Some(b) => {
                    if ts[i].priority > ts[b].priority {
                        best = Some(i);
                    }
                }
                None => {
                    best = Some(i);
                }
            }
        }
        i = i + 1;
    }
    match best {
        Some(b) => {
            match &ts[b].condition {
                TransitionCondition::Trigger { param } => {
                    params.consume_trigger(param.as_str());
                }
                _ => {}
            }
        }
        None => {}
    }
    best
}

// ─── Animator ─────────────────────────────────────────────────────────────────

/// The discrete part of an animation state machine: the current state, the playback
/// position in its clip, and the parameters that transitions read.
pub struct Animator {
    current: String,
    frame: usize,
    finished: bool,
    pub params: AnimatorParams,
    /// Whether playback is suspended.
    pub paused: bool,
}

impl Animator {
    /// Name of the current state.
    pub closed spec fn current_spec(&self) -> Seq<char> {
        self.current@
    }

    /// The transition parameters.
    pub closed spec fn params_spec(&self) -> AnimatorParams {
        self.params
    }

    /// Whether playback is suspended.
    pub closed spec fn paused_spec(&self) -> bool {
        self.paused
    }

    /// Index of the current frame in the current clip.
    pub closed spec fn frame_spec(&self) -> usize {
        self.frame
    }

    /// Whether a one-shot clip has reached its last frame.
    pub closed spec fn finished_spec(&self) -> bool {
        self.finished
    }

    /// The parameters are well formed and the frame counter can still advance.
    pub closed spec fn wf(&self) -> bool {
        self.params.wf() && self.frame < usize::MAX
    }

    /// Starts in state `initial_state`, at the first frame.
    pub fn new(initial_state: &str) -> (a: Self)
        ensures
            a.wf(),
            a.current_spec() == initial_state@,
            a.frame_spec() == 0,
            !a.finished_spec(),
            !a.paused_spec(),
            a.params_spec().bools_map() == Map::<Seq<char>, bool>::empty(),
            a.params_spec().triggers_map() == Map::<Seq<char>, bool>::empty(),
    {
        Animator {
            current: initial_state.to_string(),
            frame: 0,
            finished: false,
            params: AnimatorParams::new(),
            paused: false,
        }
    }

    /// Switches to state `name` and restarts playback, unless it is already the current
    /// state. Returns whether the state changed.
    pub fn set_state(&mut self, name: &str) -> (changed: bool)
        requires
            old(self).wf(),
        ensures
            final(self).wf(),
            changed == (old(self).current_spec() != name@),
            final(self).current_spec() == name@,
            final(self).frame_spec() == if changed { 0 } else { old(self).frame_spec() },
            final(self).finished_spec() == if changed { false } else { old(self).finished_spec() },
            final(self).params_spec() == old(self).params_spec(),
            final(self).paused_spec() == old(self).paused_spec(),
    {
        let key = name.to_string();
        if self.current != key {
            self.current = key;
            self.frame = 0;
            self.finished = false;
            true
        } else {
            false
        }
    }

    /// The transition parameters.
    pub fn params(&self) -> (p: &AnimatorParams)
        ensures
            *p == self.params_spec(),
    {
        &self.params
    }

    /// Sets the boolean parameter `name`.
    pub fn set_bool(&mut self, name: &str, value: bool)
        requires
            old(self).wf(),
        ensures
            final(self).wf(),
            final(self).params_spec().bools_map() == old(self).params_spec().bools_map().insert(name@, value),
            final(self).params_spec().triggers_map() == old(self).params_spec().triggers_map(),
            final(self).current_spec() == old(self).current_spec(),
            final(self).frame_spec() == old(self).frame_spec(),
            final(self).finished_spec() == old(self).finished_spec(),
            final(self).paused_spec() == old(self).paused_spec(),
    {
        self.params.set_bool(name, value);
    }

    /// Sets the trigger parameter `name`.
    pub fn set_trigger(&mut self, name: &str)
        requires
            old(self).wf(),
        ensures
            final(self).wf(),
            final(self).params_spec().bools_map() == old(self).params_spec().bools_map(),
            final(self).params_spec().triggers_map() == old(self).params_spec().triggers_map().insert(name@, true),
            final(self).current_spec() == old(self).current_spec(),
            final(self).frame_spec() == old(self).frame_spec(),
            final(self).finished_spec() == old(self).finished_spec(),
            final(self).paused_spec() == old(self).paused_spec(),
    {
        self.params.set_trigger(name);
    }

    /// Suspends or resumes playback.
    pub fn set_paused(&mut self, paused: bool)
        ensures
            final(self).paused_spec() == paused,
            final(self).params_spec() == old(self).params_spec(),
            final(self).current_spec() == old(self).current_spec(),
            final(self).frame_spec() == old(self).frame_spec(),
            final(self).finished_spec() == old(self).finished_spec(),
            old(self).wf() ==> final(self).wf(),
    {
        self.paused = paused;
    }

    /// Whether playback is suspended.
    pub fn is_paused(&self) -> (b: bool)
        ensures
            b == self.paused_spec(),
    {
        self.paused
    }

    /// Name of the current state.
    pub fn current_state(&self) -> (s: &str)
        ensures
            s@ == self.current_spec(),
    {
        self.current.as_str()
    }

    /// Whether a one-shot clip has reached its end.
    pub fn is_finished(&self) -> (b: bool)
        ensures
            b == self.finished_spec(),
    {
        self.finished
    }

    /// The frame shown for a clip of `frame_count` frames: the current one,
    /// held at the last frame.
    pub fn shown_frame(&self, frame_count: usize) -> (i: usize)
        requires
            frame_count > 0,
        ensures
            i == if self.frame_spec() < frame_count { self.frame_spec() } else { (frame_count - 1) as usize },
    {
        if self.frame < frame_count { self.frame } else { frame_count - 1 }
    }

    /// Moves to the next frame of a clip of `frame_count` frames. A looping clip wraps to
    /// its first frame; a one-shot clip stays on its last frame and is then finished.
    /// Returns whether playback has stopped at the end.
    pub fn advance_frame(&mut self, frame_count: usize, looping: bool) -> (stopped: bool)
        requires
            old(self).wf(),
            frame_count > 0,
        ensures
            final(self).wf(),
            final(self).frame_spec() < frame_count,
            old(self).frame_spec() < frame_count ==> final(self).frame_spec() == next_frame(old(self).frame_spec() as int, frame_count as int, looping),
            ({
                let next = old(self).frame_spec() + 1;
                if next < frame_count {
                    &&& final(self).frame_spec() == next
                    &&& final(self).finished_spec() == old(self).finished_spec()
                    &&& !stopped
                } else if looping {
                    &&& final(self).frame_spec() == 0
                    &&& final(self).finished_spec() == old(self).finished_spec()
                    &&& !stopped
                } else {
                    &&& final(self).frame_spec() == frame_count - 1
                    &&& final(self).finished_spec()
                    &&& stopped
                }
            }),
            final(self).current_spec() == old(self).current_spec(),
            final(self).params_spec() == old(self).params_spec(),
            final(self).paused_spec() == old(self).paused_spec(),
    {
        self.frame = self.frame + 1;
        if self.frame >= frame_count {
            if looping {
                self.frame = 0;
            } else {
                self.frame = frame_count - 1;
                self.finished = true;
                return true;
            }
        }
        false
    }

    /// Evaluates the transitions of the current state (see `evaluate_transitions`). When
    /// one is taken, all triggers are reset and playback restarts in its target state.
    /// Returns the index of the transition taken.
    pub fn take_transition(&mut self, ts: &Vec<Transition>) -> (r: Option<usize>)
        requires
            old(self).wf(),
        ensures
            final(self).wf(),
            match r {
                Some(i) => {
                    &&& chosen(ts@, i as int, old(self).params_spec(), old(self).finished_spec())
                    &&& final(self).current_spec() == ts@[i as int].target@
                    &&& final(self).frame_spec() == 0
                    &&& !final(self).finished_spec()
                    &&& final(self).params_spec().triggers_map().dom() == old(self).params_spec().triggers_map().dom()
                    &&& forall|k: Seq<char>| #[trigger] final(self).params_spec().triggers_map().contains_key(k)
                        ==> !final(self).params_spec().triggers_map()[k]
                },
                None => {
                    &&& forall|j: int| 0 <= j < ts@.len() ==> !condition_holds(#[trigger] ts@[j].condition, old(self).params_spec(), old(self).finished_spec())
                    &&& final(self).current_spec() == old(self).current_spec()
                    &&& final(self).frame_spec() == old(self).frame_spec()
                    &&& final(self).finished_spec() == old(self).finished_spec()
                    &&& final(self).params_spec().triggers_map() == old(self).params_spec().triggers_map()
                },
            },
            final(self).params_spec().bools_map() == old(self).params_spec().bools_map(),
            final(self).paused_spec() == old(self).paused_spec(),
    {
        let r = evaluate_transitions(&mut self.params, self.finished, ts);
        match r {
            Some(i) => {
                proof {
                    if let TransitionCondition::Trigger { param } = ts@[i as int].condition {
                        assert(self.params.triggers_map().dom() =~= old(self).params_spec().triggers_map().dom()) by {
                            assert(old(self).params_spec().trigger_set(param@));
                        }
                    }
                }
                self.params.clear_triggers();
                self.current = ts[i].target.clone();
                self.frame = 0;
                self.finished = false;
            }
            None => {}
        }
        r
    }
}

// ─── Laws ─────────────────────────────────────────────────────────────────────

/// At most one transition is taken: the chosen one is determined by the conditions
/// and priorities alone.
pub proof fn law_chosen_unique(ts: Seq<Transition>, i: int, j: int, params: AnimatorParams, finished: bool)
    requires
        chosen(ts, i, params, finished),
        chosen(ts, j, params, finished),
    ensures
        i == j,
{
    assert(condition_holds(ts[j].condition, params, finished));
    assert(condition_holds(ts[i].condition, params, finished));
}

/// What each condition means: a boolean condition holds exactly when the stored boolean
/// (false when never set) equals the expected value; a trigger condition exactly when the
/// trigger is set; the finish condition exactly when the clip has ended; a measured one
/// exactly when its measurement says so.
pub proof fn law_condition_meaning(params: AnimatorParams, finished: bool, param: String, expected: bool, holds: bool)
    ensures
        condition_holds(TransitionCondition::BoolIs { param, expected }, params, finished)
            <==> ((params.bools_map().contains_key(param@) && params.bools_map()[param@]) == expected),
        condition_holds(TransitionCondition::Trigger { param }, params, finished)
            <==> (params.triggers_map().contains_key(param@) && params.triggers_map()[param@]),
        condition_holds(TransitionCondition::OnFinish, params, finished) <==> finished,
        condition_holds(TransitionCondition::Measured { holds }, params, finished) <==> holds,
        !params.bools_map().contains_key(param@) ==> (condition_holds(TransitionCondition::BoolIs { param, expected }, params, finished) <==> !expected),
{
}

/// Among transitions of equal priority whose conditions hold, the one added first is taken.
pub proof fn law_ties_go_to_the_first(ts: Seq<Transition>, i: int, j: int, params: AnimatorParams, finished: bool)
    requires
        chosen(ts, i, params, finished),
        0 <= j < i,
        condition_holds(ts[j].condition, params, finished),
    ensures
        ts[j].priority < ts[i].priority,
{
    assert(condition_holds(ts[j].condition, params, finished));
}

/// A transition on a boolean is taken only when the boolean has the expected value.
pub proof fn law_bool_transition_needs_value(ts: Seq<Transition>, i: int, params: AnimatorParams, finished: bool, param: String, expected: bool)
    requires
        chosen(ts, i, params, finished),
        ts[i].condition == (TransitionCondition::BoolIs { param, expected }),
    ensures
        (params.bools_map().contains_key(param@) && params.bools_map()[param@]) == expected,
{
}

/// A transition whose condition holds is never passed over for one of lower priority.
pub proof fn law_priority_wins(ts: Seq<Transition>, i: int, j: int, params: AnimatorParams, finished: bool)
    requires
        chosen(ts, i, params, finished),
        0 <= j < ts.len(),
        condition_holds(ts[j].condition, params, finished),
    ensures
        ts[j].priority <= ts[i].priority,
{
    assert(condition_holds(ts[j].condition, params, finished));
}

/// The frame that follows frame `f` of a clip of `n` frames.
pub open spec fn next_frame(f: int, n: int, looping: bool) -> int {
    if f + 1 < n {
        f + 1
    } else if looping {
        0
    } else {
        n - 1
    }
}

/// The frame reached from frame `f` after `k` frame steps.
pub open spec fn frame_after(f: int, n: int, looping: bool, k: nat) -> int
    decreases k,
{
    if k == 0 {
        f
    } else {
        next_frame(frame_after(f, n, looping, (k - 1) as nat), n, looping)
    }
}

/// A looping clip cycles: after `k` steps from frame `f` it shows frame `(f + k) mod n`,
/// so after `n` steps it is back where it started.
pub proof fn law_looping_cycles(f: int, n: int, k: nat)
    requires
        0 <= f < n,
    ensures
        frame_after(f, n, true, k) == (f + k) % n,
        frame_after(f, n, true, n as nat) == f,
{
    lemma_looping_mod(f, n, k);
    lemma_frame_after_n(f, n);
}

proof fn lemma_frame_after_n(f: int, n: int)
    requires
        0 <= f < n,
    ensures
        frame_after(f, n, true, n as nat) == f,
{
    lemma_looping_mod(f, n, n as nat);
    vstd::arithmetic::div_mod::lemma_add_mod_noop(f, n, n);
    vstd::arithmetic::div_mod::lemma_mod_self_0(n);
    vstd::arithmetic::div_mod::lemma_small_mod(f as nat, n as nat);
}

proof fn lemma_looping_mod(f: int, n: int, k: nat)
    requires
        0 <= f < n,
    ensures
        frame_after(f, n, true, k) == (f + k) % n,
    decreases k,
{
    if k > 0 {
        lemma_looping_mod(f, n, (k - 1) as nat);
        let p = frame_after(f, n, true, (k - 1) as nat);
        let x = f + k - 1;
        vstd::arithmetic::div_mod::lemma_fundamental_div_mod(x, n);
        vstd::arithmetic::div_mod::lemma_mod_bound(x, n);
        let q = x / n;
        if p + 1 < n {
            assert(x + 1 == q * n + (p + 1)) by (nonlinear_arith)
                requires x == n * q + p;
            vstd::arithmetic::div_mod::lemma_fundamental_div_mod_converse(x + 1, n, q, p + 1);
        } else {
            assert(x + 1 == (q + 1) * n + 0) by (nonlinear_arith)
                requires x == n * q + p, p + 1 == n;
            vstd::arithmetic::div_mod::lemma_fundamental_div_mod_converse(x + 1, n, q + 1, 0);
        }
    } else {
        vstd::arithmetic::div_mod::lemma_small_mod(f as nat, n as nat);
    }
}

/// A one-shot clip plays through and then holds: after `k` steps from frame `f` it shows
/// frame `min(f + k, n - 1)`.
pub proof fn law_one_shot_holds_last(f: int, n: int, k: nat)
    requires
        0 <= f < n,
    ensures
        frame_after(f, n, false, k) == if f + k < n - 1 { f + k } else { n - 1 },
    decreases k,
{
    if k > 0 {
        law_one_shot_holds_last(f, n, (k - 1) as nat);
    }
}

} // verus!
