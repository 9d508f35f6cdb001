//! Multi-surface gallery mode.
//!
//! When gallery mode is active the application cycles through all available
//! mathematical surfaces automatically, displaying each one for a configurable
//! duration before fading out and fading in the next.
//!
//! The gallery never reads a clock: every operation that depends on time
//! takes the current instant as nanoseconds on the caller's monotonic
//! clock. An instant earlier than a recorded start counts as no time passed.

use vstd::prelude::*;
use crate::timelapse::TimeSpan;

verus! {

/// The number of named surfaces.
pub const SURFACE_COUNT: usize = 9;

/// The name of surface `i` in gallery order.
pub open spec fn surface_name(i: int) -> Seq<char> {
    if i == 0 {
        "torus"@
    } else if i == 1 {
        "sphere"@
    } else if i == 2 {
        "saddle"@
    } else if i == 3 {
        "enneper"@
    } else if i == 4 {
        "catenoid"@
    } else if i == 5 {
        "helicoid"@
    } else if i == 6 {
        "hyperboloid"@
    } else if i == 7 {
        "hyperbolic_paraboloid"@
    } else {
        "ellipsoid"@
    }
}

/// The name of surface `i` in gallery order.
pub fn surface_at(i: usize) -> (name: &'static str)
    requires
        i < SURFACE_COUNT,
    ensures
        name@ == surface_name(i as int),
{
    if i == 0 {
        "torus"
    } else if i == 1 {
        "sphere"
    } else if i == 2 {
        "saddle"
    } else if i == 3 {
        "enneper"
    } else if i == 4 {
        "catenoid"
    } else if i == 5 {
        "helicoid"
    } else if i == 6 {
        "hyperboloid"
    } else if i == 7 {
        "hyperbolic_paraboloid"
    } else {
        "ellipsoid"
    }
}

/// Every named surface known to the application, in gallery order.
pub fn all_surfaces() -> (names: Vec<&'static str>)
    ensures
        names@.len() == SURFACE_COUNT,
        forall|i: int| 0 <= i < SURFACE_COUNT ==> (#[trigger] names@[i])@ == surface_name(i),
{
    let mut names: Vec<&'static str> = Vec::new();
    let mut i: usize = 0;
    while i < SURFACE_COUNT
        invariant
            i <= SURFACE_COUNT,
            names@.len() == i,
            forall|j: int| 0 <= j < i ==> (#[trigger] names@[j])@ == surface_name(j),
        decreases SURFACE_COUNT - i,
    {
        names.push(surface_at(i));
        i += 1;
    }
    names
}

/// Phase of a cross-fade transition between two surfaces.
#[derive(Debug, Clone, Copy, PartialEq, Eq, Structural)]
pub enum TransitionPhase {
    /// No transition; surface is fully visible.
    Idle,
    /// Fading out the old surface (alpha goes 1 → 0).
    FadeOut,
    /// Fading in the new surface (alpha goes 0 → 1).
    FadeIn,
}

/// The state of a gallery, as plain values.
pub struct GalleryState {
    pub enabled: bool,
    /// Index of the current surface.
    pub index: int,
    /// How long each surface is displayed, in nanoseconds.
    pub duration: int,
    /// When the current surface was first shown.
    pub surface_start: Option<int>,
    pub phase: TransitionPhase,
    /// When the current transition phase began.
    pub phase_start: Option<int>,
    /// Length of each fade half, in nanoseconds.
    pub fade: int,
    /// Whether the surface changed since the flag was last taken.
    pub changed: bool,
}

/// Length of each fade half: 0.75 seconds.
pub const FADE_NANOS: u32 = 750_000_000;

/// Nanoseconds from `start` to `now`; none when `now` is earlier.
pub open spec fn elapsed(now: int, start: int) -> int {
    if now >= start {
        now - start
    } else {
        0
    }
}

/// Whether at least `span` nanoseconds passed since an optional start.
pub open spec fn passed(now: int, start: Option<int>, span: int) -> bool {
    match start {
        Some(s) => elapsed(now, s) >= span,
        None => false,
    }
}

/// The state after moving `delta` surfaces on and starting a fade-in.
pub open spec fn advanced(s: GalleryState, delta: int, now: int) -> GalleryState {
    GalleryState {
        index: (s.index + delta) % (SURFACE_COUNT as int),
        phase: TransitionPhase::FadeIn,
        phase_start: Some(now),
        surface_start: Some(now),
        changed: true,
        ..s
    }
}

/// The state after toggling gallery mode at `now`.
pub open spec fn toggled(s: GalleryState, now: int) -> GalleryState {
    if !s.enabled {
        GalleryState {
            enabled: true,
            index: 0,
            surface_start: Some(now),
            changed: true,
            phase: TransitionPhase::Idle,
            phase_start: None,
            ..s
        }
    } else {
        GalleryState { enabled: false, phase: TransitionPhase::Idle, phase_start: None, ..s }
    }
}

/// The state after one frame's timer and transition step at `now`, before
/// the surface-changed flag is taken.
pub open spec fn ticked(s: GalleryState, now: int) -> GalleryState {
    if !s.enabled {
        s
    } else {
        match s.phase {
            TransitionPhase::FadeOut => if passed(now, s.phase_start, s.fade) {
                advanced(s, 1, now)
            } else {
                s
            },
            TransitionPhase::FadeIn => if passed(now, s.phase_start, s.fade) {
                GalleryState { phase: TransitionPhase::Idle, phase_start: None, ..s }
            } else {
                s
            },
            TransitionPhase::Idle => if passed(now, s.surface_start, s.duration) {
                GalleryState { phase: TransitionPhase::FadeOut, phase_start: Some(now), ..s }
            } else {
                s
            },
        }
    }
}

/// Controls automatic cycling through all available mathematical surfaces.
pub struct GalleryMode {
    /// Whether gallery mode is currently active.
    enabled: bool,
    /// Index of the current surface.
    current_index: usize,
    /// How long each surface is displayed.
    duration: TimeSpan,
    /// Instant (nanoseconds) when the current surface was first shown.
    surface_start: Option<u64>,
    /// Current transition phase.
    phase: TransitionPhase,
    /// Instant (nanoseconds) when the current transition phase began.
    phase_start: Option<u64>,
    /// Duration of each fade half (fade-out or fade-in).
    fade_duration: TimeSpan,
    /// `true` if the active surface name has changed and the engine needs updating.
    surface_changed: bool,
}

impl View for GalleryMode {
    type V = GalleryState;

    closed spec fn view(&self) -> GalleryState {
        GalleryState {
            enabled: self.enabled,
            index: self.current_index as int,
            duration: self.duration.total_nanos(),
            surface_start: match self.surface_start {
                Some(t) => Some(t as int),
                None => None,
            },
            phase: self.phase,
            phase_start: match self.phase_start {
                Some(t) => Some(t as int),
                None => None,
            },
            fade: self.fade_duration.total_nanos(),
            changed: self.surface_changed,
        }
    }
}

/// Whether at least `span` passed between `start` and `now`.
fn span_passed(now: u64, start: Option<u64>, span: TimeSpan) -> (b: bool)
    ensures
        b == passed(
            now as int,
            match start {
                Some(t) => Some(t as int),
                None => None,
            },
            span.total_nanos(),
        ),
{
    match start {
        Some(s) => {
            let gone: u64 = if now >= s {
                now - s
            } else {
                0
            };
            let need: u128 = span.secs as u128 * 1_000_000_000 + span.nanos as u128;
            gone as u128 >= need
        },
        None => false,
    }
}

impl GalleryMode {
    #[verifier::type_invariant]
    spec fn inv(self) -> bool {
        &&& self.current_index < SURFACE_COUNT
        &&& self.duration.wf()
        &&& self.fade_duration.wf()
    }

    /// Construct a new gallery mode manager at instant `now`.
    ///
    /// - `enabled`: whether to start in gallery mode.
    /// - `duration_secs`: seconds each surface is displayed (clamped to ≥ 1).
    pub fn new(enabled: bool, duration_secs: u32, now: u64) -> (g: Self)
        ensures
            g@ == (GalleryState {
                enabled,
                index: 0,
                duration: (if duration_secs == 0 {
                    1
                } else {
                    duration_secs as int
                }) * 1_000_000_000,
                surface_start: if enabled {
                    Some(now as int)
                } else {
                    None
                },
                phase: TransitionPhase::Idle,
                phase_start: None,
                fade: FADE_NANOS as int,
                changed: enabled,
            }),
    {
        let secs: u32 = if duration_secs == 0 {
            1
        } else {
            duration_secs
        };
        GalleryMode {
            enabled,
            current_index: 0,
            duration: TimeSpan::from_secs(secs as u64),
            surface_start: if enabled {
                Some(now)
            } else {
                None
            },
            phase: TransitionPhase::Idle,
            phase_start: None,
            fade_duration: TimeSpan { secs: 0, nanos: FADE_NANOS },
            surface_changed: enabled,
        }
    }

    /// Returns `true` if gallery mode is currently enabled.
    pub fn is_enabled(&self) -> (b: bool)
        ensures
            b == self@.enabled,
    {
        self.enabled
    }

    /// Index of the current surface.
    pub fn current_index(&self) -> (i: usize)
        ensures
            i == self@.index,
            i < SURFACE_COUNT,
    {
        proof {
            use_type_invariant(self);
        }
        self.current_index
    }

    /// How long each surface is displayed.
    pub fn duration(&self) -> (d: TimeSpan)
        ensures
            d.wf(),
            d.total_nanos() == self@.duration,
    {
        proof {
            use_type_invariant(self);
        }
        self.duration
    }

    /// Duration of each fade half.
    pub fn fade_duration(&self) -> (d: TimeSpan)
        ensures
            d.wf(),
            d.total_nanos() == self@.fade,
    {
        proof {
            use_type_invariant(self);
        }
        self.fade_duration
    }

    /// The current transition phase.
    pub fn phase(&self) -> (p: TransitionPhase)
        ensures
            p == self@.phase,
    {
        self.phase
    }

    /// The instant the current transition phase began, if one is running.
    pub fn phase_start(&self) -> (t: Option<u64>)
        ensures
            match t {
                Some(v) => self@.phase_start == Some(v as int),
                None => self@.phase_start is None,
            },
    {
        self.phase_start
    }

    /// The name of the currently-displayed surface.
    pub fn current_surface(&self) -> (name: &'static str)
        ensures
            name@ == surface_name(self@.index),
    {
        proof {
            use_type_invariant(self);
        }
        surface_at(self.current_index % SURFACE_COUNT)
    }

    /// Returns `true` and clears the flag if the surface changed since the last
    /// call to this method.  Call once per frame after [`update`].
    pub fn take_surface_changed(&mut self) -> (changed: bool)
        ensures
            changed == old(self)@.changed,
            final(self)@ == (GalleryState { changed: false, ..old(self)@ }),
    {
        proof {
            use_type_invariant(&*self);
        }
        let changed = self.surface_changed;
        self.surface_changed = false;
        changed
    }

    /// Toggle gallery mode on or off at instant `now`.
    ///
    /// When turned on, the current index and the timer are reset.
    pub fn toggle(&mut self, now: u64)
        ensures
            final(self)@ == toggled(old(self)@, now as int),
    {
        proof {
            use_type_invariant(&*self);
        }
        self.enabled = !self.enabled;
        if self.enabled {
            self.current_index = 0;
            self.surface_start = Some(now);
            self.surface_changed = true;
            self.phase = TransitionPhase::Idle;
            self.phase_start = None;
        } else {
            self.phase = TransitionPhase::Idle;
            self.phase_start = None;
        }
    }

    /// Skip to the next surface (wraps around).
    pub fn next_surface(&mut self, now: u64)
        ensures
            final(self)@ == advanced(old(self)@, 1, now as int),
    {
        self.advance(1, now);
    }

    /// Skip to the previous surface (wraps around).
    pub fn prev_surface(&mut self, now: u64)
        ensures
            final(self)@ == advanced(old(self)@, SURFACE_COUNT - 1, now as int),
    {
        self.advance(SURFACE_COUNT - 1, now);
    }

    /// Advance the index by `delta` (mod surface count) and begin a transition.
    fn advance(&mut self, delta: usize, now: u64)
        requires
            delta < SURFACE_COUNT,
        ensures
            final(self)@ == advanced(old(self)@, delta as int, now as int),
    {
        proof {
            use_type_invariant(&*self);
        }
        self.current_index = (self.current_index + delta) % SURFACE_COUNT;
        self.start_fade_in(now);
        proof {
            use_type_invariant(&*self);
        }
        self.surface_start = Some(now);
        self.surface_changed = true;
    }

    /// Called once per frame at instant `now`.  Drives the automatic timer
    /// and transition state machine.
    ///
    /// Returns `true` if the active surface changed since the flag was last
    /// taken (the flag is consumed).
    pub fn update(&mut self, now: u64) -> (changed: bool)
        ensures
            old(self)@.enabled ==> changed == ticked(old(self)@, now as int).changed && final(self)@ == (
            GalleryState { changed: false, ..ticked(old(self)@, now as int) }),
            !old(self)@.enabled ==> !changed && final(self)@ == old(self)@,
    {
        if !self.enabled {
            return false;
        }
        proof {
            use_type_invariant(&*self);
        }
        match self.phase {
            TransitionPhase::FadeOut => {
                if span_passed(now, self.phase_start, self.fade_duration) {
                    self.current_index = (self.current_index + 1) % SURFACE_COUNT;
                    self.surface_changed = true;
                    self.start_fade_in(now);
                    proof {
                        use_type_invariant(&*self);
                    }
                    self.surface_start = Some(now);
                }
            },
            TransitionPhase::FadeIn => {
                if span_passed(now, self.phase_start, self.fade_duration) {
                    self.phase = TransitionPhase::Idle;
                    self.phase_start = None;
                }
            },
            TransitionPhase::Idle => {
                if span_passed(now, self.surface_start, self.duration) {
                    self.start_fade_out(now);
                }
            },
        }
        self.take_surface_changed()
    }

    fn start_fade_out(&mut self, now: u64)
        ensures
            final(self)@ == (GalleryState {
                phase: TransitionPhase::FadeOut,
                phase_start: Some(now as int),
                ..old(self)@
            }),
    {
        proof {
            use_type_invariant(&*self);
        }
        self.phase = TransitionPhase::FadeOut;
        self.phase_start = Some(now);
    }

    fn start_fade_in(&mut self, now: u64)
        ensures
            final(self)@ == (GalleryState {
                phase: TransitionPhase::FadeIn,
                phase_start: Some(now as int),
                ..old(self)@
            }),
    {
        proof {
            use_type_invariant(&*self);
        }
        self.phase = TransitionPhase::FadeIn;
        self.phase_start = Some(now);
    }
}

/// Stepping back one surface undoes stepping forward one: the index
/// returns to where it was.
pub proof fn lemma_prev_undoes_next(s: GalleryState, t1: int, t2: int)
    requires
        0 <= s.index < SURFACE_COUNT,
    ensures
        advanced(advanced(s, 1, t1), SURFACE_COUNT - 1, t2).index == s.index,
{
}

/// The state after `n` steps forward at instant `t`.
pub open spec fn nexts(s: GalleryState, n: nat, t: int) -> GalleryState
    decreases n,
{
    if n == 0 {
        s
    } else {
        advanced(nexts(s, (n - 1) as nat, t), 1, t)
    }
}

/// After `n` steps forward the index has moved `n` places, modulo the
/// number of surfaces.
pub proof fn lemma_nexts_index(s: GalleryState, n: nat, t: int)
    requires
        0 <= s.index < SURFACE_COUNT,
    ensures
        nexts(s, n, t).index == (s.index + n) % (SURFACE_COUNT as int),
    decreases n,
{
    if n > 0 {
        lemma_nexts_index(s, (n - 1) as nat, t);
        vstd::arithmetic::div_mod::lemma_add_mod_noop(s.index + n - 1, 1, SURFACE_COUNT as int);
    }
}

/// Stepping forward once per surface brings the gallery back to the
/// surface it started on.
pub proof fn lemma_full_cycle_returns(s: GalleryState, t: int)
    requires
        0 <= s.index < SURFACE_COUNT,
    ensures
        nexts(s, SURFACE_COUNT as nat, t).index == s.index,
{
    lemma_nexts_index(s, SURFACE_COUNT as nat, t);
    vstd::arithmetic::div_mod::lemma_mod_add_multiples_vanish(s.index, SURFACE_COUNT as int);
    vstd::arithmetic::div_mod::lemma_small_mod(s.index as nat, SURFACE_COUNT as nat);
}

/// Every index below the surface count names a distinct surface, so
/// stepping forward always changes the surface shown.
pub proof fn lemma_next_changes_surface(s: GalleryState, t: int)
    requires
        0 <= s.index < SURFACE_COUNT,
    ensures
        surface_name(advanced(s, 1, t).index) != surface_name(s.index),
{
    reveal_strlit("torus");
    reveal_strlit("sphere");
    reveal_strlit("saddle");
    reveal_strlit("enneper");
    reveal_strlit("catenoid");
    reveal_strlit("helicoid");
    reveal_strlit("hyperboloid");
    reveal_strlit("hyperbolic_paraboloid");
    reveal_strlit("ellipsoid");
    let a = surface_name(s.index);
    let b = surface_name(advanced(s, 1, t).index);
    assert(a.len() != b.len() || a[0] != b[0] || a[1] != b[1]);
}

} // verus!
