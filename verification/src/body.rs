//! Sleep and wake bookkeeping of a rigid body: when it stops being moved,
//! when it falls asleep, and when it is woken again.

use vstd::prelude::*;

verus! {

/// Number of consecutive slow steps after which a dynamic body falls asleep.
pub const SLEEP_FRAMES: u32 = 60;

/// The activity flags of a rigid body.
#[derive(Clone, Copy, Debug)]
pub struct Activity {
    /// Static bodies never move, never sleep and are never woken.
    pub is_static: bool,
    pub is_sleeping: bool,
    /// Consecutive steps the body has spent below the sleep thresholds.
    pub sleep_counter: u32,
    /// Whether the last step integrated the body's motion.
    pub integrated_last_step: bool,
}

/// The activity after `wake_up`.
pub open spec fn awakened(a: Activity) -> Activity {
    if a.is_static {
        a
    } else {
        Activity { is_sleeping: false, sleep_counter: 0, ..a }
    }
}

/// Whether a body with activity `a` has its motion integrated in a step.
pub open spec fn moves(a: Activity) -> bool {
    !a.is_static && !a.is_sleeping
}

/// The activity after a step has integrated (or skipped) the body.
pub open spec fn integrated(a: Activity) -> Activity {
    if moves(a) {
        Activity { integrated_last_step: true, ..a }
    } else {
        a
    }
}

/// The activity after the end-of-step sleep check, `slow` telling whether
/// both the linear and the angular speed were below their thresholds.
pub open spec fn after_sleep_check(a: Activity, slow: bool) -> Activity {
    if a.is_static {
        a
    } else if slow {
        Activity {
            sleep_counter: (a.sleep_counter + 1) as u32,
            is_sleeping: a.is_sleeping || a.sleep_counter + 1 >= SLEEP_FRAMES,
            ..a
        }
    } else {
        awakened(a)
    }
}

/// Whether the sleep check with `slow` halts the body (its velocities are zeroed).
pub open spec fn halts(a: Activity, slow: bool) -> bool {
    !a.is_static && slow && a.sleep_counter + 1 >= SLEEP_FRAMES
}

/// The activity after `n` consecutive sleep checks that all found the body slow.
pub open spec fn after_slow_checks(a: Activity, n: nat) -> Activity
    decreases n,
{
    if n == 0 {
        a
    } else {
        after_sleep_check(after_slow_checks(a, (n - 1) as nat), true)
    }
}

impl Activity {
    /// A dynamic body: awake, never slowed down, not yet integrated.
    pub fn new_dynamic() -> (a: Self)
        ensures
            !a.is_static,
            !a.is_sleeping,
            a.sleep_counter == 0,
            !a.integrated_last_step,
    {
        Activity { is_static: false, is_sleeping: false, sleep_counter: 0, integrated_last_step: false }
    }

    /// A static body.
    pub fn new_static() -> (a: Self)
        ensures
            a.is_static,
            !a.is_sleeping,
            a.sleep_counter == 0,
            !a.integrated_last_step,
    {
        Activity { is_static: true, is_sleeping: false, sleep_counter: 0, integrated_last_step: false }
    }

    /// Wakes a dynamic body and restarts its count of slow steps; a static body is left as it is.
    pub fn wake_up(&mut self)
        ensures
            *final(self) == awakened(*old(self)),
            old(self).is_static ==> *final(self) == *old(self),
            !old(self).is_static ==> !final(self).is_sleeping && final(self).sleep_counter == 0
                && !final(self).is_static && final(self).integrated_last_step
                == old(self).integrated_last_step,
    {
        if self.is_static {
            return;
        }
        self.is_sleeping = false;
        self.sleep_counter = 0;
    }

    /// Marks the start of a step: nothing has been integrated yet.
    pub fn begin_step(&mut self)
        ensures
            *final(self) == (Activity { integrated_last_step: false, ..*old(self) }),
    {
        self.integrated_last_step = false;
    }

    /// Decides whether this step integrates the body's motion, and records it:
    /// a static or sleeping body is skipped.
    pub fn integrate(&mut self) -> (moving: bool)
        ensures
            moving == moves(*old(self)),
            moving == (!old(self).is_static && !old(self).is_sleeping),
            *final(self) == integrated(*old(self)),
            final(self).integrated_last_step == (moving || old(self).integrated_last_step),
    {
        if self.is_static || self.is_sleeping {
            return false;
        }
        self.integrated_last_step = true;
        true
    }

    /// The end-of-step sleep check. A dynamic body found slow counts one more
    /// slow step and, from the `SLEEP_FRAMES`-th on, is asleep and halted (the
    /// result is `true` when its velocities are to be zeroed); a dynamic body
    /// found moving is woken. A static body is left as it is.
    pub fn update_sleep_state(&mut self, slow: bool) -> (halt: bool)
        requires
            old(self).is_static || !slow || old(self).sleep_counter < u32::MAX,
        ensures
            *final(self) == after_sleep_check(*old(self), slow),
            halt == halts(*old(self), slow),
            halt == (!old(self).is_static && slow && old(self).sleep_counter + 1 >= SLEEP_FRAMES),
            !old(self).is_static && slow ==> final(self).sleep_counter == old(self).sleep_counter + 1,
            !old(self).is_static && !slow ==> !final(self).is_sleeping && final(self).sleep_counter == 0,
    {
        if self.is_static {
            return false;
        }
        if slow {
            self.sleep_counter = self.sleep_counter + 1;
            if self.sleep_counter >= SLEEP_FRAMES {
                self.is_sleeping = true;
                return true;
            }
            false
        } else {
            self.wake_up();
            false
        }
    }
}

/// A dynamic body found slow in `n` consecutive sleep checks has counted `n`
/// more slow steps, and is asleep exactly when it already was or its count
/// has reached `SLEEP_FRAMES`; in particular an awake body with no slow steps
/// counted falls asleep at the `SLEEP_FRAMES`-th check and not before.
pub proof fn lemma_sleeps_after_enough_slow_steps(a: Activity, n: nat)
    requires
        !a.is_static,
        a.sleep_counter + n <= u32::MAX,
    ensures
        after_slow_checks(a, n).sleep_counter == a.sleep_counter + n,
        after_slow_checks(a, n).is_sleeping == (a.is_sleeping || (n > 0 && a.sleep_counter + n
            >= SLEEP_FRAMES)),
        !after_slow_checks(a, n).is_static,
    decreases n,
{
    if n > 0 {
        lemma_sleeps_after_enough_slow_steps(a, (n - 1) as nat);
    }
}

/// A sleeping body is not integrated; once woken, a dynamic body is
/// integrated again in the next step, and a static body never is.
pub proof fn lemma_wake_resumes_integration(a: Activity)
    ensures
        a.is_sleeping ==> !moves(a) && integrated(a) == a,
        !a.is_static ==> moves(awakened(a)),
        a.is_static ==> !moves(awakened(a)) && awakened(a) == a,
{
}

/// A sleep check that finds a dynamic body moving wakes it, whatever its state.
pub proof fn lemma_fast_step_wakes(a: Activity)
    requires
        !a.is_static,
    ensures
        !after_sleep_check(a, false).is_sleeping,
        after_sleep_check(a, false).sleep_counter == 0,
        moves(after_sleep_check(a, false)),
        !halts(a, false),
{
}

/// Waking restarts the count of slow steps of every dynamic body, asleep or
/// not, and leaves its other flags alone; a static body is left as it is.
pub proof fn lemma_wake_restarts_count(a: Activity)
    ensures
        !a.is_static ==> awakened(a).sleep_counter == 0 && !awakened(a).is_sleeping
            && !awakened(a).is_static && awakened(a).integrated_last_step == a.integrated_last_step,
        a.is_static ==> awakened(a) == a,
{
}

/// Exactly the awake dynamic bodies are integrated, whatever their count of
/// slow steps, and integrating one records it; static and sleeping bodies are
/// skipped and left as they are.
pub proof fn lemma_integrates_exactly_awake_dynamic(a: Activity)
    ensures
        moves(a) <==> (!a.is_static && !a.is_sleeping),
        !a.is_static && !a.is_sleeping ==> integrated(a).integrated_last_step && integrated(a).is_sleeping
            == a.is_sleeping && integrated(a).sleep_counter == a.sleep_counter,
        (a.is_static || a.is_sleeping) ==> integrated(a) == a,
{
}

/// A dynamic body found slow is halted (its velocities zeroed) and asleep at
/// every check from the `SLEEP_FRAMES`-th slow step on, with no upper limit,
/// and never before; a body found moving or a static body is never halted.
pub proof fn lemma_halted_from_sleep_frames_on(a: Activity, slow: bool)
    ensures
        halts(a, slow) <==> (!a.is_static && slow && a.sleep_counter + 1 >= SLEEP_FRAMES),
        !a.is_static && slow && a.sleep_counter + 1 >= SLEEP_FRAMES ==> after_sleep_check(a, slow).is_sleeping,
        !a.is_static && slow && a.sleep_counter + 1 <= u32::MAX ==> after_sleep_check(a, slow).sleep_counter
            == a.sleep_counter + 1,
        !a.is_static && slow && !a.is_sleeping && a.sleep_counter + 1 < SLEEP_FRAMES ==> !after_sleep_check(
            a,
            slow,
        ).is_sleeping,
{
}

} // verus!
