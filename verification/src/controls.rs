//! What the keys do.

use vstd::prelude::*;

verus! {

/// A key of the keyboard.
#[derive(Clone, Copy, PartialEq, Eq, Structural, Debug)]
pub enum Key {
    Space,
    ArrowRight,
    ArrowLeft,
    Escape,
    F1,
    F2,
    F3,
    F11,
    P,
    /// A digit, by its value.
    Digit(u8),
    Other,
}

/// What to do in answer to a key.
#[derive(Clone, Copy, PartialEq, Eq, Structural, Debug)]
pub enum Action {
    /// Switch to another visual.
    Show(usize),
    Exit,
    ToggleHud,
    ResetHud,
    DumpHud,
    ToggleFullscreen,
    NextPalette,
    Nothing,
}

/// The visual after the current one, the first after the last.
pub open spec fn next_of(current: int, count: int) -> int {
    (current + 1) % count
}

/// The visual before the current one, the last before the first.
pub open spec fn previous_of(current: int, count: int) -> int {
    (current + count - 1) % count
}

/// The visual a key selects, if it selects one.
pub open spec fn selected(key: Key, current: int, count: int) -> Option<int> {
    match key {
        Key::Space | Key::ArrowRight => Some(next_of(current, count)),
        Key::ArrowLeft => Some(previous_of(current, count)),
        Key::Digit(d) => if 1 <= d <= 9 && d <= count {
            Some(d - 1)
        } else {
            None
        },
        _ => None,
    }
}

/// What a pressed key does.
pub open spec fn answer(key: Key, current: int, count: int) -> Action {
    match selected(key, current, count) {
        Some(next) => if next != current {
            Action::Show(next as usize)
        } else {
            Action::Nothing
        },
        None => match key {
            Key::Escape => Action::Exit,
            Key::F1 => Action::ToggleHud,
            Key::F2 => Action::ResetHud,
            Key::F3 => Action::DumpHud,
            Key::F11 => Action::ToggleFullscreen,
            Key::P => Action::NextPalette,
            _ => Action::Nothing,
        },
    }
}

fn select(key: Key, current: usize, count: usize) -> (next: Option<usize>)
    requires
        current < count,
    ensures
        next is Some <==> selected(key, current as int, count as int) is Some,
        next is Some ==> selected(key, current as int, count as int) == Some(next->0 as int)
            && next->0 < count,
{
    proof {
        if current + 1 < count {
            vstd::arithmetic::div_mod::lemma_small_mod((current + 1) as nat, count as nat);
        } else {
            vstd::arithmetic::div_mod::lemma_mod_self_0(count as int);
        }
        if current > 0 {
            vstd::arithmetic::div_mod::lemma_mod_add_multiples_vanish(
                current - 1,
                count as int,
            );
            vstd::arithmetic::div_mod::lemma_small_mod((current - 1) as nat, count as nat);
        } else {
            vstd::arithmetic::div_mod::lemma_small_mod((count - 1) as nat, count as nat);
        }
    }
    match key {
        Key::Space | Key::ArrowRight => Some(
            if current + 1 < count {
                current + 1
            } else {
                0
            },
        ),
        Key::ArrowLeft => Some(
            if current > 0 {
                current - 1
            } else {
                count - 1
            },
        ),
        Key::Digit(d) => if 1 <= d && d <= 9 && d as usize <= count {
            Some(d as usize - 1)
        } else {
            None
        },
        _ => None,
    }
}

/// Answer a key event. Releasing a key does nothing, and neither does selecting
/// the visual already shown.
pub fn on_key(key: Key, pressed: bool, current: usize, count: usize) -> (action: Action)
    requires
        current < count,
    ensures
        action == if pressed {
            answer(key, current as int, count as int)
        } else {
            Action::Nothing
        },
        action matches Action::Show(next) ==> next < count && next != current,
{
    if !pressed {
        return Action::Nothing;
    }
    match select(key, current, count) {
        Some(next) => if next != current {
            Action::Show(next)
        } else {
            Action::Nothing
        },
        None => match key {
            Key::Escape => Action::Exit,
            Key::F1 => Action::ToggleHud,
            Key::F2 => Action::ResetHud,
            Key::F3 => Action::DumpHud,
            Key::F11 => Action::ToggleFullscreen,
            Key::P => Action::NextPalette,
            _ => Action::Nothing,
        },
    }
}

/// Going forward and then back, or back and then forward, returns to the same
/// visual.
pub proof fn law_back_undoes_forward(current: int, count: int)
    requires
        0 <= current < count,
    ensures
        previous_of(next_of(current, count), count) == current,
        next_of(previous_of(current, count), count) == current,
{
    if current + 1 < count {
        vstd::arithmetic::div_mod::lemma_small_mod((current + 1) as nat, count as nat);
        vstd::arithmetic::div_mod::lemma_mod_add_multiples_vanish(current, count);
        vstd::arithmetic::div_mod::lemma_small_mod(current as nat, count as nat);
    } else {
        vstd::arithmetic::div_mod::lemma_mod_self_0(count);
        vstd::arithmetic::div_mod::lemma_small_mod((count - 1) as nat, count as nat);
    }
    if current > 0 {
        vstd::arithmetic::div_mod::lemma_mod_add_multiples_vanish(current - 1, count);
        vstd::arithmetic::div_mod::lemma_small_mod((current - 1) as nat, count as nat);
        vstd::arithmetic::div_mod::lemma_small_mod(current as nat, count as nat);
    } else {
        vstd::arithmetic::div_mod::lemma_small_mod((count - 1) as nat, count as nat);
        vstd::arithmetic::div_mod::lemma_mod_self_0(count);
    }
}

/// The visual after `steps` steps forward.
pub open spec fn forward(current: int, count: int, steps: nat) -> int
    decreases steps,
{
    if steps == 0 {
        current
    } else {
        next_of(forward(current, count, (steps - 1) as nat), count)
    }
}

/// Stepping forward reaches every visual, and comes back after as many steps as
/// there are visuals.
pub proof fn law_cycle_reaches_all(current: int, count: int, steps: nat)
    requires
        0 <= current < count,
        steps <= count,
    ensures
        forward(current, count, steps) == if current + steps < count {
            current + steps
        } else {
            current + steps - count
        },
        forward(current, count, count as nat) == current,
{
    lemma_forward(current, count, steps);
    lemma_forward(current, count, count as nat);
}

proof fn lemma_forward(current: int, count: int, steps: nat)
    requires
        0 <= current < count,
        steps <= count,
    ensures
        forward(current, count, steps) == if current + steps < count {
            current + steps
        } else {
            current + steps - count
        },
    decreases steps,
{
    if steps > 0 {
        lemma_forward(current, count, (steps - 1) as nat);
        let at = forward(current, count, (steps - 1) as nat);
        if at + 1 < count {
            vstd::arithmetic::div_mod::lemma_small_mod((at + 1) as nat, count as nat);
        } else {
            vstd::arithmetic::div_mod::lemma_mod_self_0(count);
        }
    }
}

/// Keys that choose a visual: space and the arrow to the right show the next, the
/// arrow to the left the one before, around the end, and a digit the one of that
/// number, counted from one, where there is one. Choosing the visual that is shown
/// does nothing.
pub proof fn law_keys_choose(current: int, count: int, d: u8)
    requires
        0 <= current < count <= usize::MAX,
    ensures
        ({
            let next = if current + 1 == count {
                0
            } else {
                current + 1
            };
            let before = if current == 0 {
                count - 1
            } else {
                current - 1
            };
            &&& count > 1 ==> answer(Key::Space, current, count) == Action::Show(next as usize)
            &&& count > 1 ==> answer(Key::ArrowRight, current, count) == Action::Show(
                next as usize,
            )
            &&& count > 1 ==> answer(Key::ArrowLeft, current, count) == Action::Show(
                before as usize,
            )
            &&& 1 <= d <= 9 && d <= count && d - 1 != current ==> answer(
                Key::Digit(d),
                current,
                count,
            ) == Action::Show((d - 1) as usize)
            &&& d < 1 || d > 9 || d > count || d - 1 == current ==> answer(
                Key::Digit(d),
                current,
                count,
            ) == Action::Nothing
            &&& count == 1 ==> answer(Key::Space, current, count) == Action::Nothing && answer(
                Key::ArrowRight,
                current,
                count,
            ) == Action::Nothing && answer(Key::ArrowLeft, current, count) == Action::Nothing
        }),
{
    law_cycle_reaches_all(current, count, 1);
    if count > 1 {
        let (m, n) = (current + 1, current + count - 1);
        assert(m % count == if m == count {
            0
        } else {
            m
        }) by (nonlinear_arith)
            requires
                1 <= m <= count,
                count > 1,
        ;
        assert(n % count == if n >= count {
            n - count
        } else {
            n
        }) by (nonlinear_arith)
            requires
                0 <= n < 2 * count,
                count > 1,
        ;
    }
}

/// Keys that do something else: escape leaves, F1 to F3 show, reset and dump the
/// statistics, F11 fills the screen and P takes the next palette.
pub proof fn law_keys_act(current: int, count: int)
    ensures
        answer(Key::Escape, current, count) == Action::Exit,
        answer(Key::F1, current, count) == Action::ToggleHud,
        answer(Key::F2, current, count) == Action::ResetHud,
        answer(Key::F3, current, count) == Action::DumpHud,
        answer(Key::F11, current, count) == Action::ToggleFullscreen,
        answer(Key::P, current, count) == Action::NextPalette,
{
}

/// Only keys going down do anything.
pub proof fn law_only_presses_act(key: Key, current: usize, count: usize, up: Action, down: Action)
    requires
        current < count,
        call_ensures(on_key, (key, false, current, count), up),
        call_ensures(on_key, (key, true, current, count), down),
    ensures
        up == Action::Nothing,
        down == answer(key, current as int, count as int),
{
}

} // verus!
