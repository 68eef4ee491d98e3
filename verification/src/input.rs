use vstd::prelude::*;

verus! {

/// A key of the keyboard, as far as the controls tell keys apart.
#[derive(Clone, Copy, Debug, PartialEq, Eq, Structural)]
pub enum Key {
    W,
    A,
    S,
    D,
    Q,
    E,
    C,
    M,
    I,
    O,
    K,
    L,
    LShift,
    LControl,
    LAlt,
    Escape,
    /// Any other key, by a code of the windowing system.
    Other(u32),
}

/// A button of the mouse.
#[derive(Clone, Copy, Debug, PartialEq, Eq, Structural)]
pub enum MouseButton {
    Left,
    Right,
    Middle,
    Other(u16),
}

/// Which way the mouse wheel turned.
#[derive(Clone, Copy, Debug, PartialEq, Eq, Structural)]
pub enum Scroll {
    Up,
    Down,
    Still,
}

/// An event of the window that the controls react to.
#[derive(Clone, Copy, Debug, PartialEq, Eq, Structural)]
pub enum InputEvent {
    KeyPressed(Key),
    KeyReleased(Key),
    MousePressed(MouseButton),
    MouseReleased(MouseButton),
    Scrolled(Scroll),
    CloseRequested,
}

/// What the controls remember between frames, as mathematical values.
pub struct InputModel {
    pub keys: Set<Key>,
    pub buttons: Set<MouseButton>,
    pub resolution: int,
    pub debugging: bool,
}

/// The effect of one event. `debug` tells whether debugging may be switched on.
pub open spec fn apply_event(m: InputModel, event: InputEvent, debug: bool) -> InputModel {
    match event {
        InputEvent::KeyPressed(k) => InputModel {
            keys: m.keys.insert(k),
            debugging: if debug && k == Key::LAlt {
                true
            } else {
                m.debugging
            },
            ..m
        },
        InputEvent::KeyReleased(k) => InputModel {
            keys: m.keys.remove(k),
            debugging: if debug && k == Key::LAlt {
                false
            } else {
                m.debugging
            },
            ..m
        },
        InputEvent::MousePressed(b) => InputModel { buttons: m.buttons.insert(b), ..m },
        InputEvent::MouseReleased(b) => InputModel { buttons: m.buttons.remove(b), ..m },
        InputEvent::Scrolled(Scroll::Up) => InputModel {
            resolution: if m.resolution > 1 {
                m.resolution - 1
            } else {
                m.resolution
            },
            ..m
        },
        InputEvent::Scrolled(Scroll::Down) => InputModel { resolution: m.resolution + 1, ..m },
        _ => m,
    }
}

/// Whether the event asks for the simulation to end.
pub open spec fn requests_exit(event: InputEvent) -> bool {
    event == InputEvent::CloseRequested || event == InputEvent::KeyReleased(Key::Escape)
}

/// The effect of a series of events, in order.
pub open spec fn apply_events(m: InputModel, events: Seq<InputEvent>, debug: bool) -> InputModel
    decreases events.len(),
{
    if events.len() == 0 {
        m
    } else {
        apply_event(apply_events(m, events.drop_last(), debug), events.last(), debug)
    }
}

/// The last of `events` that asks for the simulation to end.
pub open spec fn last_exit_request(events: Seq<InputEvent>) -> Option<InputEvent>
    decreases events.len(),
{
    if events.len() == 0 {
        None
    } else if requests_exit(events.last()) {
        Some(events.last())
    } else {
        last_exit_request(events.drop_last())
    }
}

/// How many of `events` turn the mouse wheel down.
pub open spec fn count_scroll_down(events: Seq<InputEvent>) -> nat
    decreases events.len(),
{
    if events.len() == 0 {
        0
    } else {
        count_scroll_down(events.drop_last()) + if events.last() == InputEvent::Scrolled(
            Scroll::Down,
        ) {
            1nat
        } else {
            0nat
        }
    }
}

/// The keys and mouse buttons held down, the resolution divisor of the rendering and
/// whether the debugging view is on.
pub struct InputState {
    pressed_keys: Vec<Key>,
    pressed_mouse_buttons: Vec<MouseButton>,
    resolution: u32,
    debugging: bool,
}

/// Adding an item that a list without repetitions lacks keeps it without repetitions and
/// adds the item to its set.
proof fn lemma_push_new<T>(before: Seq<T>, x: T)
    requires
        before.no_duplicates(),
        forall|j: int| 0 <= j < before.len() ==> before[j] != x,
    ensures
        before.push(x).no_duplicates(),
        before.push(x).to_set() == before.to_set().insert(x),
{
    let after = before.push(x);
    assert forall|y: T| after.to_set().contains(y) <==> before.to_set().insert(x).contains(y) by {
        if y != x && after.contains(y) {
            let j = choose|j: int| 0 <= j < after.len() && after[j] == y;
            assert(before[j] == y);
        }
        if before.contains(y) {
            let j = choose|j: int| 0 <= j < before.len() && before[j] == y;
            assert(after[j] == y);
        }
        if y == x {
            assert(after[after.len() - 1] == x);
        }
    }
    assert(after.to_set() =~= before.to_set().insert(x));
}

/// Taking the item at `i` out of a list without repetitions keeps it without repetitions
/// and takes the item out of its set.
proof fn lemma_remove_at<T>(before: Seq<T>, i: int)
    requires
        before.no_duplicates(),
        0 <= i < before.len(),
    ensures
        before.remove(i).no_duplicates(),
        before.remove(i).to_set() == before.to_set().remove(before[i]),
{
    let after = before.remove(i);
    let x = before[i];
    assert forall|p: int, q: int| 0 <= p < after.len() && 0 <= q < after.len() && p != q implies after[p] != after[q] by {
        let p2 = if p < i { p } else { p + 1 };
        let q2 = if q < i { q } else { q + 1 };
        assert(before[p2] == after[p] && before[q2] == after[q]);
    }
    assert forall|y: T| after.to_set().contains(y) <==> before.to_set().remove(x).contains(y) by {
        if after.contains(y) {
            let j = choose|j: int| 0 <= j < after.len() && after[j] == y;
            if j < i {
                assert(before[j] == y);
                assert(before[j] != before[i]);
            } else {
                assert(before[j + 1] == y);
                assert(before[j + 1] != before[i]);
            }
        }
        if y != x && before.contains(y) {
            let j = choose|j: int| 0 <= j < before.len() && before[j] == y;
            if j < i {
                assert(after[j] == y);
            } else {
                assert(j != i);
                assert(after[j - 1] == y);
            }
        }
    }
    assert(after.to_set() =~= before.to_set().remove(x));
}

fn insert_key(v: &mut Vec<Key>, k: Key)
    requires
        old(v)@.no_duplicates(),
    ensures
        final(v)@.no_duplicates(),
        final(v)@.to_set() == old(v)@.to_set().insert(k),
{
    let mut i: usize = 0;
    while i < v.len()
        invariant
            i <= v@.len(),
            v@ == old(v)@,
            old(v)@.no_duplicates(),
            forall|j: int| 0 <= j < i ==> v@[j] != k,
        decreases v.len() - i,
    {
        if v[i] == k {
            proof {
                assert(v@.to_set() =~= old(v)@.to_set().insert(k));
            }
            return;
        }
        i = i + 1;
    }
    proof {
        lemma_push_new(v@, k);
    }
    v.push(k);
}

fn remove_key(v: &mut Vec<Key>, k: Key)
    requires
        old(v)@.no_duplicates(),
    ensures
        final(v)@.no_duplicates(),
        final(v)@.to_set() == old(v)@.to_set().remove(k),
{
    let mut i: usize = 0;
    while i < v.len()
        invariant
            i <= v@.len(),
            v@ == old(v)@,
            old(v)@.no_duplicates(),
            forall|j: int| 0 <= j < i ==> v@[j] != k,
        decreases v.len() - i,
    {
        if v[i] == k {
            proof {
                lemma_remove_at(v@, i as int);
            }
            v.remove(i);
            return;
        }
        i = i + 1;
    }
    proof {
        assert(v@.to_set() =~= old(v)@.to_set().remove(k));
    }
}

fn insert_button(v: &mut Vec<MouseButton>, b: MouseButton)
    requires
        old(v)@.no_duplicates(),
    ensures
        final(v)@.no_duplicates(),
        final(v)@.to_set() == old(v)@.to_set().insert(b),
{
    let mut i: usize = 0;
    while i < v.len()
        invariant
            i <= v@.len(),
            v@ == old(v)@,
            old(v)@.no_duplicates(),
            forall|j: int| 0 <= j < i ==> v@[j] != b,
        decreases v.len() - i,
    {
        if v[i] == b {
            proof {
                assert(v@.to_set() =~= old(v)@.to_set().insert(b));
            }
            return;
        }
        i = i + 1;
    }
    proof {
        lemma_push_new(v@, b);
    }
    v.push(b);
}

fn remove_button(v: &mut Vec<MouseButton>, b: MouseButton)
    requires
        old(v)@.no_duplicates(),
    ensures
        final(v)@.no_duplicates(),
        final(v)@.to_set() == old(v)@.to_set().remove(b),
{
    let mut i: usize = 0;
    while i < v.len()
        invariant
            i <= v@.len(),
            v@ == old(v)@,
            old(v)@.no_duplicates(),
            forall|j: int| 0 <= j < i ==> v@[j] != b,
        decreases v.len() - i,
    {
        if v[i] == b {
            proof {
                lemma_remove_at(v@, i as int);
            }
            v.remove(i);
            return;
        }
        i = i + 1;
    }
    proof {
        assert(v@.to_set() =~= old(v)@.to_set().remove(b));
    }
}

impl InputState {
    #[verifier::type_invariant]
    spec fn well_formed(self) -> bool {
        &&& self.pressed_keys@.no_duplicates()
        &&& self.pressed_mouse_buttons@.no_duplicates()
    }

    /// The state as mathematical values.
    pub closed spec fn model(&self) -> InputModel {
        InputModel {
            keys: self.pressed_keys@.to_set(),
            buttons: self.pressed_mouse_buttons@.to_set(),
            resolution: self.resolution as int,
            debugging: self.debugging,
        }
    }

    /// No key or button held, a resolution divisor of 8 and debugging off.
    pub fn new() -> (state: Self)
        ensures
            state.model().keys == Set::<Key>::empty(),
            state.model().buttons == Set::<MouseButton>::empty(),
            state.model().resolution == 8,
            state.model().debugging == false,
    {
        let state = InputState {
            pressed_keys: Vec::new(),
            pressed_mouse_buttons: Vec::new(),
            resolution: 8,
            debugging: false,
        };
        proof {
            assert(state.pressed_keys@.to_set() =~= Set::<Key>::empty());
            assert(state.pressed_mouse_buttons@.to_set() =~= Set::<MouseButton>::empty());
        }
        state
    }

    /// The keys held down.
    pub fn pressed_keys(&self) -> (keys: &Vec<Key>)
        ensures
            keys@.to_set() == self.model().keys,
            keys@.no_duplicates(),
    {
        proof {
            use_type_invariant(self);
        }
        &self.pressed_keys
    }

    /// The mouse buttons held down.
    pub fn pressed_mouse_buttons(&self) -> (buttons: &Vec<MouseButton>)
        ensures
            buttons@.to_set() == self.model().buttons,
            buttons@.no_duplicates(),
    {
        proof {
            use_type_invariant(self);
        }
        &self.pressed_mouse_buttons
    }

    /// Whether `key` is held down.
    pub fn is_pressed(&self, key: Key) -> (pressed: bool)
        ensures
            pressed == self.model().keys.contains(key),
    {
        let mut i: usize = 0;
        while i < self.pressed_keys.len()
            invariant
                i <= self.pressed_keys@.len(),
                forall|j: int| 0 <= j < i ==> self.pressed_keys@[j] != key,
            decreases self.pressed_keys.len() - i,
        {
            if self.pressed_keys[i] == key {
                proof {
                    assert(self.pressed_keys@.to_set().contains(self.pressed_keys@[i as int]));
                }
                return true;
            }
            i = i + 1;
        }
        false
    }

    /// By how much the rendering resolution is divided.
    pub fn resolution(&self) -> (r: u32)
        ensures
            r == self.model().resolution,
    {
        self.resolution
    }

    /// Whether the debugging view is on.
    pub fn debugging(&self) -> (d: bool)
        ensures
            d == self.model().debugging,
    {
        self.debugging
    }

    /// Reacts to one event; returns whether the event asks for the simulation to end.
    pub fn handle_event(&mut self, event: InputEvent, debug: bool) -> (exit: bool)
        requires
            event == InputEvent::Scrolled(Scroll::Down) ==> old(self).model().resolution
                < u32::MAX,
        ensures
            final(self).model() == apply_event(old(self).model(), event, debug),
            exit == requests_exit(event),
    {
        proof {
            use_type_invariant(&*self);
        }
        match event {
            InputEvent::KeyPressed(k) => {
                let mut items = Vec::new();
                std::mem::swap(&mut items, &mut self.pressed_keys);
                insert_key(&mut items, k);
                self.pressed_keys = items;
                if debug && k == Key::LAlt {
                    self.debugging = true;
                }
                false
            },
            InputEvent::KeyReleased(k) => {
                let mut items = Vec::new();
                std::mem::swap(&mut items, &mut self.pressed_keys);
                remove_key(&mut items, k);
                self.pressed_keys = items;
                if debug && k == Key::LAlt {
                    self.debugging = false;
                }
                k == Key::Escape
            },
            InputEvent::MousePressed(b) => {
                let mut items = Vec::new();
                std::mem::swap(&mut items, &mut self.pressed_mouse_buttons);
                insert_button(&mut items, b);
                self.pressed_mouse_buttons = items;
                false
            },
            InputEvent::MouseReleased(b) => {
                let mut items = Vec::new();
                std::mem::swap(&mut items, &mut self.pressed_mouse_buttons);
                remove_button(&mut items, b);
                self.pressed_mouse_buttons = items;
                false
            },
            InputEvent::Scrolled(scroll) => {
                match scroll {
                    Scroll::Up => {
                        if self.resolution > 1 {
                            self.resolution = self.resolution - 1;
                        }
                    },
                    Scroll::Down => {
                        self.resolution = self.resolution + 1;
                    },
                    Scroll::Still => {},
                }
                false
            },
            InputEvent::CloseRequested => true,
        }
    }

    /// Reacts to the events that arrived since the last frame, in order. Returns the last
    /// of them that asks for the simulation to end, if any: closing the window or
    /// releasing Escape.
    pub fn update(&mut self, events: &Vec<InputEvent>, debug: bool) -> (result: Result<(), InputEvent>)
        requires
            old(self).model().resolution + count_scroll_down(events@) <= u32::MAX,
        ensures
            final(self).model() == apply_events(old(self).model(), events@, debug),
            result matches Err(e) ==> last_exit_request(events@) == Some(e),
            result is Ok ==> last_exit_request(events@) is None,
    {
        let mut result: Result<(), InputEvent> = Ok(());
        let mut k: usize = 0;
        while k < events.len()
            invariant
                k <= events@.len(),
                self.model() == apply_events(old(self).model(), events@.take(k as int), debug),
                self.model().resolution <= old(self).model().resolution + count_scroll_down(
                    events@.take(k as int),
                ),
                old(self).model().resolution + count_scroll_down(events@) <= u32::MAX,
                result matches Err(e) ==> last_exit_request(events@.take(k as int)) == Some(e),
                result is Ok ==> last_exit_request(events@.take(k as int)) is None,
            decreases events.len() - k,
        {
            proof {
                assert(events@.take(k + 1).drop_last() =~= events@.take(k as int));
                assert(events@.take(k + 1).last() == events@[k as int]);
                lemma_scroll_down_prefix(events@, k + 1);
            }
            let event = events[k];
            let exit = self.handle_event(event, debug);
            if exit {
                result = Err(event);
            }
            k = k + 1;
        }
        proof {
            assert(events@.take(k as int) =~= events@);
        }
        result
    }
}

/// A prefix of `events` turns the wheel down no more often than all of them.
proof fn lemma_scroll_down_prefix(events: Seq<InputEvent>, k: int)
    requires
        0 <= k <= events.len(),
    ensures
        count_scroll_down(events.take(k)) <= count_scroll_down(events),
    decreases events.len(),
{
    if k < events.len() {
        assert(events.drop_last().take(k) =~= events.take(k));
        lemma_scroll_down_prefix(events.drop_last(), k);
    } else {
        assert(events.take(k) =~= events);
    }
}

/// Pressing a key and releasing it again leaves it released, whatever came before.
pub proof fn lemma_press_then_release(m: InputModel, k: Key, debug: bool)
    ensures
        apply_events(m, seq![InputEvent::KeyPressed(k), InputEvent::KeyReleased(k)], debug).keys
            == m.keys.remove(k),
{
    let events = seq![InputEvent::KeyPressed(k), InputEvent::KeyReleased(k)];
    assert(events.drop_last() =~= seq![InputEvent::KeyPressed(k)]);
    assert(events.drop_last().drop_last() =~= Seq::<InputEvent>::empty());
    let once = apply_events(m, events.drop_last(), debug);
    assert(apply_events(m, events.drop_last().drop_last(), debug) == m);
    assert(once == apply_event(m, InputEvent::KeyPressed(k), debug));
    assert(once.keys == m.keys.insert(k));
    assert(apply_events(m, events, debug) == apply_event(once, InputEvent::KeyReleased(k), debug));
    assert(m.keys.insert(k).remove(k) =~= m.keys.remove(k));
}

/// The resolution divisor never drops below 1 once it is at least 1, and grows by at most
/// one per turn of the mouse wheel downwards.
pub proof fn lemma_resolution_stays_positive(m: InputModel, events: Seq<InputEvent>, debug: bool)
    requires
        m.resolution >= 1,
    ensures
        1 <= apply_events(m, events, debug).resolution <= m.resolution + count_scroll_down(events),
    decreases events.len(),
{
    if events.len() > 0 {
        lemma_resolution_stays_positive(m, events.drop_last(), debug);
    }
}

/// Closing the window or releasing Escape anywhere among the events of a frame ends the
/// simulation.
pub proof fn lemma_exit_request_is_reported(events: Seq<InputEvent>, i: int)
    requires
        0 <= i < events.len(),
        requests_exit(events[i]),
    ensures
        last_exit_request(events) is Some,
    decreases events.len(),
{
    if !requests_exit(events.last()) {
        assert(i < events.len() - 1);
        assert(events.drop_last()[i] == events[i]);
        lemma_exit_request_is_reported(events.drop_last(), i);
    }
}

/// Debugging is switched on only when it may be.
pub proof fn lemma_debugging_needs_permission(m: InputModel, events: Seq<InputEvent>)
    requires
        !m.debugging,
    ensures
        !apply_events(m, events, false).debugging,
    decreases events.len(),
{
    if events.len() > 0 {
        lemma_debugging_needs_permission(m, events.drop_last());
    }
}

/// `k` turns of the mouse wheel in the direction `scroll`.
pub open spec fn wheel_turns(scroll: Scroll, k: nat) -> Seq<InputEvent> {
    Seq::new(k, |i: int| InputEvent::Scrolled(scroll))
}

/// Each turn of the wheel up lowers a divisor above 1 by one, and none lowers it below 1:
/// after `k` turns up from `r` the divisor is `max(1, r - k)`. Each turn down raises it by
/// one: after `k` turns down it is `r + k`. The wheel changes nothing else.
pub proof fn lemma_wheel_steps_the_resolution(m: InputModel, k: nat, debug: bool)
    requires
        m.resolution >= 1,
    ensures
        apply_events(m, wheel_turns(Scroll::Up, k), debug).resolution == if m.resolution - k >= 1 {
            m.resolution - k
        } else {
            1
        },
        apply_events(m, wheel_turns(Scroll::Down, k), debug).resolution == m.resolution + k,
        apply_events(m, wheel_turns(Scroll::Up, k), debug).keys == m.keys,
        apply_events(m, wheel_turns(Scroll::Up, k), debug).buttons == m.buttons,
        apply_events(m, wheel_turns(Scroll::Up, k), debug).debugging == m.debugging,
        apply_events(m, wheel_turns(Scroll::Down, k), debug).keys == m.keys,
        apply_events(m, wheel_turns(Scroll::Down, k), debug).buttons == m.buttons,
        apply_events(m, wheel_turns(Scroll::Down, k), debug).debugging == m.debugging,
    decreases k,
{
    if k > 0 {
        let k1 = (k - 1) as nat;
        assert(wheel_turns(Scroll::Up, k).drop_last() =~= wheel_turns(Scroll::Up, k1));
        assert(wheel_turns(Scroll::Down, k).drop_last() =~= wheel_turns(Scroll::Down, k1));
        lemma_wheel_steps_the_resolution(m, k1, debug);
    } else {
        assert(wheel_turns(Scroll::Up, k) =~= Seq::<InputEvent>::empty());
        assert(wheel_turns(Scroll::Down, k) =~= Seq::<InputEvent>::empty());
    }
}

/// Only the wheel changes the resolution divisor, and only by one per turn: a key, a mouse
/// button, a still wheel or a request to close leaves it as it was.
pub proof fn lemma_only_the_wheel_changes_the_resolution(m: InputModel, event: InputEvent, debug: bool)
    ensures
        event != InputEvent::Scrolled(Scroll::Up) && event != InputEvent::Scrolled(Scroll::Down)
            ==> apply_event(m, event, debug).resolution == m.resolution,
        event == InputEvent::Scrolled(Scroll::Up) && m.resolution > 1 ==> apply_event(
            m,
            event,
            debug,
        ).resolution + 1 == m.resolution,
        event == InputEvent::Scrolled(Scroll::Up) && m.resolution <= 1 ==> apply_event(
            m,
            event,
            debug,
        ).resolution == m.resolution,
        event == InputEvent::Scrolled(Scroll::Down) ==> apply_event(m, event, debug).resolution
            == m.resolution + 1,
{
}

/// Pressing a key holds it and releasing it lets it go, and neither touches any other key or
/// the mouse buttons; the same holds of mouse buttons.
pub proof fn lemma_events_touch_only_their_key(m: InputModel, event: InputEvent, debug: bool)
    ensures
        forall|k: Key|
            #![trigger apply_event(m, event, debug).keys.contains(k)]
            apply_event(m, event, debug).keys.contains(k) == if event == InputEvent::KeyPressed(k) {
                true
            } else if event == InputEvent::KeyReleased(k) {
                false
            } else {
                m.keys.contains(k)
            },
        forall|b: MouseButton|
            #![trigger apply_event(m, event, debug).buttons.contains(b)]
            apply_event(m, event, debug).buttons.contains(b) == if event == InputEvent::MousePressed(
                b,
            ) {
                true
            } else if event == InputEvent::MouseReleased(b) {
                false
            } else {
                m.buttons.contains(b)
            },
{
}

/// Only closing the window and releasing Escape ask for the simulation to end; pressing
/// Escape, or any other event, does not.
pub proof fn lemma_exit_requests(event: InputEvent)
    ensures
        requests_exit(InputEvent::CloseRequested),
        requests_exit(InputEvent::KeyReleased(Key::Escape)),
        !requests_exit(InputEvent::KeyPressed(Key::Escape)),
        (event is Scrolled || event is MousePressed || event is MouseReleased || event is KeyPressed)
            ==> !requests_exit(event),
        (event matches InputEvent::KeyReleased(k) && k != Key::Escape) ==> !requests_exit(event),
{
}

/// Debugging is switched on by pressing Left Alt and off by releasing it, when it may be
/// switched at all, and by nothing else.
pub proof fn lemma_left_alt_switches_debugging(m: InputModel, event: InputEvent, debug: bool)
    ensures
        debug && event == InputEvent::KeyPressed(Key::LAlt) ==> apply_event(m, event, debug).debugging,
        debug && event == InputEvent::KeyReleased(Key::LAlt) ==> !apply_event(m, event, debug).debugging,
        !(debug && (event == InputEvent::KeyPressed(Key::LAlt) || event == InputEvent::KeyReleased(
            Key::LAlt,
        ))) ==> apply_event(m, event, debug).debugging == m.debugging,
{
}

} // verus!
