use std::collections::HashMap;

use vstd::prelude::*;

verus! {

/// What is known of one key or button during the current frame.
#[derive(Clone, Copy)]
pub struct KeyInfo {
    pub pressed_this_frame: bool,
    pub released_this_frame: bool,
    pub held: bool,
}

impl KeyInfo {
    pub fn new() -> (k: Self)
        ensures
            k == KeyInfo::idle(),
    {
        KeyInfo { pressed_this_frame: false, released_this_frame: false, held: false }
    }

    /// The state of a key that has seen no event.
    pub open spec fn idle() -> KeyInfo {
        KeyInfo { pressed_this_frame: false, released_this_frame: false, held: false }
    }
}

/// Whether a key or button went down or came up.
#[derive(Clone, Copy, PartialEq, Eq, Debug)]
pub enum ElementState {
    Pressed,
    Released,
}

/// The key that a keyboard event is about: a key code, or a key the platform could
/// not identify.
#[derive(Clone, Copy, PartialEq, Eq, Debug)]
pub enum PhysicalKey {
    Code(u32),
    Unidentified,
}

/// A keyboard event: which key, whether it went down or up, and whether it is an
/// automatic repeat of a key held down.
#[derive(Clone, Copy, Debug)]
pub struct KeyEvent {
    pub physical_key: PhysicalKey,
    pub state: ElementState,
    pub repeat: bool,
}

/// The state of a key after an event on it: a press marks it pressed this frame and
/// held, a release marks it released this frame and no longer held.
pub open spec fn after_event(k: KeyInfo, state: ElementState) -> KeyInfo {
    match state {
        ElementState::Pressed => KeyInfo {
            pressed_this_frame: true,
            released_this_frame: k.released_this_frame,
            held: true,
        },
        ElementState::Released => KeyInfo {
            pressed_this_frame: k.pressed_this_frame,
            released_this_frame: true,
            held: false,
        },
    }
}

/// The recorded state of `key`, or the idle state for a key never seen.
pub open spec fn state_of(m: Map<u32, KeyInfo>, key: u32) -> KeyInfo {
    if m.contains_key(key) {
        m[key]
    } else {
        KeyInfo::idle()
    }
}

/// The table after an event on `key`.
pub open spec fn apply_event(m: Map<u32, KeyInfo>, key: u32, state: ElementState) -> Map<
    u32,
    KeyInfo,
> {
    m.insert(key, after_event(state_of(m, key), state))
}

/// A key's state at the start of the next frame: nothing pressed or released, held
/// unchanged.
pub open spec fn next_frame(k: KeyInfo) -> KeyInfo {
    KeyInfo { pressed_this_frame: false, released_this_frame: false, held: k.held }
}

/// The table at the start of the next frame.
pub open spec fn end_frame(m: Map<u32, KeyInfo>) -> Map<u32, KeyInfo> {
    Map::new(|k: u32| m.contains_key(k), |k: u32| next_frame(m[k]))
}

/// The keyboard table after a key event: repeats and unidentified keys are ignored.
pub open spec fn after_key_event(m: Map<u32, KeyInfo>, event: KeyEvent) -> Map<u32, KeyInfo> {
    match event.physical_key {
        PhysicalKey::Code(code) => if event.repeat {
            m
        } else {
            apply_event(m, code, event.state)
        },
        PhysicalKey::Unidentified => m,
    }
}

/// Clears the per-frame flags of every entry, keeping whether it is held.
fn clear_frame_flags(map: &mut HashMap<u32, KeyInfo>)
    ensures
        final(map)@ == end_frame(old(map)@),
{
    let ghost start = map@;
    let mut keys: Vec<u32> = Vec::new();
    for k in it: map.keys()
        invariant
            it.seq().unref().to_set() == start.dom(),
            keys@ == it.seq().unref().take(it.index()),
            forall|q: u32| #[trigger] keys@.contains(q) ==> start.dom().contains(q),
            forall|q: u32|
                start.dom().contains(q) ==> #[trigger] keys@.contains(q) || exists|t: int|
                    it.index() <= t < it.seq().len() && #[trigger] it.seq().unref()[t] == q,
    {
        let ghost idx = keys@.len() as int;
        let ghost all = it.seq().unref();
        proof {
            assert(all[idx] == *k);
        }
        keys.push(*k);
        proof {
            assert forall|q: u32| start.dom().contains(q) implies #[trigger] keys@.contains(q)
                || exists|t: int| idx + 1 <= t < all.len() && #[trigger] all[t] == q by {
                if !keys@.contains(q) {
                    assert(!keys@.drop_last().contains(q)) by {
                        if keys@.drop_last().contains(q) {
                            let t = choose|t: int| 0 <= t < keys@.drop_last().len() && #[trigger] keys@.drop_last()[t] == q;
                            assert(keys@[t] == q);
                        }
                    }
                    assert(keys@.drop_last() =~= all.take(idx));
                    let t = choose|t: int| idx <= t < all.len() && #[trigger] all[t] == q;
                    if t == idx {
                        assert(keys@[idx] == q);
                    } else {
                        assert(all[t] == q);
                    }
                }
            }
            assert forall|q: u32| #[trigger] keys@.contains(q) implies start.dom().contains(q) by {
                let t = choose|t: int| 0 <= t < keys@.len() && #[trigger] keys@[t] == q;
                if t < idx {
                    assert(keys@.drop_last()[t] == q);
                }
            }
            assert(keys@ =~= all.take(idx + 1));
        }
    }
    assert(keys@.to_set() =~= start.dom());
    let n = keys.len();
    let mut i: usize = 0;
    while i < n
        invariant
            n == keys@.len(),
            i <= n,
            keys@.to_set() == start.dom(),
            map@.dom() == start.dom(),
            forall|k: u32|
                #[trigger] map@.contains_key(k) ==> map@[k] == (if keys@.take(i as int).contains(k) {
                    next_frame(start[k])
                } else {
                    start[k]
                }),
        decreases n - i,
    {
        let k = keys[i];
        let ghost before = map@;
        match map.get(&k) {
            Some(info) => {
                let held = info.held;
                map.insert(k, KeyInfo { pressed_this_frame: false, released_this_frame: false, held });
            },
            None => {},
        }
        proof {
            assert(keys@.to_set().contains(k));
            assert forall|j: u32| #[trigger] map@.contains_key(j) implies map@[j] == (if keys@.take(
                i + 1,
            ).contains(j) {
                next_frame(start[j])
            } else {
                start[j]
            }) by {
                if j == k {
                    assert(keys@.take(i + 1)[i as int] == k);
                } else {
                    assert(keys@.take(i + 1).contains(j) == keys@.take(i as int).contains(j)) by {
                        if keys@.take(i + 1).contains(j) {
                            let t = choose|t: int| 0 <= t < i + 1 && #[trigger] keys@.take(i + 1)[t] == j;
                            assert(keys@.take(i as int)[t] == j);
                        }
                        if keys@.take(i as int).contains(j) {
                            let t = choose|t: int| 0 <= t < i && #[trigger] keys@.take(i as int)[t] == j;
                            assert(keys@.take(i + 1)[t] == j);
                        }
                    }
                }
            }
            assert(map@.dom() =~= start.dom());
        }
        i = i + 1;
    }
    proof {
        assert(keys@.take(n as int) =~= keys@);
        assert(map@ =~= end_frame(start));
    }
}

/// Looks up a key's state; an unknown key is idle.
fn lookup(map: &HashMap<u32, KeyInfo>, key: u32) -> (k: KeyInfo)
    ensures
        k == state_of(map@, key),
{
    match map.get(&key) {
        Some(info) => *info,
        None => KeyInfo::new(),
    }
}

/// Records a press or release of `key`.
fn record_event(map: &mut HashMap<u32, KeyInfo>, key: u32, state: ElementState)
    ensures
        final(map)@ == apply_event(old(map)@, key, state),
{
    let mut info = lookup(map, key);
    match state {
        ElementState::Pressed => {
            info.pressed_this_frame = true;
            info.held = true;
        },
        ElementState::Released => {
            info.released_this_frame = true;
            info.held = false;
        },
    }
    map.insert(key, info);
}

/// The state of the keyboard keys and mouse buttons: which are held, and which went
/// down or came up during the current frame. Keys and buttons are named by integer
/// codes.
pub struct Input {
    key_map: HashMap<u32, KeyInfo>,
    mouse_map: HashMap<u32, KeyInfo>,
}

impl Input {
    /// The recorded keys.
    pub closed spec fn keys(&self) -> Map<u32, KeyInfo> {
        self.key_map@
    }

    /// The recorded mouse buttons.
    pub closed spec fn buttons(&self) -> Map<u32, KeyInfo> {
        self.mouse_map@
    }

    pub fn new() -> (input: Self)
        ensures
            input.keys() == Map::<u32, KeyInfo>::empty(),
            input.buttons() == Map::<u32, KeyInfo>::empty(),
    {
        Input { key_map: HashMap::new(), mouse_map: HashMap::new() }
    }

    /// Ends the frame: no key or button counts as pressed or released this frame any
    /// more; held ones stay held.
    pub fn end_update(&mut self)
        ensures
            final(self).keys() == end_frame(old(self).keys()),
            final(self).buttons() == end_frame(old(self).buttons()),
    {
        clear_frame_flags(&mut self.key_map);
        clear_frame_flags(&mut self.mouse_map);
    }

    /// Records a keyboard event; repeats and unidentified keys are ignored.
    pub fn handle_key_event(&mut self, event: KeyEvent)
        ensures
            final(self).keys() == after_key_event(old(self).keys(), event),
            final(self).buttons() == old(self).buttons(),
    {
        if event.repeat {
            return ;
        }
        match event.physical_key {
            PhysicalKey::Code(code) => {
                record_event(&mut self.key_map, code, event.state);
            },
            _ => {},
        }
    }

    /// Whether the key is held down.
    pub fn get_key(&self, key: u32) -> (r: bool)
        ensures
            r == state_of(self.keys(), key).held,
    {
        lookup(&self.key_map, key).held
    }

    /// Whether the key went down during this frame.
    pub fn get_key_down(&self, key: u32) -> (r: bool)
        ensures
            r == state_of(self.keys(), key).pressed_this_frame,
    {
        lookup(&self.key_map, key).pressed_this_frame
    }

    /// Whether the key came up during this frame.
    pub fn get_key_up(&self, key: u32) -> (r: bool)
        ensures
            r == state_of(self.keys(), key).released_this_frame,
    {
        lookup(&self.key_map, key).released_this_frame
    }

    /// Records a press or release of a mouse button.
    pub fn handle_mouse_event(&mut self, state: ElementState, button: u32)
        ensures
            final(self).buttons() == apply_event(old(self).buttons(), button, state),
            final(self).keys() == old(self).keys(),
    {
        record_event(&mut self.mouse_map, button, state);
    }

    /// Whether the mouse button is held down.
    pub fn get_mouse_button(&self, button: u32) -> (r: bool)
        ensures
            r == state_of(self.buttons(), button).held,
    {
        lookup(&self.mouse_map, button).held
    }

    /// Whether the mouse button went down during this frame.
    pub fn get_mouse_button_down(&self, button: u32) -> (r: bool)
        ensures
            r == state_of(self.buttons(), button).pressed_this_frame,
    {
        lookup(&self.mouse_map, button).pressed_this_frame
    }

    /// Whether the mouse button came up during this frame.
    pub fn get_mouse_up(&self, button: u32) -> (r: bool)
        ensures
            r == state_of(self.buttons(), button).released_this_frame,
    {
        lookup(&self.mouse_map, button).released_this_frame
    }
}

/// After a press of a key, the key is held and counts as pressed this frame; after a
/// release, it is not held and counts as released this frame.
pub proof fn lemma_press_release(m: Map<u32, KeyInfo>, key: u32)
    ensures
        state_of(apply_event(m, key, ElementState::Pressed), key).held,
        state_of(apply_event(m, key, ElementState::Pressed), key).pressed_this_frame,
        !state_of(apply_event(m, key, ElementState::Released), key).held,
        state_of(apply_event(m, key, ElementState::Released), key).released_this_frame,
{
}

/// A press and a release of a key within one frame leave it not held, but counted as
/// both pressed and released this frame.
pub proof fn lemma_tap_in_one_frame(m: Map<u32, KeyInfo>, key: u32)
    ensures
        ({
            let k = state_of(
                apply_event(apply_event(m, key, ElementState::Pressed), key, ElementState::Released),
                key,
            );
            &&& !k.held
            &&& k.pressed_this_frame
            &&& k.released_this_frame
        }),
{
}

/// An event on one key leaves every other key as it was.
pub proof fn lemma_event_is_local(m: Map<u32, KeyInfo>, key: u32, other: u32, state: ElementState)
    requires
        other != key,
    ensures
        state_of(apply_event(m, key, state), other) == state_of(m, other),
{
}

/// Ending a frame clears every key's pressed and released flags and keeps whether it
/// is held; keys never seen stay idle.
pub proof fn lemma_end_frame_state(m: Map<u32, KeyInfo>, key: u32)
    ensures
        state_of(end_frame(m), key) == next_frame(state_of(m, key)),
        !state_of(end_frame(m), key).pressed_this_frame,
        !state_of(end_frame(m), key).released_this_frame,
        state_of(end_frame(m), key).held == state_of(m, key).held,
{
}

/// Ending a frame twice is the same as ending it once.
pub proof fn lemma_end_frame_idempotent(m: Map<u32, KeyInfo>)
    ensures
        end_frame(end_frame(m)) == end_frame(m),
{
    assert(end_frame(end_frame(m)) =~= end_frame(m));
}

/// Repeated key events and events for unidentified keys change nothing.
pub proof fn lemma_ignored_key_events(m: Map<u32, KeyInfo>, event: KeyEvent)
    requires
        event.repeat || event.physical_key == PhysicalKey::Unidentified,
    ensures
        after_key_event(m, event) == m,
{
}

/// A held key stays held across frames until it is released.
pub proof fn lemma_held_across_frames(m: Map<u32, KeyInfo>, key: u32)
    ensures
        state_of(end_frame(apply_event(m, key, ElementState::Pressed)), key).held,
        !state_of(end_frame(apply_event(m, key, ElementState::Pressed)), key).pressed_this_frame,
{
}

/// The keyboard table after a sequence of steps from table `m`: each step is a key
/// event, or `None` for the end of a frame.
pub open spec fn replay_keys(m: Map<u32, KeyInfo>, steps: Seq<Option<KeyEvent>>) -> Map<
    u32,
    KeyInfo,
>
    decreases steps.len(),
{
    if steps.len() == 0 {
        m
    } else {
        let before = replay_keys(m, steps.drop_last());
        match steps.last() {
            None => end_frame(before),
            Some(event) => after_key_event(before, event),
        }
    }
}

/// Step `s` is a key event that counts for `key`: about that key code, and no repeat.
pub open spec fn counts_for(s: Option<KeyEvent>, key: u32) -> bool {
    match s {
        Some(event) => !event.repeat && event.physical_key == PhysicalKey::Code(key),
        None => false,
    }
}

/// Step `i` of `steps` is a counted event of `key` with the given state.
pub open spec fn counted_as(steps: Seq<Option<KeyEvent>>, i: int, key: u32, state: ElementState) -> bool {
    counts_for(steps[i], key) && steps[i]->0.state == state
}

/// Starting from no recorded key, after any sequence of key events and frame ends a key
/// is held exactly when some counted event of it occurred and the last one was a press;
/// it counts as pressed (released) this frame exactly when a counted press (release) of
/// it occurred since the last frame end.
pub proof fn lemma_replay_keys(steps: Seq<Option<KeyEvent>>, key: u32)
    ensures
        state_of(replay_keys(Map::empty(), steps), key).held <==> exists|i: int|
            0 <= i < steps.len() && #[trigger] counted_as(steps, i, key, ElementState::Pressed)
                && forall|j: int| i < j < steps.len() ==> !counts_for(#[trigger] steps[j], key),
        state_of(replay_keys(Map::empty(), steps), key).pressed_this_frame <==> exists|i: int|
            0 <= i < steps.len() && #[trigger] counted_as(steps, i, key, ElementState::Pressed)
                && forall|j: int| i < j < steps.len() ==> (#[trigger] steps[j]) is Some,
        state_of(replay_keys(Map::empty(), steps), key).released_this_frame <==> exists|i: int|
            0 <= i < steps.len() && #[trigger] counted_as(steps, i, key, ElementState::Released)
                && forall|j: int| i < j < steps.len() ==> (#[trigger] steps[j]) is Some,
    decreases steps.len(),
{
    if steps.len() > 0 {
        let s = steps.drop_last();
        let n = steps.len() - 1;
        lemma_replay_keys(s, key);
        assert(forall|i: int| 0 <= i < n ==> #[trigger] steps[i] == s[i]);
        assert(forall|i: int| 0 <= i < n ==> (#[trigger] counted_as(steps, i, key, ElementState::Pressed)) == counted_as(s, i, key, ElementState::Pressed));
        assert(forall|i: int| 0 <= i < n ==> (#[trigger] counted_as(steps, i, key, ElementState::Released)) == counted_as(s, i, key, ElementState::Released));
        let prev = state_of(replay_keys(Map::empty(), s), key);
        let now = state_of(replay_keys(Map::empty(), steps), key);
        if counts_for(steps[n], key) {
            let st = steps[n]->0.state;
            assert(now == after_event(prev, st));
            if st == ElementState::Pressed {
                assert(counted_as(steps, n, key, ElementState::Pressed));
                if now.released_this_frame {
                    let i = choose|i: int|
                        0 <= i < n && #[trigger] counted_as(s, i, key, ElementState::Released)
                            && forall|j: int| i < j < n ==> (#[trigger] s[j]) is Some;
                    assert(counted_as(steps, i, key, ElementState::Released));
                }
                if exists|i: int|
                    0 <= i < steps.len() && #[trigger] counted_as(steps, i, key, ElementState::Released)
                        && forall|j: int| i < j < steps.len() ==> (#[trigger] steps[j]) is Some {
                    let i = choose|i: int|
                        0 <= i < steps.len() && #[trigger] counted_as(steps, i, key, ElementState::Released)
                            && forall|j: int| i < j < steps.len() ==> (#[trigger] steps[j]) is Some;
                    assert(i < n);
                    assert(counted_as(s, i, key, ElementState::Released));
                    assert forall|j: int| i < j < n implies (#[trigger] s[j]) is Some by {
                        assert(steps[j] is Some);
                    }
                }
            } else {
                assert(counted_as(steps, n, key, ElementState::Released));
                if now.pressed_this_frame {
                    let i = choose|i: int|
                        0 <= i < n && #[trigger] counted_as(s, i, key, ElementState::Pressed)
                            && forall|j: int| i < j < n ==> (#[trigger] s[j]) is Some;
                    assert(counted_as(steps, i, key, ElementState::Pressed));
                }
                if exists|i: int|
                    0 <= i < steps.len() && #[trigger] counted_as(steps, i, key, ElementState::Pressed)
                        && forall|j: int| i < j < steps.len() ==> (#[trigger] steps[j]) is Some {
                    let i = choose|i: int|
                        0 <= i < steps.len() && #[trigger] counted_as(steps, i, key, ElementState::Pressed)
                            && forall|j: int| i < j < steps.len() ==> (#[trigger] steps[j]) is Some;
                    assert(i < n);
                    assert(counted_as(s, i, key, ElementState::Pressed));
                    assert forall|j: int| i < j < n implies (#[trigger] s[j]) is Some by {
                        assert(steps[j] is Some);
                    }
                }
                if exists|i: int|
                    0 <= i < steps.len() && #[trigger] counted_as(steps, i, key, ElementState::Pressed)
                        && forall|j: int| i < j < steps.len() ==> !counts_for(#[trigger] steps[j], key) {
                    let i = choose|i: int|
                        0 <= i < steps.len() && #[trigger] counted_as(steps, i, key, ElementState::Pressed)
                            && forall|j: int| i < j < steps.len() ==> !counts_for(#[trigger] steps[j], key);
                    assert(!counts_for(steps[n], key));
                }
            }
        } else {
            assert(now.held == prev.held && (steps[n] is Some ==> now == prev)) by {
                match steps[n] {
                    None => {
                        lemma_end_frame_state(replay_keys(Map::empty(), s), key);
                    },
                    Some(event) => {
                        match event.physical_key {
                            PhysicalKey::Code(code) => {
                                if !event.repeat {
                                    assert(code != key);
                                    lemma_event_is_local(replay_keys(Map::empty(), s), code, key, event.state);
                                }
                            },
                            PhysicalKey::Unidentified => {},
                        }
                    },
                }
            }
            // the last step leaves the key's history unchanged, so whether it was last
            // pressed is the same as before the step
            if exists|i: int|
                0 <= i < n && #[trigger] counted_as(s, i, key, ElementState::Pressed)
                    && forall|j: int| i < j < n ==> !counts_for(#[trigger] s[j], key) {
                let i = choose|i: int|
                    0 <= i < n && #[trigger] counted_as(s, i, key, ElementState::Pressed)
                        && forall|j: int| i < j < n ==> !counts_for(#[trigger] s[j], key);
                assert(counted_as(steps, i, key, ElementState::Pressed));
                assert forall|j: int| i < j < steps.len() implies !counts_for(#[trigger] steps[j], key) by {
                    if j < n {
                        assert(!counts_for(s[j], key));
                    }
                }
            }
            if exists|i: int|
                0 <= i < steps.len() && #[trigger] counted_as(steps, i, key, ElementState::Pressed)
                    && forall|j: int| i < j < steps.len() ==> !counts_for(#[trigger] steps[j], key) {
                let i = choose|i: int|
                    0 <= i < steps.len() && #[trigger] counted_as(steps, i, key, ElementState::Pressed)
                        && forall|j: int| i < j < steps.len() ==> !counts_for(#[trigger] steps[j], key);
                assert(i < n);
                assert(counted_as(s, i, key, ElementState::Pressed));
                assert forall|j: int| i < j < n implies !counts_for(#[trigger] s[j], key) by {
                    assert(!counts_for(steps[j], key));
                }
            }
            match steps[n] {
                None => {
                    assert(!now.pressed_this_frame && !now.released_this_frame);
                    if exists|i: int|
                        0 <= i < steps.len() && #[trigger] counted_as(steps, i, key, ElementState::Pressed)
                            && forall|j: int| i < j < steps.len() ==> (#[trigger] steps[j]) is Some {
                        let i = choose|i: int|
                            0 <= i < steps.len() && #[trigger] counted_as(steps, i, key, ElementState::Pressed)
                                && forall|j: int| i < j < steps.len() ==> (#[trigger] steps[j]) is Some;
                        assert(steps[n] is Some);
                    }
                    if exists|i: int|
                        0 <= i < steps.len() && #[trigger] counted_as(steps, i, key, ElementState::Released)
                            && forall|j: int| i < j < steps.len() ==> (#[trigger] steps[j]) is Some {
                        let i = choose|i: int|
                            0 <= i < steps.len() && #[trigger] counted_as(steps, i, key, ElementState::Released)
                                && forall|j: int| i < j < steps.len() ==> (#[trigger] steps[j]) is Some;
                        assert(steps[n] is Some);
                    }
                },
                Some(_) => {
                    if now.pressed_this_frame {
                        let i = choose|i: int|
                            0 <= i < n && #[trigger] counted_as(s, i, key, ElementState::Pressed)
                                && forall|j: int| i < j < n ==> (#[trigger] s[j]) is Some;
                        assert(counted_as(steps, i, key, ElementState::Pressed));
                        assert forall|j: int| i < j < steps.len() implies (#[trigger] steps[j]) is Some by {
                            if j < n {
                                assert(s[j] is Some);
                            }
                        }
                    }
                    if exists|i: int|
                        0 <= i < steps.len() && #[trigger] counted_as(steps, i, key, ElementState::Pressed)
                            && forall|j: int| i < j < steps.len() ==> (#[trigger] steps[j]) is Some {
                        let i = choose|i: int|
                            0 <= i < steps.len() && #[trigger] counted_as(steps, i, key, ElementState::Pressed)
                                && forall|j: int| i < j < steps.len() ==> (#[trigger] steps[j]) is Some;
                        assert(i < n);
                        assert(counted_as(s, i, key, ElementState::Pressed));
                        assert forall|j: int| i < j < n implies (#[trigger] s[j]) is Some by {
                            assert(steps[j] is Some);
                        }
                    }
                    if now.released_this_frame {
                        let i = choose|i: int|
                            0 <= i < n && #[trigger] counted_as(s, i, key, ElementState::Released)
                                && forall|j: int| i < j < n ==> (#[trigger] s[j]) is Some;
                        assert(counted_as(steps, i, key, ElementState::Released));
                        assert forall|j: int| i < j < steps.len() implies (#[trigger] steps[j]) is Some by {
                            if j < n {
                                assert(s[j] is Some);
                            }
                        }
                    }
                    if exists|i: int|
                        0 <= i < steps.len() && #[trigger] counted_as(steps, i, key, ElementState::Released)
                            && forall|j: int| i < j < steps.len() ==> (#[trigger] steps[j]) is Some {
                        let i = choose|i: int|
                            0 <= i < steps.len() && #[trigger] counted_as(steps, i, key, ElementState::Released)
                                && forall|j: int| i < j < steps.len() ==> (#[trigger] steps[j]) is Some;
                        assert(i < n);
                        assert(counted_as(s, i, key, ElementState::Released));
                        assert forall|j: int| i < j < n implies (#[trigger] s[j]) is Some by {
                            assert(steps[j] is Some);
                        }
                    }
                },
            }
        }
    }
}

/// A mouse button event changes the button table as a key event of the button's code,
/// never a repeat, changes the key table; so what `lemma_replay_keys` says of keys holds
/// of buttons too.
pub proof fn lemma_button_event_as_key_event(m: Map<u32, KeyInfo>, button: u32, state: ElementState)
    ensures
        apply_event(m, button, state) == after_key_event(
            m,
            KeyEvent { physical_key: PhysicalKey::Code(button), state, repeat: false },
        ),
{
}

} // verus!
