//! The engine's decisions on each key press, apart from the keyboard, the
//! clock and the overlay window, which the caller drives.
use crate::config::{
    accept_key_of, is_modifier_key, is_named_key, key_string, law_rebind_roundtrip, parse_accept_key,
    vk_to_name, VK_LCONTROL,
    VK_LMENU, VK_LSHIFT, VK_RCONTROL, VK_RMENU, VK_RSHIFT, VK_TAB,
};
use crate::input::{KeyEvent, Modifiers};
use crate::ngram_cache::opt_view;
use crate::state::AppState;
use crate::suggest::finalize_buffer;
use crate::text::{byte_len, chars_of, has_min_bytes, lowercase, push_char, string_of, to_lowercase};
use vstd::prelude::*;

verus! {

/// Most characters kept of the typed text.
pub const MAX_BUFFER_CHARS: usize = 200;

/// Whether the press of `event_vk` accepts the suggestion under `binding`
/// `(key code, needs Ctrl, needs Shift, needs Alt)` with modifiers `m` held.
/// A lone left or right Ctrl, Alt or Shift binding fires on its own code.
/// Otherwise the code must match and every required modifier be held; when
/// none is required, a held Ctrl or Alt blocks every key but Tab.
pub open spec fn accepts(event_vk: u32, binding: (u32, bool, bool, bool), m: Modifiers) -> bool {
    let (vk, need_ctrl, need_shift, need_alt) = binding;
    if vk == VK_LCONTROL || vk == VK_RCONTROL || vk == VK_LMENU || vk == VK_RMENU || vk
        == VK_LSHIFT || vk == VK_RSHIFT {
        event_vk == vk
    } else if event_vk != vk {
        false
    } else if (need_ctrl && !m.ctrl) || (need_shift && !m.shift) || (need_alt && !m.alt) {
        false
    } else if !need_ctrl && !need_shift && !need_alt {
        vk == VK_TAB || !(m.ctrl || m.alt)
    } else {
        true
    }
}

/// Whether `event` accepts the suggestion under the accept-key setting.
pub fn is_accept_key(event: &KeyEvent, accept_key: &str, mods: Modifiers) -> (r: bool)
    ensures
        r == accepts(event.vk_code, accept_key_of(accept_key@), mods),
        r ==> event.vk_code == accept_key_of(accept_key@).0,
        r && !is_solo_modifier(accept_key_of(accept_key@).0) ==> {
            &&& accept_key_of(accept_key@).1 ==> mods.ctrl
            &&& accept_key_of(accept_key@).2 ==> mods.shift
            &&& accept_key_of(accept_key@).3 ==> mods.alt
        },
{
    proof {
        law_accept_needs_key_and_modifiers(event.vk_code, accept_key_of(accept_key@), mods);
    }
    let (vk, need_ctrl, need_shift, need_alt) = parse_accept_key(accept_key);
    if vk == VK_LCONTROL || vk == VK_RCONTROL || vk == VK_LMENU || vk == VK_RMENU || vk
        == VK_LSHIFT || vk == VK_RSHIFT {
        return event.vk_code == vk;
    }
    if event.vk_code != vk {
        return false;
    }
    if need_ctrl && !mods.ctrl {
        return false;
    }
    if need_shift && !mods.shift {
        return false;
    }
    if need_alt && !mods.alt {
        return false;
    }
    if !need_ctrl && !need_shift && !need_alt {
        if vk == VK_TAB {
            return true;
        }
        if mods.ctrl || mods.alt {
            return false;
        }
    }
    true
}

/// The text of the binding a key press makes while a new accept key is
/// being captured; modifier keys alone make none.
pub open spec fn captured_binding(vk: u32, m: Modifiers) -> Option<Seq<char>> {
    if is_modifier_key_spec(vk) {
        None
    } else {
        Some(key_string(vk, m.ctrl, m.shift, m.alt))
    }
}

/// The Ctrl, Shift, Alt and Windows keys.
pub open spec fn is_modifier_key_spec(vk: u32) -> bool {
    vk == 0x11 || vk == 0xA2 || vk == 0xA3 || vk == 0x10 || vk == 0xA0 || vk == 0xA1 || vk == 0x12
        || vk == 0xA4 || vk == 0xA5 || vk == 0x5B || vk == 0x5C
}

/// The binding text for a captured key press, or `None` for a modifier key.
pub fn capture_binding(vk: u32, mods: Modifiers) -> (r: Option<String>)
    ensures
        opt_view(r) == captured_binding(vk, mods),
        r is Some <==> !is_modifier_key_spec(vk),
        is_named_key(vk) ==> (r matches Some(b) ==> accept_key_of(b@) == (
            vk,
            mods.ctrl,
            mods.shift,
            mods.alt,
        )),
{
    proof {
        if is_named_key(vk) && !is_modifier_key_spec(vk) {
            law_captured_binding_reads_back(vk, mods);
        }
    }
    if is_modifier_key(vk) {
        None
    } else {
        Some(build_key_string_with(vk, mods))
    }
}

/// The text of the binding of `vk` with modifiers `mods` held, such as
/// `Ctrl+Space` (the modifiers are read by the caller).
pub fn build_key_string_with(vk: u32, mods: Modifiers) -> (s: String)
    ensures
        s@ == key_string(vk, mods.ctrl, mods.shift, mods.alt),
{
    crate::config::build_key_string(vk, mods.ctrl, mods.shift, mods.alt)
}

/// `c` is a control character (Unicode category Cc), as
/// `char::is_control` answers.
pub open spec fn is_control(c: char) -> bool {
    (c as u32) <= 0x1F || (0x7F <= (c as u32) && (c as u32) <= 0x9F)
}

/// The typed text cut to its last 200 characters when it takes more than
/// 200 bytes.
pub open spec fn bounded_buffer(b: Seq<char>) -> Seq<char> {
    if byte_len(b) > MAX_BUFFER_CHARS {
        if b.len() > MAX_BUFFER_CHARS {
            b.skip(b.len() - MAX_BUFFER_CHARS)
        } else {
            b
        }
    } else {
        b
    }
}

/// After any edit the typed text holds at most 200 characters, and it is
/// the end of the text before the cut.
pub proof fn law_buffer_bounded(b: Seq<char>)
    ensures
        bounded_buffer(b).len() <= MAX_BUFFER_CHARS,
        bounded_buffer(b).is_suffix_of(b),
{
    crate::text::lemma_byte_len_ge_len(b);
    assert(b.skip(0) =~= b);
    if byte_len(b) > MAX_BUFFER_CHARS && b.len() > MAX_BUFFER_CHARS {
        assert(b.skip(b.len() - MAX_BUFFER_CHARS) =~= b.subrange(
            b.len() - MAX_BUFFER_CHARS,
            b.len() as int,
        ));
    } else {
        assert(b =~= b.subrange(0, b.len() as int));
    }
}

/// While the text stays within 200 bytes, Backspace takes back the
/// character just typed.
pub proof fn law_backspace_undoes_typing(b: Seq<char>, c: char)
    requires
        byte_len(b.push(c)) <= MAX_BUFFER_CHARS,
    ensures
        bounded_buffer(b.push(c)) == b.push(c),
        bounded_buffer(
            if bounded_buffer(b.push(c)).len() > 0 {
                bounded_buffer(b.push(c)).drop_last()
            } else {
                bounded_buffer(b.push(c))
            },
        ) == b,
{
    crate::text::lemma_byte_len_push(b, c);
    assert(b.push(c).drop_last() =~= b);
}

/// A left or right Ctrl, Alt or Shift key code, which can be bound alone.
pub open spec fn is_solo_modifier(vk: u32) -> bool {
    vk == VK_LCONTROL || vk == VK_RCONTROL || vk == VK_LMENU || vk == VK_RMENU || vk == VK_LSHIFT
        || vk == VK_RSHIFT
}

/// A key press accepts only on the bound key, and, unless the binding is a
/// lone left or right modifier key, only with every modifier the binding
/// names held down.
pub proof fn law_accept_needs_key_and_modifiers(
    event_vk: u32,
    binding: (u32, bool, bool, bool),
    m: Modifiers,
)
    ensures
        accepts(event_vk, binding, m) ==> event_vk == binding.0,
        accepts(event_vk, binding, m) && !is_solo_modifier(binding.0) ==> {
            &&& binding.1 ==> m.ctrl
            &&& binding.2 ==> m.shift
            &&& binding.3 ==> m.alt
        },
{
}

/// The accept key written as a binding text, such as `Alt+X`, accepts only
/// a press of that key with those modifiers held.
pub proof fn law_bound_text_needs_its_modifiers(
    event_vk: u32,
    vk: u32,
    ctrl: bool,
    shift: bool,
    alt: bool,
    m: Modifiers,
)
    requires
        is_named_key(vk),
        !is_solo_modifier(vk),
    ensures
        accepts(event_vk, accept_key_of(key_string(vk, ctrl, shift, alt)), m) ==> {
            &&& event_vk == vk
            &&& ctrl ==> m.ctrl
            &&& shift ==> m.shift
            &&& alt ==> m.alt
        },
{
    law_rebind_roundtrip(vk, ctrl, shift, alt);
    law_accept_needs_key_and_modifiers(event_vk, accept_key_of(key_string(vk, ctrl, shift, alt)), m);
}

/// A key press captured as the new accept key reads back as that key with
/// exactly the modifiers that were held.
pub proof fn law_captured_binding_reads_back(vk: u32, m: Modifiers)
    requires
        is_named_key(vk),
        !is_modifier_key_spec(vk),
    ensures
        captured_binding(vk, m) matches Some(b) && accept_key_of(b) == (vk, m.ctrl, m.shift, m.alt),
{
    law_rebind_roundtrip(vk, m.ctrl, m.shift, m.alt);
}

/// Every character outside the control characters (Unicode category Cc:
/// U+0000 to U+001F and U+007F to U+009F) is typed, letters such as `é`,
/// `ß` or `ж` included.
pub proof fn law_only_control_characters_are_dropped(c: char)
    ensures
        (0x20 <= (c as u32) < 0x7F || (c as u32) >= 0xA0) ==> !is_control(c),
        is_control(c) ==> (c as u32) < 0x20 || 0x7F <= (c as u32) <= 0x9F,
{
}

/// What the caller does after a key press.
pub enum KeyStep {
    /// Types this text into the focused window, then hides the overlay.
    Accept(String),
    /// Hides the overlay.
    Hide,
    /// The typed text changed: refresh the suggestion (after the debounce).
    Edited,
    /// Asks for the character the key produces, for `type_char`.
    NeedChar,
    /// Nothing.
    Ignore,
}

/// Keeps the last 200 characters of the typed text when it takes more than
/// 200 bytes.
pub fn bound_buffer(state: &mut AppState)
    ensures
        final(state).typed_buffer@ == bounded_buffer(old(state).typed_buffer@),
        final(state).current_full == old(state).current_full,
        final(state).current_suffix == old(state).current_suffix,
        final(state).engine_running == old(state).engine_running,
        final(state).overlay_visible == old(state).overlay_visible,
        final(state).last_auto_completed == old(state).last_auto_completed,
{
    if has_min_bytes(state.typed_buffer.as_str(), MAX_BUFFER_CHARS + 1) {
        let cs = chars_of(state.typed_buffer.as_str());
        if cs.len() > MAX_BUFFER_CHARS {
            let start = cs.len() - MAX_BUFFER_CHARS;
            let mut tail: Vec<char> = Vec::new();
            let mut i: usize = start;
            while i < cs.len()
                invariant
                    start <= i <= cs@.len(),
                    tail@ == cs@.subrange(start as int, i as int),
                decreases cs@.len() - i,
            {
                tail.push(cs[i]);
                i = i + 1;
                proof {
                    assert(tail@ =~= cs@.subrange(start as int, i as int));
                }
            }
            proof {
                assert(tail@ =~= cs@.skip(start as int));
            }
            state.typed_buffer = string_of(tail.as_slice());
        }
    }
}

/// Handles a key press up to the point where the produced character or the
/// clock is needed. Accepting types the rest of the suggested word and adds
/// it to the typed text; Backspace drops the last character; Enter forgets
/// the text; Escape drops the suggestion; Space adds a space.
pub fn handle_key(state: &mut AppState, event: &KeyEvent, accept_key: &str, mods: Modifiers) -> (step:
    KeyStep)
    ensures
        final(state).engine_running == old(state).engine_running,
        final(state).overlay_visible == old(state).overlay_visible,
        final(state).last_auto_completed == old(state).last_auto_completed,
        accepts(event.vk_code, accept_key_of(accept_key@), mods) ==> match old(state).current_suffix {
            Some(s) => step == KeyStep::Accept(s) && final(state).typed_buffer@ == old(
                state,
            ).typed_buffer@ + s@ && final(state).current_full is None
                && final(state).current_suffix is None,
            None => step == KeyStep::Ignore && *final(state) == *old(state),
        },
        !accepts(event.vk_code, accept_key_of(accept_key@), mods) ==> {
            if event.vk_code == 0x08 {
                &&& step == KeyStep::Edited
                &&& final(state).typed_buffer@ == bounded_buffer(
                    if old(state).typed_buffer@.len() > 0 {
                        old(state).typed_buffer@.drop_last()
                    } else {
                        old(state).typed_buffer@
                    },
                )
                &&& final(state).current_full == old(state).current_full
                &&& final(state).current_suffix == old(state).current_suffix
            } else if event.vk_code == 0x0D {
                &&& step == KeyStep::Hide
                &&& final(state).typed_buffer@.len() == 0
                &&& final(state).current_full is None
                &&& final(state).current_suffix is None
            } else if event.vk_code == 0x1B {
                &&& step == KeyStep::Hide
                &&& final(state).typed_buffer == old(state).typed_buffer
                &&& final(state).current_full is None
                &&& final(state).current_suffix is None
            } else if event.vk_code == 0x20 {
                &&& step == KeyStep::Edited
                &&& final(state).typed_buffer@ == bounded_buffer(
                    old(state).typed_buffer@.push(' '),
                )
                &&& final(state).current_full == old(state).current_full
                &&& final(state).current_suffix == old(state).current_suffix
            } else {
                step == KeyStep::NeedChar && *final(state) == *old(state)
            }
        },
{
    if is_accept_key(event, accept_key, mods) {
        match state.current_suffix.clone() {
            Some(suffix) => {
                let mut cs = chars_of(state.typed_buffer.as_str());
                let sc = chars_of(suffix.as_str());
                let mut i: usize = 0;
                let ghost base = cs@;
                while i < sc.len()
                    invariant
                        i <= sc@.len(),
                        cs@ == base + sc@.take(i as int),
                    decreases sc@.len() - i,
                {
                    cs.push(sc[i]);
                    i = i + 1;
                    proof {
                        assert(cs@ =~= base + sc@.take(i as int));
                    }
                }
                proof {
                    assert(sc@.take(sc@.len() as int) =~= sc@);
                }
                state.typed_buffer = string_of(cs.as_slice());
                state.clear_suggestion();
                return KeyStep::Accept(suffix);
            },
            None => {
                return KeyStep::Ignore;
            },
        }
    }
    if event.vk_code == 0x08 {
        let cs = chars_of(state.typed_buffer.as_str());
        if cs.len() > 0 {
            let mut kept: Vec<char> = Vec::new();
            let mut i: usize = 0;
            while i < cs.len() - 1
                invariant
                    cs@.len() > 0,
                    i + 1 <= cs@.len(),
                    kept@ == cs@.take(i as int),
                decreases cs@.len() - i,
            {
                kept.push(cs[i]);
                i = i + 1;
                proof {
                    assert(kept@ =~= cs@.take(i as int));
                }
            }
            proof {
                assert(kept@ =~= cs@.drop_last());
            }
            state.typed_buffer = string_of(kept.as_slice());
        }
        bound_buffer(state);
        KeyStep::Edited
    } else if event.vk_code == 0x0D {
        finalize_buffer(state);
        KeyStep::Hide
    } else if event.vk_code == 0x1B {
        state.clear_suggestion();
        KeyStep::Hide
    } else if event.vk_code == 0x20 {
        push_char(&mut state.typed_buffer, ' ');
        bound_buffer(state);
        KeyStep::Edited
    } else {
        KeyStep::NeedChar
    }
}

/// Adds the character a key produced to the typed text; nothing for no
/// character or a control character. Whether the text changed.
pub fn type_char(state: &mut AppState, ch: Option<char>) -> (edited: bool)
    ensures
        edited == (ch matches Some(c) && !is_control(c)),
        ch matches Some(c) && (0x20 <= (c as u32) < 0x7F || (c as u32) >= 0xA0) ==> edited,
        edited ==> final(state).typed_buffer@ == bounded_buffer(
            old(state).typed_buffer@.push(ch->0),
        ),
        !edited ==> *final(state) == *old(state),
        final(state).current_full == old(state).current_full,
        final(state).current_suffix == old(state).current_suffix,
        final(state).engine_running == old(state).engine_running,
        final(state).overlay_visible == old(state).overlay_visible,
        final(state).last_auto_completed == old(state).last_auto_completed,
{
    match ch {
        Some(c) => {
            let u = c as u32;
            if u <= 0x1F || (0x7F <= u && u <= 0x9F) {
                return false;
            }
            push_char(&mut state.typed_buffer, c);
            bound_buffer(state);
            true
        },
        None => false,
    }
}

/// What the overlay shows after a refresh.
pub enum OverlayUpdate {
    /// Leaves the overlay as it is.
    Unchanged,
    /// Shows this text.
    Show(String),
    /// Hides the overlay.
    Hide,
}

/// The overlay's update for the current suggestion: nothing while the
/// overlay is off, else the rest of the suggested word or hiding.
pub fn overlay_update(state: &AppState) -> (u: OverlayUpdate)
    ensures
        !state.overlay_visible ==> u == OverlayUpdate::Unchanged,
        state.overlay_visible ==> match state.current_suffix {
            Some(s) => u == OverlayUpdate::Show(s),
            None => u == OverlayUpdate::Hide,
        },
{
    if state.overlay_visible {
        match &state.current_suffix {
            Some(s) => OverlayUpdate::Show(s.clone()),
            None => OverlayUpdate::Hide,
        }
    } else {
        OverlayUpdate::Unchanged
    }
}

/// `needle` occurs in `hay`.
pub open spec fn occurs_in(needle: Seq<char>, hay: Seq<char>) -> bool {
    exists|i: int| 0 <= i <= hay.len() - needle.len() && #[trigger] hay.subrange(i, i + needle.len()) == needle
}

fn occurs_in_exec(needle: &Vec<char>, hay: &Vec<char>) -> (r: bool)
    ensures
        r == occurs_in(needle@, hay@),
{
    if needle.len() > hay.len() {
        return false;
    }
    let last = hay.len() - needle.len();
    let mut i: usize = 0;
    loop
        invariant
            hay@.len() <= usize::MAX,
            needle@.len() <= hay@.len(),
            last == hay@.len() - needle@.len(),
            i <= last,
            forall|j: int| 0 <= j < i ==> #[trigger] hay@.subrange(j, j + needle@.len()) != needle@,
        decreases last + 1 - i,
    {
        let mut k: usize = 0;
        let mut same = true;
        while k < needle.len()
            invariant
                i <= last,
                hay@.len() <= usize::MAX,
                needle@.len() <= hay@.len(),
                last == hay@.len() - needle@.len(),
                k <= needle@.len(),
                same == forall|t: int| 0 <= t < k ==> hay@[i + t] == needle@[t],
            decreases needle@.len() - k,
        {
            if hay[i + k] != needle[k] {
                same = false;
            }
            k = k + 1;
        }
        if same {
            proof {
                assert(hay@.subrange(i as int, i + needle@.len()) =~= needle@);
            }
            return true;
        }
        proof {
            let t = choose|t: int| 0 <= t < needle@.len() && hay@[i + t] != needle@[t];
            assert(hay@.subrange(i as int, i + needle@.len())[t] != needle@[t]);
        }
        if i == last {
            return false;
        }
        i = i + 1;
    }
}

/// The focused process is one of the ignored apps: its name, lower-cased,
/// holds one of them, lower-cased.
pub open spec fn is_ignored(process: Seq<char>, apps: Seq<String>) -> bool {
    exists|i: int| 0 <= i < apps.len() && occurs_in(lowercase(apps[i]@), lowercase(process))
}

/// Whether keys typed into `process` are left alone.
pub fn is_ignored_app(process: &str, ignored_apps: &Vec<String>) -> (r: bool)
    ensures
        r == is_ignored(process@, ignored_apps@),
{
    let proc_lower = chars_of(to_lowercase(process).as_str());
    let mut i: usize = 0;
    while i < ignored_apps.len()
        invariant
            i <= ignored_apps@.len(),
            proc_lower@ == lowercase(process@),
            forall|j: int| 0 <= j < i ==> !occurs_in(lowercase(ignored_apps@[j]@), lowercase(process@)),
        decreases ignored_apps@.len() - i,
    {
        let app = chars_of(to_lowercase(ignored_apps[i].as_str()).as_str());
        if occurs_in_exec(&app, &proc_lower) {
            return true;
        }
        i = i + 1;
    }
    false
}

/// The entry added to the ignored apps for what was typed: trimmed and
/// lower-cased, or nothing when only white space was typed.
pub fn ignored_app_entry(input: &str) -> (r: Option<String>)
    ensures
        match r {
            Some(s) => crate::text::trim(input@).len() > 0 && s@ == lowercase(crate::text::trim(input@)),
            None => crate::text::trim(input@).len() == 0,
        },
{
    let t = crate::text::trim_chars(&chars_of(input));
    if t.len() == 0 {
        None
    } else {
        let ts = string_of(t.as_slice());
        Some(to_lowercase(ts.as_str()))
    }
}

} // verus!

verus! {

/// Whether the suggestion may be refreshed: at least `debounce_ms`
/// milliseconds have passed since the last refresh, given the time passed
/// in nanoseconds.
pub fn debounce_elapsed(elapsed_nanos: u128, debounce_ms: u64) -> (r: bool)
    ensures
        r == (elapsed_nanos >= debounce_ms as int * 1000000),
{
    elapsed_nanos >= (debounce_ms as u128) * 1000000
}

/// Whether a key press in the foreground process `foreground` is skipped
/// under the ignored-apps list `apps`.
pub open spec fn skips_app(foreground: Option<Seq<char>>, apps: Seq<String>) -> bool {
    apps.len() > 0 && match foreground {
        Some(p) => is_ignored(p, apps),
        None => false,
    }
}

/// Where a key press goes before the engine handles it.
pub enum KeyRoute {
    /// The press became the new accept-key binding.
    Rebound(String),
    /// The press is not handled.
    Skip,
    /// The engine handles the press.
    Handle,
}

/// Routes a key press: while a new accept key is being captured, a press of
/// a key other than a modifier becomes the binding and ends the capture;
/// otherwise a stopped engine, or a foreground process (read by the caller
/// when there are ignored apps) that is ignored, skips it.
pub fn route_key(
    rebind_mode: &mut bool,
    engine_running: bool,
    vk: u32,
    mods: Modifiers,
    foreground: Option<&str>,
    ignored_apps: &Vec<String>,
) -> (r: KeyRoute)
    ensures
        *old(rebind_mode) ==> match captured_binding(vk, mods) {
            Some(b) => (r matches KeyRoute::Rebound(name) && name@ == b) && !*final(rebind_mode),
            None => r is Skip && *final(rebind_mode),
        },
        !*old(rebind_mode) ==> {
            &&& !*final(rebind_mode)
            &&& (r is Handle) == (engine_running && !skips_app(
                match foreground {
                    Some(p) => Some(p@),
                    None => None,
                },
                ignored_apps@,
            ))
            &&& r is Handle || r is Skip
        },
{
    if *rebind_mode {
        match capture_binding(vk, mods) {
            Some(name) => {
                *rebind_mode = false;
                return KeyRoute::Rebound(name);
            },
            None => {
                return KeyRoute::Skip;
            },
        }
    }
    if !engine_running {
        return KeyRoute::Skip;
    }
    if ignored_apps.len() > 0 {
        if let Some(p) = foreground {
            if is_ignored_app(p, ignored_apps) {
                return KeyRoute::Skip;
            }
        }
    }
    KeyRoute::Handle
}

/// A command from the settings window to the engine.
pub enum EngineCommand {
    Start,
    Stop,
    /// New settings: whether the engine and the overlay are on.
    UpdateConfig { engine_enabled: bool, overlay_enabled: bool },
    RefreshCache,
    StartRebind,
}

/// What the engine does besides updating its state after a command.
pub enum EngineAction {
    Nothing,
    HideOverlay,
    /// Reloads the n-gram tables from the database.
    RefreshCache,
}

/// Applies a command: Start and Stop switch the engine (Stop also drops the
/// suggestion and hides the overlay), new settings switch engine and
/// overlay, and a rebind waits for the next key press (dropping the
/// suggestion and hiding the overlay).
pub fn apply_engine_command(state: &mut AppState, rebind_mode: &mut bool, cmd: EngineCommand) -> (a:
    EngineAction)
    ensures
        final(state).typed_buffer == old(state).typed_buffer,
        final(state).last_auto_completed == old(state).last_auto_completed,
        match cmd {
            EngineCommand::Start => {
                &&& final(state).engine_running
                &&& final(state).overlay_visible == old(state).overlay_visible
                &&& final(state).current_full == old(state).current_full
                &&& final(state).current_suffix == old(state).current_suffix
                &&& *final(rebind_mode) == *old(rebind_mode)
                &&& a == EngineAction::Nothing
            },
            EngineCommand::Stop => {
                &&& !final(state).engine_running
                &&& final(state).overlay_visible == old(state).overlay_visible
                &&& final(state).current_full is None
                &&& final(state).current_suffix is None
                &&& *final(rebind_mode) == *old(rebind_mode)
                &&& a == EngineAction::HideOverlay
            },
            EngineCommand::UpdateConfig { engine_enabled, overlay_enabled } => {
                &&& final(state).engine_running == engine_enabled
                &&& final(state).overlay_visible == overlay_enabled
                &&& final(state).current_full == old(state).current_full
                &&& final(state).current_suffix == old(state).current_suffix
                &&& *final(rebind_mode) == *old(rebind_mode)
                &&& a == EngineAction::Nothing
            },
            EngineCommand::RefreshCache => {
                &&& *final(state) == *old(state)
                &&& *final(rebind_mode) == *old(rebind_mode)
                &&& a == EngineAction::RefreshCache
            },
            EngineCommand::StartRebind => {
                &&& final(state).engine_running == old(state).engine_running
                &&& final(state).overlay_visible == old(state).overlay_visible
                &&& final(state).current_full is None
                &&& final(state).current_suffix is None
                &&& *final(rebind_mode)
                &&& a == EngineAction::HideOverlay
            },
        },
{
    match cmd {
        EngineCommand::Start => {
            state.engine_running = true;
            EngineAction::Nothing
        },
        EngineCommand::Stop => {
            state.engine_running = false;
            state.clear_suggestion();
            EngineAction::HideOverlay
        },
        EngineCommand::UpdateConfig { engine_enabled, overlay_enabled } => {
            state.engine_running = engine_enabled;
            state.overlay_visible = overlay_enabled;
            EngineAction::Nothing
        },
        EngineCommand::RefreshCache => EngineAction::RefreshCache,
        EngineCommand::StartRebind => {
            *rebind_mode = true;
            state.clear_suggestion();
            EngineAction::HideOverlay
        },
    }
}

} // verus!
