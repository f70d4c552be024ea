//! Reactions of the demo to input.

use vstd::prelude::*;

verus! {

/// A key, as far as the demo knows it.
pub enum KeyInput {
    /// A key that types a text.
    Text(String),
    ArrowUp,
    ArrowDown,
    Escape,
    Other,
}

/// What a key does.
#[derive(Clone, Copy, Debug, PartialEq, Eq, Structural)]
pub enum KeyAction {
    ZoomIn,
    ZoomOut,
    Quit,
}

/// What a typed character does.
pub open spec fn char_action(c: char) -> Option<KeyAction> {
    if c == '+' || c == '=' {
        Some(KeyAction::ZoomIn)
    } else if c == '-' || c == '_' {
        Some(KeyAction::ZoomOut)
    } else {
        None
    }
}

/// What a typed text does, character by character.
pub open spec fn text_actions(text: Seq<char>) -> Seq<KeyAction>
    decreases text.len(),
{
    if text.len() == 0 {
        Seq::empty()
    } else {
        match char_action(text.last()) {
            Some(a) => text_actions(text.drop_last()).push(a),
            None => text_actions(text.drop_last()),
        }
    }
}

/// What a key does when it goes down; nothing when it goes up.
pub open spec fn key_actions(key: KeyInput, pressed: bool) -> Seq<KeyAction> {
    if !pressed {
        Seq::empty()
    } else {
        match key {
            KeyInput::Text(text) => text_actions(text@),
            KeyInput::ArrowUp => seq![KeyAction::ZoomIn],
            KeyInput::ArrowDown => seq![KeyAction::ZoomOut],
            KeyInput::Escape => seq![KeyAction::Quit],
            KeyInput::Other => Seq::empty(),
        }
    }
}

/// Reacts to a key.
pub fn handle_key(key: &KeyInput, pressed: bool) -> (actions: Vec<KeyAction>)
    ensures
        actions@ == key_actions(*key, pressed),
{
    let mut actions: Vec<KeyAction> = Vec::new();
    if !pressed {
        return actions;
    }
    match key {
        KeyInput::Text(typed) => {
            let text: &str = typed.as_str();
            let n: usize = text.unicode_len();
            let mut i: usize = 0;
            assert(text@.take(0) =~= Seq::empty());
            while i < n
                invariant
                    n == text@.len(),
                    i <= n,
                    actions@ == text_actions(text@.take(i as int)),
                decreases n - i,
            {
                assert(text@.take(i + 1).drop_last() =~= text@.take(i as int));
                match text.get_char(i) {
                    '+' | '=' => {
                        actions.push(KeyAction::ZoomIn);
                    },
                    '-' | '_' => {
                        actions.push(KeyAction::ZoomOut);
                    },
                    _ => {},
                }
                i += 1;
            }
            assert(text@.take(n as int) =~= text@);
        },
        KeyInput::ArrowUp => {
            actions.push(KeyAction::ZoomIn);
        },
        KeyInput::ArrowDown => {
            actions.push(KeyAction::ZoomOut);
        },
        KeyInput::Escape => {
            actions.push(KeyAction::Quit);
        },
        KeyInput::Other => {},
    }
    assert(actions@ =~= key_actions(*key, pressed));
    actions
}

/// What happened to the window. Cursor positions are whatever the window system
/// uses.
#[derive(Debug)]
pub enum UiEvent<P> {
    CloseRequested,
    Resized { width: u32, height: u32 },
    CursorMoved { position: P },
    LeftPressed,
    LeftReleased,
    RedrawRequested,
}

/// What the demo does about it.
#[derive(Debug)]
pub enum UiAction<P> {
    Nothing,
    Exit,
    /// Tell the engine and the camera.
    Resize { width: u32, height: u32 },
    /// Move the camera so that the world follows the cursor.
    Pan { from: P, to: P },
    /// Draw a frame; first report on the draw order if asked to.
    Redraw { report_order: bool },
}

/// Pointer and overlay state of the demo.
pub struct UiState<P> {
    /// Last known cursor position.
    pub cursor: P,
    /// Where the cursor was when the world last followed it.
    pub drag_anchor: Option<P>,
    /// Whether the draw order was reported.
    pub sort_logged: bool,
    /// Text of the overlay.
    pub last_fps_text: String,
}

/// State and action after an event.
pub open spec fn ui_after<P>(s: UiState<P>, event: UiEvent<P>) -> (UiState<P>, UiAction<P>) {
    match event {
        UiEvent::CloseRequested => (s, UiAction::Exit),
        UiEvent::Resized { width, height } => (s, UiAction::Resize { width, height }),
        UiEvent::CursorMoved { position } => match s.drag_anchor {
            Some(anchor) => (
                UiState { cursor: position, drag_anchor: Some(position), ..s },
                UiAction::Pan { from: anchor, to: position },
            ),
            None => (UiState { cursor: position, ..s }, UiAction::Nothing),
        },
        UiEvent::LeftPressed => (
            UiState { drag_anchor: Some(s.cursor), ..s },
            UiAction::Nothing,
        ),
        UiEvent::LeftReleased => (UiState { drag_anchor: None, ..s }, UiAction::Nothing),
        UiEvent::RedrawRequested => (
            UiState { sort_logged: true, ..s },
            UiAction::Redraw { report_order: !s.sort_logged },
        ),
    }
}

impl<P: Copy> UiState<P> {
    pub fn new(cursor: P) -> (state: Self)
        ensures
            state.cursor == cursor,
            state.drag_anchor is None,
            !state.sort_logged,
            state.last_fps_text@.len() == 0,
    {
        UiState { cursor, drag_anchor: None, sort_logged: false, last_fps_text: String::new() }
    }

    /// Reacts to an event. The world follows the cursor while the left button
    /// is down; the draw order is reported once, before the first frame.
    pub fn window_event(&mut self, event: UiEvent<P>) -> (action: UiAction<P>)
        ensures
            (*final(self), action) == ui_after(*old(self), event),
            final(self).last_fps_text == old(self).last_fps_text,
            match event {
                UiEvent::CloseRequested => action == UiAction::<P>::Exit && *final(self) == *old(
                    self,
                ),
                UiEvent::Resized { width, height } => action == (UiAction::<P>::Resize {
                    width,
                    height,
                }) && *final(self) == *old(self),
                UiEvent::CursorMoved { position } => {
                    &&& final(self).cursor == position
                    &&& final(self).sort_logged == old(self).sort_logged
                    &&& match old(self).drag_anchor {
                        Some(anchor) => action == (UiAction::Pan { from: anchor, to: position })
                            && final(self).drag_anchor == Some(position),
                        None => action == UiAction::<P>::Nothing && final(self).drag_anchor
                            is None,
                    }
                },
                UiEvent::LeftPressed => {
                    &&& action == UiAction::<P>::Nothing
                    &&& final(self).drag_anchor == Some(old(self).cursor)
                    &&& final(self).cursor == old(self).cursor
                    &&& final(self).sort_logged == old(self).sort_logged
                },
                UiEvent::LeftReleased => {
                    &&& action == UiAction::<P>::Nothing
                    &&& final(self).drag_anchor is None
                    &&& final(self).cursor == old(self).cursor
                    &&& final(self).sort_logged == old(self).sort_logged
                },
                UiEvent::RedrawRequested => {
                    &&& action == (UiAction::<P>::Redraw { report_order: !old(self).sort_logged })
                    &&& final(self).sort_logged
                    &&& final(self).cursor == old(self).cursor
                    &&& final(self).drag_anchor == old(self).drag_anchor
                },
            },
    {
        match event {
            UiEvent::CloseRequested => UiAction::Exit,
            UiEvent::Resized { width, height } => UiAction::Resize { width, height },
            UiEvent::CursorMoved { position } => {
                self.cursor = position;
                match self.drag_anchor {
                    Some(anchor) => {
                        self.drag_anchor = Some(position);
                        UiAction::Pan { from: anchor, to: position }
                    },
                    None => UiAction::Nothing,
                }
            },
            UiEvent::LeftPressed => {
                self.drag_anchor = Some(self.cursor);
                UiAction::Nothing
            },
            UiEvent::LeftReleased => {
                self.drag_anchor = None;
                UiAction::Nothing
            },
            UiEvent::RedrawRequested => {
                let report_order: bool = !self.sort_logged;
                self.sort_logged = true;
                UiAction::Redraw { report_order }
            },
        }
    }

    /// Whether the overlay must be rebuilt for this text, which is then the
    /// current one.
    pub fn rebuild_fps_overlay(&mut self, text: &String) -> (rebuild: bool)
        ensures
            rebuild <==> text@ != old(self).last_fps_text@,
            final(self).last_fps_text@ == text@,
            final(self).cursor == old(self).cursor,
            final(self).drag_anchor == old(self).drag_anchor,
            final(self).sort_logged == old(self).sort_logged,
    {
        if *text == self.last_fps_text {
            return false;
        }
        self.last_fps_text = text.clone();
        true
    }
}

/// Plus and minus zoom, with shift or without; no other character does anything.
pub proof fn law_characters_that_zoom(c: char)
    ensures
        char_action(c) == Some(KeyAction::ZoomIn) <==> c == '+' || c == '=',
        char_action(c) == Some(KeyAction::ZoomOut) <==> c == '-' || c == '_',
        char_action(c) != Some(KeyAction::Quit),
{
}

/// Typing two texts one after the other does what typing them at once does.
pub proof fn law_typing_chains(a: Seq<char>, b: Seq<char>)
    ensures
        text_actions(a + b) == text_actions(a) + text_actions(b),
    decreases b.len(),
{
    if b.len() == 0 {
        assert(a + b =~= a);
        assert(text_actions(a) + text_actions(b) =~= text_actions(a));
    } else {
        law_typing_chains(a, b.drop_last());
        assert((a + b).drop_last() =~= a + b.drop_last());
        assert(text_actions(a + b) =~= text_actions(a) + text_actions(b));
    }
}

/// A typed character does its own action once, or nothing.
pub proof fn law_character_acts_once(c: char)
    ensures
        text_actions(Seq::empty()).len() == 0,
        char_action(c) is None ==> text_actions(seq![c]).len() == 0,
        char_action(c) matches Some(a) ==> text_actions(seq![c]) == seq![a],
{
    assert(seq![c].drop_last() =~= Seq::empty());
    assert(text_actions(Seq::empty()) =~= Seq::empty());
}

/// The arrow keys do what the typed signs do, escape ends the program, and letting a
/// key go does nothing.
pub proof fn law_arrows_act_like_signs(key: KeyInput)
    ensures
        key_actions(key, false).len() == 0,
        key_actions(KeyInput::ArrowUp, true) == text_actions(seq!['+']),
        key_actions(KeyInput::ArrowDown, true) == text_actions(seq!['-']),
        key_actions(KeyInput::Escape, true) == seq![KeyAction::Quit],
        key_actions(KeyInput::Other, true).len() == 0,
        key matches KeyInput::Text(text) ==> key_actions(key, true) == text_actions(text@),
{
    law_character_acts_once('+');
    law_character_acts_once('-');
}

/// A drag: from the press on, every move of the cursor pans from where the last one
/// ended, the first one from where the button went down, so that the pans add up to
/// the whole way; after the release moves do nothing.
pub proof fn law_drag_pans_along_the_cursor<P>(s: UiState<P>, a: P, b: P, c: P)
    ensures
        ({
            let pressed = ui_after(s, UiEvent::LeftPressed);
            let first = ui_after(pressed.0, UiEvent::CursorMoved { position: a });
            let second = ui_after(first.0, UiEvent::CursorMoved { position: b });
            let released = ui_after(second.0, UiEvent::LeftReleased);
            let after = ui_after(released.0, UiEvent::CursorMoved { position: c });
            &&& pressed.1 is Nothing
            &&& first.1 == (UiAction::Pan { from: s.cursor, to: a })
            &&& second.1 == (UiAction::Pan { from: a, to: b })
            &&& released.1 is Nothing
            &&& after.1 is Nothing
            &&& after.0.cursor == c
            &&& after.0.drag_anchor is None
        }),
{
}

/// The draw order is reported with the first redraw and never again, and nothing but a
/// redraw changes that.
pub proof fn law_order_is_reported_once<P>(s: UiState<P>, event: UiEvent<P>)
    ensures
        ({
            let drawn = ui_after(s, UiEvent::RedrawRequested);
            let between = ui_after(drawn.0, event);
            let again = ui_after(between.0, UiEvent::RedrawRequested);
            &&& drawn.1 matches UiAction::Redraw { report_order } && report_order
                == !s.sort_logged
            &&& again.1 matches UiAction::Redraw { report_order } && !report_order
            &&& !(event is RedrawRequested) ==> ui_after(s, event).0.sort_logged == s.sort_logged
        }),
{
}

/// Moving the cursor is what is remembered of it; closing and resizing are handed on
/// and change nothing, and no event touches the overlay's text.
pub proof fn law_events_change_only_their_own<P>(s: UiState<P>, event: UiEvent<P>)
    ensures
        ({
            let (after, action) = ui_after(s, event);
            &&& after.last_fps_text == s.last_fps_text
            &&& event matches UiEvent::CursorMoved { position } ==> after.cursor == position
            &&& !(event is CursorMoved) ==> after.cursor == s.cursor
            &&& !(event is CursorMoved || event is LeftPressed || event is LeftReleased)
                ==> after.drag_anchor == s.drag_anchor
            &&& event matches UiEvent::Resized { width, height } ==> action == (
            UiAction::<P>::Resize { width, height }) && after == s
            &&& event is CloseRequested ==> action is Exit && after == s
            &&& action is Exit ==> event is CloseRequested
            &&& action is Redraw <==> event is RedrawRequested
            &&& action is Pan <==> event is CursorMoved && s.drag_anchor is Some
        }),
{
}

} // verus!
