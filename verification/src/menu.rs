//! Pause menu state machine: Escape opens it, closes it or backs out of a
//! sub-screen; up/down move the selection within the screen's items; Enter
//! activates the selected item. Actions collected from the menu's widgets
//! are applied in order once per frame, the settings draft last edited
//! taking effect first.
use vstd::prelude::*;

verus! {

/// How the window occupies the screen.
#[derive(Clone, Copy, PartialEq, Eq, Structural, Debug)]
pub enum WindowMode {
    Windowed,
    Borderless,
    Fullscreen,
}

/// Requested window size: fixed, or the monitor's native resolution.
#[derive(Clone, Copy, PartialEq, Eq, Structural, Debug)]
pub enum Resolution {
    Fixed(u32, u32),
    Auto,
}

/// Window settings as the application stores them.
pub struct WindowConfig {
    pub title: String,
    pub resolution: Resolution,
    pub mode: WindowMode,
    pub vsync: bool,
    /// `None`: follow the monitor's refresh rate.
    pub max_fps: Option<u32>,
}

/// Width and height the settings screen shows when the resolution is automatic.
pub const AUTO_DRAFT_WIDTH: u32 = 1920;
pub const AUTO_DRAFT_HEIGHT: u32 = 1080;

/// Live-edited copy of the window settings while the settings screen is
/// open. `max_fps_val` 0 stands for "follow the monitor".
pub struct SettingsDraft {
    pub res_fixed_w: u32,
    pub res_fixed_h: u32,
    pub res_auto: bool,
    pub mode: WindowMode,
    pub vsync: bool,
    pub max_fps_val: u32,
    pub title: String,
}

/// The draft the settings screen opens with for `cfg`.
pub open spec fn draft_of(cfg: WindowConfig) -> SettingsDraft {
    SettingsDraft {
        res_fixed_w: match cfg.resolution {
            Resolution::Fixed(w, _) => w,
            Resolution::Auto => AUTO_DRAFT_WIDTH,
        },
        res_fixed_h: match cfg.resolution {
            Resolution::Fixed(_, h) => h,
            Resolution::Auto => AUTO_DRAFT_HEIGHT,
        },
        res_auto: cfg.resolution is Auto,
        mode: cfg.mode,
        vsync: cfg.vsync,
        max_fps_val: match cfg.max_fps {
            Some(f) => f,
            None => 0,
        },
        title: cfg.title,
    }
}

/// The settings a saved draft stands for.
pub open spec fn config_of(d: SettingsDraft) -> WindowConfig {
    WindowConfig {
        title: d.title,
        resolution: if d.res_auto {
            Resolution::Auto
        } else {
            Resolution::Fixed(d.res_fixed_w, d.res_fixed_h)
        },
        mode: d.mode,
        vsync: d.vsync,
        max_fps: if d.max_fps_val == 0 {
            None
        } else {
            Some(d.max_fps_val)
        },
    }
}

impl WindowConfig {
    pub fn copy_config(&self) -> (c: WindowConfig)
        ensures
            c == *self,
    {
        WindowConfig {
            title: self.title.clone(),
            resolution: self.resolution,
            mode: self.mode,
            vsync: self.vsync,
            max_fps: self.max_fps,
        }
    }
}

impl SettingsDraft {
    pub fn from_config(cfg: &WindowConfig) -> (d: SettingsDraft)
        ensures
            d == draft_of(*cfg),
    {
        let (w, h, auto) = match cfg.resolution {
            Resolution::Fixed(w, h) => (w, h, false),
            Resolution::Auto => (AUTO_DRAFT_WIDTH, AUTO_DRAFT_HEIGHT, true),
        };
        SettingsDraft {
            res_fixed_w: w,
            res_fixed_h: h,
            res_auto: auto,
            mode: cfg.mode,
            vsync: cfg.vsync,
            max_fps_val: match cfg.max_fps {
                Some(f) => f,
                None => 0,
            },
            title: cfg.title.clone(),
        }
    }

    pub fn into_config(self) -> (c: WindowConfig)
        ensures
            c == config_of(self),
    {
        WindowConfig {
            title: self.title,
            resolution: if self.res_auto {
                Resolution::Auto
            } else {
                Resolution::Fixed(self.res_fixed_w, self.res_fixed_h)
            },
            mode: self.mode,
            vsync: self.vsync,
            max_fps: if self.max_fps_val == 0 {
                None
            } else {
                Some(self.max_fps_val)
            },
        }
    }

    pub fn copy_draft(&self) -> (d: SettingsDraft)
        ensures
            d == *self,
    {
        SettingsDraft {
            res_fixed_w: self.res_fixed_w,
            res_fixed_h: self.res_fixed_h,
            res_auto: self.res_auto,
            mode: self.mode,
            vsync: self.vsync,
            max_fps_val: self.max_fps_val,
            title: self.title.clone(),
        }
    }
}

/// Opening the settings screen on a configuration and saving the draft
/// unchanged gives the configuration back, unless it pins the frame cap
/// at zero, which the draft cannot tell apart from "follow the monitor".
pub proof fn lemma_draft_round_trip(cfg: WindowConfig)
    requires
        cfg.max_fps != Some(0u32),
    ensures
        config_of(draft_of(cfg)) == cfg,
{
}

/// Which screen of the menu is showing.
#[derive(Clone, Copy, PartialEq, Eq, Structural, Debug)]
pub enum MenuScreen {
    Main,
    Settings,
}

/// Number of selectable items on a screen: Resume, Settings, Quit on the
/// main screen; Save, Back on the settings screen.
pub open spec fn item_count(screen: MenuScreen) -> int {
    match screen {
        MenuScreen::Main => 3,
        MenuScreen::Settings => 2,
    }
}

pub struct MenuState {
    pub open: bool,
    pub screen: MenuScreen,
    pub selected: usize,
    pub draft: SettingsDraft,
    /// Set by Enter on Quit; the frame's action pass turns it into an exit.
    pub quit_requested: bool,
}

impl MenuState {
    pub fn new(cfg: &WindowConfig) -> (m: MenuState)
        ensures
            !m.open,
            m.screen == MenuScreen::Main,
            m.selected == 0,
            m.draft == draft_of(*cfg),
            !m.quit_requested,
    {
        MenuState {
            open: false,
            screen: MenuScreen::Main,
            selected: 0,
            draft: SettingsDraft::from_config(cfg),
            quit_requested: false,
        }
    }
}

/// The navigation keys pressed since the last step.
#[derive(Clone, Copy)]
pub struct MenuKeys {
    pub escape: bool,
    pub up: bool,
    pub down: bool,
    pub enter: bool,
}

/// The menu after Escape (if pressed): open it on the main screen, back out
/// of the settings screen to the main screen, or close it.
pub open spec fn after_escape(m: MenuState, escape: bool) -> MenuState {
    if !escape {
        m
    } else if m.open {
        match m.screen {
            MenuScreen::Settings => MenuState { screen: MenuScreen::Main, selected: 0, ..m },
            MenuScreen::Main => MenuState { open: false, ..m },
        }
    } else {
        MenuState { open: true, screen: MenuScreen::Main, selected: 0, ..m }
    }
}

/// The selection after up and down: up moves toward the first item, down
/// toward the last item, neither past its end.
pub open spec fn after_moves(m: MenuState, up: bool, down: bool) -> int {
    let s1: int = if up && m.selected > 0 {
        m.selected - 1
    } else {
        m.selected as int
    };
    if down {
        if s1 + 1 < item_count(m.screen) - 1 {
            s1 + 1
        } else {
            item_count(m.screen) - 1
        }
    } else {
        s1
    }
}

/// The menu after Enter on the selected item.
pub open spec fn after_enter(m: MenuState) -> MenuState {
    match m.screen {
        MenuScreen::Main => if m.selected == 0 {
            MenuState { open: false, ..m }
        } else if m.selected == 1 {
            MenuState { screen: MenuScreen::Settings, selected: 0, ..m }
        } else {
            MenuState { quit_requested: true, ..m }
        },
        MenuScreen::Settings => if m.selected == 0 {
            m
        } else {
            MenuState { screen: MenuScreen::Main, selected: 1, ..m }
        },
    }
}

/// One navigation step: Escape first; a closed menu ignores the rest; then
/// up, down and Enter.
pub open spec fn menu_step(m: MenuState, keys: MenuKeys) -> MenuState {
    let e = after_escape(m, keys.escape);
    if !e.open {
        e
    } else {
        let moved = MenuState { selected: after_moves(e, keys.up, keys.down) as usize, ..e };
        if keys.enter {
            after_enter(moved)
        } else {
            moved
        }
    }
}

/// Navigation keeps the selection of an open menu on one of the shown
/// screen's items.
pub proof fn lemma_step_keeps_selection(m: MenuState, keys: MenuKeys)
    requires
        m.open ==> m.selected < item_count(m.screen),
    ensures
        menu_step(m, keys).open ==> menu_step(m, keys).selected < item_count(
            menu_step(m, keys).screen,
        ),
{
}

/// The menu's keyboard handler.
pub struct MenuSystem;

impl MenuSystem {
    /// Applies one frame's navigation keys to the menu.
    pub fn step(menu: &mut MenuState, keys: MenuKeys)
        ensures
            *final(menu) == menu_step(*old(menu), keys),
    {
        if keys.escape {
            if menu.open {
                match menu.screen {
                    MenuScreen::Settings => {
                        menu.screen = MenuScreen::Main;
                        menu.selected = 0;
                    },
                    MenuScreen::Main => {
                        menu.open = false;
                    },
                }
            } else {
                menu.open = true;
                menu.screen = MenuScreen::Main;
                menu.selected = 0;
            }
        }
        if !menu.open {
            return ;
        }
        let last: usize = match menu.screen {
            MenuScreen::Main => 2,
            MenuScreen::Settings => 1,
        };
        if keys.up && menu.selected > 0 {
            menu.selected = menu.selected - 1;
        }
        if keys.down {
            menu.selected = if menu.selected < last {
                menu.selected + 1
            } else {
                last
            };
        }
        if keys.enter {
            match menu.screen {
                MenuScreen::Main => {
                    if menu.selected == 0 {
                        menu.open = false;
                    } else if menu.selected == 1 {
                        menu.screen = MenuScreen::Settings;
                        menu.selected = 0;
                    } else {
                        menu.quit_requested = true;
                    }
                },
                MenuScreen::Settings => {
                    if menu.selected != 0 {
                        menu.screen = MenuScreen::Main;
                        menu.selected = 1;
                    }
                },
            }
        }
    }
}

/// What the menu's widgets asked for during a frame.
pub enum MenuAction {
    Resume,
    OpenSettings,
    /// Apply the draft to the configuration and the window, back to main.
    SaveAndBack,
    /// Discard the draft, back to main.
    CancelAndBack,
    Quit,
    HoverSelect(usize),
    /// The settings widgets' current values.
    UpdateDraft(SettingsDraft),
}

/// The draft of the last `UpdateDraft` in `actions`, if any.
pub open spec fn last_draft(actions: Seq<MenuAction>) -> Option<SettingsDraft>
    decreases actions.len(),
{
    if actions.len() == 0 {
        None
    } else {
        match actions.last() {
            MenuAction::UpdateDraft(d) => Some(d),
            _ => last_draft(actions.drop_last()),
        }
    }
}

/// Menu, current configuration, and whether the application should quit.
pub struct MenuEffects {
    pub menu: MenuState,
    pub config: WindowConfig,
    pub saved: bool,
    pub quit: bool,
}

/// The effect of one action; `UpdateDraft` was applied beforehand and is
/// skipped here. After `Quit` nothing more happens.
pub open spec fn apply_action(e: MenuEffects, a: MenuAction) -> MenuEffects {
    if e.quit {
        e
    } else {
        match a {
            MenuAction::Resume => MenuEffects { menu: MenuState { open: false, ..e.menu }, ..e },
            MenuAction::OpenSettings => MenuEffects {
                menu: MenuState {
                    draft: draft_of(e.config),
                    screen: MenuScreen::Settings,
                    selected: 0,
                    ..e.menu
                },
                ..e
            },
            MenuAction::SaveAndBack => MenuEffects {
                config: config_of(e.menu.draft),
                saved: true,
                menu: MenuState { screen: MenuScreen::Main, selected: 1, ..e.menu },
                ..e
            },
            MenuAction::CancelAndBack => MenuEffects {
                menu: MenuState {
                    draft: draft_of(e.config),
                    screen: MenuScreen::Main,
                    selected: 1,
                    ..e.menu
                },
                ..e
            },
            MenuAction::Quit => MenuEffects { quit: true, ..e },
            MenuAction::HoverSelect(i) => MenuEffects {
                menu: MenuState { selected: i, ..e.menu },
                ..e
            },
            MenuAction::UpdateDraft(_) => e,
        }
    }
}

/// The effect of the actions in order.
pub open spec fn apply_actions(e: MenuEffects, actions: Seq<MenuAction>) -> MenuEffects
    decreases actions.len(),
{
    if actions.len() == 0 {
        e
    } else {
        apply_action(apply_actions(e, actions.drop_last()), actions.last())
    }
}

/// The frame's action pass: the last draft update first, then every other
/// action in order. `saved` tells the caller to apply `config` to the
/// window and store it; `quit` to exit.
pub fn apply_menu_actions(actions: Vec<MenuAction>, menu: MenuState, config: WindowConfig) -> (e:
    MenuEffects)
    ensures
        e == apply_actions(
            MenuEffects {
                menu: match last_draft(actions@) {
                    Some(d) => MenuState { draft: d, ..menu },
                    None => menu,
                },
                config,
                saved: false,
                quit: false,
            },
            actions@,
        ),
{
    let n = actions.len();
    let mut latest: Option<SettingsDraft> = None;
    let mut i: usize = 0;
    while i < n
        invariant
            n == actions@.len(),
            i <= n,
            latest == last_draft(actions@.take(i as int)),
        decreases n - i,
    {
        proof {
            assert(actions@.take(i + 1).drop_last() =~= actions@.take(i as int));
        }
        match &actions[i] {
            MenuAction::UpdateDraft(d) => {
                latest = Some(d.copy_draft());
            },
            _ => {},
        }
        i = i + 1;
    }
    proof {
        assert(actions@.take(n as int) =~= actions@);
    }
    let mut menu = menu;
    match latest {
        Some(d) => {
            menu.draft = d;
        },
        None => {},
    }
    let ghost init = MenuEffects { menu, config, saved: false, quit: false };
    let mut e = MenuEffects { menu, config, saved: false, quit: false };
    let mut j: usize = 0;
    while j < n
        invariant
            n == actions@.len(),
            j <= n,
            e == apply_actions(init, actions@.take(j as int)),
        decreases n - j,
    {
        proof {
            assert(actions@.take(j + 1).drop_last() =~= actions@.take(j as int));
        }
        if !e.quit {
            match &actions[j] {
                MenuAction::Resume => {
                    e.menu.open = false;
                },
                MenuAction::OpenSettings => {
                    e.menu.draft = SettingsDraft::from_config(&e.config);
                    e.menu.screen = MenuScreen::Settings;
                    e.menu.selected = 0;
                },
                MenuAction::SaveAndBack => {
                    e.config = e.menu.draft.copy_draft().into_config();
                    e.saved = true;
                    e.menu.screen = MenuScreen::Main;
                    e.menu.selected = 1;
                },
                MenuAction::CancelAndBack => {
                    e.menu.draft = SettingsDraft::from_config(&e.config);
                    e.menu.screen = MenuScreen::Main;
                    e.menu.selected = 1;
                },
                MenuAction::Quit => {
                    e.quit = true;
                },
                MenuAction::HoverSelect(k) => {
                    e.menu.selected = *k;
                },
                MenuAction::UpdateDraft(_) => {},
            }
        }
        j = j + 1;
    }
    proof {
        assert(actions@.take(n as int) =~= actions@);
    }
    e
}

/// Enter on Resume closes the menu: an open menu on the main screen with
/// its first item (Resume) selected, given Enter and neither Escape nor
/// down (up cannot move past the first item), is closed afterwards, with
/// its screen, draft and quit request untouched.
pub proof fn lemma_enter_on_resume_closes(m: MenuState, keys: MenuKeys)
    requires
        m.open,
        m.screen == MenuScreen::Main,
        m.selected == 0,
        keys.enter,
        !keys.escape,
        !keys.down,
    ensures
        !menu_step(m, keys).open,
        menu_step(m, keys).screen == MenuScreen::Main,
        menu_step(m, keys).draft == m.draft,
        menu_step(m, keys).quit_requested == m.quit_requested,
{
}

/// Escape toggles the menu: a closed menu opens on the main screen with
/// the first item selected (and, without other keys, nothing else
/// changes); an open menu on the main screen closes whatever else is
/// pressed; on the settings screen it goes back to the main screen. A
/// closed menu ignores every other key.
pub proof fn lemma_escape_and_closed_menu(m: MenuState, keys: MenuKeys)
    ensures
        !m.open && !keys.escape ==> menu_step(m, keys) == m,
        !m.open && keys.escape && !keys.up && !keys.down && !keys.enter ==> menu_step(m, keys) == (MenuState {
            open: true,
            screen: MenuScreen::Main,
            selected: 0,
            ..m
        }),
        m.open && m.screen == MenuScreen::Main && keys.escape ==> menu_step(m, keys) == (MenuState {
            open: false,
            ..m
        }),
        m.open && m.screen == MenuScreen::Settings && keys.escape && !keys.up && !keys.down && !keys.enter
            ==> menu_step(m, keys) == (MenuState { screen: MenuScreen::Main, selected: 0, ..m }),
{
}

/// Up and down on an open menu, without Escape or Enter: up selects the
/// previous item (staying on the first), down the next (staying on the
/// last: the third on the main screen, the second on the settings screen);
/// nothing but the selection changes.
pub proof fn lemma_up_down(m: MenuState, keys: MenuKeys)
    requires
        m.open,
        !keys.escape,
        !keys.enter,
    ensures
        menu_step(m, keys) == (MenuState { selected: menu_step(m, keys).selected, ..m }),
        !keys.up && !keys.down ==> menu_step(m, keys).selected == m.selected,
        keys.up && !keys.down ==> menu_step(m, keys).selected == if m.selected > 0 {
            m.selected - 1
        } else {
            0
        },
        m.screen == MenuScreen::Main && keys.down && !keys.up && m.selected < 2 ==> menu_step(m, keys).selected
            == m.selected + 1,
        m.screen == MenuScreen::Main && keys.down && !keys.up && m.selected >= 2 ==> menu_step(m, keys).selected
            == 2,
        m.screen == MenuScreen::Settings && keys.down && !keys.up && m.selected < 1 ==> menu_step(m, keys).selected
            == m.selected + 1,
        m.screen == MenuScreen::Settings && keys.down && !keys.up && m.selected >= 1 ==> menu_step(
            m,
            keys,
        ).selected == 1,
{
}

/// Enter on the other items of an open menu (no other key): Settings opens
/// the settings screen on its first item; Quit requests the exit and keeps
/// the menu as it is; Back returns to the main screen on the Settings
/// item; Save changes nothing here (the action pass saves).
pub proof fn lemma_enter_on_items(m: MenuState)
    requires
        m.open,
    ensures
        ({
            let keys = MenuKeys { escape: false, up: false, down: false, enter: true };
            &&& m.screen == MenuScreen::Main && m.selected == 1 ==> menu_step(m, keys) == (MenuState {
                screen: MenuScreen::Settings,
                selected: 0,
                ..m
            })
            &&& m.screen == MenuScreen::Main && m.selected >= 2 ==> menu_step(m, keys) == (MenuState {
                quit_requested: true,
                ..m
            })
            &&& m.screen == MenuScreen::Settings && m.selected >= 1 ==> menu_step(m, keys) == (MenuState {
                screen: MenuScreen::Main,
                selected: 1,
                ..m
            })
            &&& m.screen == MenuScreen::Settings && m.selected == 0 ==> menu_step(m, keys) == m
        }),
{
}

proof fn lemma_actions_take(e: MenuEffects, actions: Seq<MenuAction>, k: int)
    requires
        0 <= k < actions.len(),
    ensures
        apply_actions(e, actions.take(k + 1)) == apply_action(apply_actions(e, actions.take(k)), actions[k]),
{
    assert(actions.take(k + 1).drop_last() =~= actions.take(k));
}

/// Once the menu is closed by the action pass, no later action reopens it;
/// once quit is requested, nothing more changes.
proof fn lemma_actions_monotone(e: MenuEffects, actions: Seq<MenuAction>, k: int)
    requires
        0 <= k <= actions.len(),
    ensures
        !apply_actions(e, actions.take(k)).menu.open ==> !apply_actions(e, actions).menu.open,
        apply_actions(e, actions.take(k)).quit ==> apply_actions(e, actions) == apply_actions(e, actions.take(k)),
    decreases actions.len() - k,
{
    if k < actions.len() {
        lemma_actions_take(e, actions, k);
        lemma_actions_monotone(e, actions, k + 1);
    } else {
        assert(actions.take(k) =~= actions);
    }
}

/// `a` is the Quit action.
pub open spec fn is_quit(a: MenuAction) -> bool {
    match a {
        MenuAction::Quit => true,
        _ => false,
    }
}

/// `a` is the Resume action.
pub open spec fn is_resume(a: MenuAction) -> bool {
    match a {
        MenuAction::Resume => true,
        _ => false,
    }
}

/// None of the first `k` actions is Quit.
pub open spec fn no_quit_before(actions: Seq<MenuAction>, k: int) -> bool {
    forall|j: int| 0 <= j < k ==> !is_quit(#[trigger] actions[j])
}

proof fn lemma_no_quit_before(e: MenuEffects, actions: Seq<MenuAction>, k: int)
    requires
        !e.quit,
        0 <= k <= actions.len(),
        no_quit_before(actions, k),
    ensures
        !apply_actions(e, actions.take(k)).quit,
    decreases k,
{
    if k > 0 {
        lemma_no_quit_before(e, actions, k - 1);
        lemma_actions_take(e, actions, k - 1);
        assert(!is_quit(actions[k - 1]));
    } else {
        assert(actions.take(0) =~= Seq::<MenuAction>::empty());
    }
}

/// Action-pass law: when the actions hold a Resume with no Quit before it,
/// the menu ends the frame closed (no action reopens it); when they hold a
/// Quit, the pass ends with the exit requested, and whatever follows the
/// first Quit changes nothing.
pub proof fn lemma_action_pass(e: MenuEffects, actions: Seq<MenuAction>, i: int)
    requires
        !e.quit,
        0 <= i < actions.len(),
    ensures
        is_resume(actions[i]) && no_quit_before(actions, i) ==> !apply_actions(e, actions).menu.open,
        is_quit(actions[i]) ==> apply_actions(e, actions).quit,
        is_quit(actions[i]) && no_quit_before(actions, i) ==> apply_actions(e, actions) == (MenuEffects {
            quit: true,
            ..apply_actions(e, actions.take(i))
        }),
{
    lemma_actions_take(e, actions, i);
    lemma_actions_monotone(e, actions, i + 1);
    if is_resume(actions[i]) && no_quit_before(actions, i) {
        lemma_no_quit_before(e, actions, i);
    }
    if is_quit(actions[i]) && no_quit_before(actions, i) {
        lemma_no_quit_before(e, actions, i);
    }
}

/// What each action does while no exit is requested: OpenSettings shows
/// the settings screen on its first item with a fresh draft of the current
/// configuration; SaveAndBack makes the draft the configuration, marks it
/// saved and returns to the main screen on the Settings item; CancelAndBack
/// discards the draft (a fresh draft of the configuration) and returns
/// there too; HoverSelect selects the hovered item; Quit requests the exit.
/// None of them opens or closes the menu except Resume, which closes it.
pub proof fn lemma_each_action(e: MenuEffects, i: usize, cfg_draft: SettingsDraft)
    requires
        !e.quit,
    ensures
        ({
            let o = apply_action(e, MenuAction::OpenSettings);
            &&& o.menu.screen == MenuScreen::Settings && o.menu.selected == 0
            &&& o.menu.draft == draft_of(e.config) && o.menu.open == e.menu.open
            &&& o.config == e.config && o.saved == e.saved && !o.quit
        }),
        ({
            let v = apply_action(e, MenuAction::SaveAndBack);
            &&& v.config == config_of(e.menu.draft) && v.saved
            &&& v.menu.screen == MenuScreen::Main && v.menu.selected == 1
            &&& v.menu.open == e.menu.open && v.menu.draft == e.menu.draft && !v.quit
        }),
        ({
            let c = apply_action(e, MenuAction::CancelAndBack);
            &&& c.config == e.config && c.saved == e.saved
            &&& c.menu.draft == draft_of(e.config)
            &&& c.menu.screen == MenuScreen::Main && c.menu.selected == 1
            &&& c.menu.open == e.menu.open && !c.quit
        }),
        ({
            let h = apply_action(e, MenuAction::HoverSelect(i));
            &&& h.menu.selected == i && h.menu.screen == e.menu.screen && h.menu.open == e.menu.open
            &&& h.config == e.config && h.saved == e.saved && !h.quit
        }),
        ({
            let q = apply_action(e, MenuAction::Quit);
            &&& q.quit && q.menu == e.menu && q.config == e.config && q.saved == e.saved
        }),
        !apply_action(e, MenuAction::Resume).menu.open,
        apply_action(e, MenuAction::UpdateDraft(cfg_draft)) == e,
{
}

/// `a` is a draft update.
pub open spec fn is_draft_update(a: MenuAction) -> bool {
    match a {
        MenuAction::UpdateDraft(_) => true,
        _ => false,
    }
}

/// The draft the action pass starts from is the one of the last draft
/// update of the frame: when action `k` updates the draft to `d` and none
/// after it does, it is `d`; when no action updates the draft, there is
/// none and the menu's own draft stays.
pub proof fn lemma_last_draft_wins(actions: Seq<MenuAction>, k: int, d: SettingsDraft)
    ensures
        0 <= k < actions.len() && actions[k] == MenuAction::UpdateDraft(d) && (forall|j: int|
            k < j < actions.len() ==> !is_draft_update(#[trigger] actions[j])) ==> last_draft(actions) == Some(d),
        (forall|j: int| 0 <= j < actions.len() ==> !is_draft_update(#[trigger] actions[j])) ==> last_draft(actions)
            is None,
    decreases actions.len(),
{
    if actions.len() > 0 {
        let t = actions.drop_last();
        lemma_last_draft_wins(t, k, d);
        assert forall|j: int| 0 <= j < t.len() implies t[j] == actions[j] by {}
        if 0 <= k < actions.len() && actions[k] == MenuAction::UpdateDraft(d) && (forall|j: int|
            k < j < actions.len() ==> !is_draft_update(#[trigger] actions[j])) {
            if k < actions.len() - 1 {
                assert(!is_draft_update(actions[actions.len() - 1]));
                assert forall|j: int| k < j < t.len() implies !is_draft_update(#[trigger] t[j]) by {
                    assert(t[j] == actions[j]);
                }
            }
        }
        if forall|j: int| 0 <= j < actions.len() ==> !is_draft_update(#[trigger] actions[j]) {
            assert(!is_draft_update(actions[actions.len() - 1]));
            assert forall|j: int| 0 <= j < t.len() implies !is_draft_update(#[trigger] t[j]) by {
                assert(t[j] == actions[j]);
            }
        }
    }
}

} // verus!
