//! The window and its tray icon.
//!
//! Closing the window hides it; the program ends when the tray's menu says so.

use vstd::prelude::*;

verus! {

/// How often a hidden window looks for tray events, in milliseconds.
pub const HIDDEN_TICK_MS: u64 = 100;

#[derive(Clone, Copy, Debug, PartialEq, Eq)]
pub enum MouseButton {
    Left,
    Right,
    Middle,
}

#[derive(Clone, Copy, Debug, PartialEq, Eq)]
pub enum ButtonState {
    Up,
    Down,
}

/// Something that happened to the tray icon.
#[derive(Clone, Copy, Debug, PartialEq, Eq)]
pub enum TrayEvent {
    Click { button: MouseButton, state: ButtonState },
    Other,
}

/// An entry of the tray's menu that was chosen.
#[derive(Clone, Copy, Debug, PartialEq, Eq)]
pub enum MenuChoice {
    Show,
    Startup,
    Quit,
    Other,
}

/// An entry of the tray's menu.
#[derive(Clone, Copy, Debug, PartialEq, Eq)]
pub enum TrayItem {
    Show,
    Startup { checked: bool },
    Quit,
    Separator,
}

/// Something for the program to do.
#[derive(Clone, Copy, Debug, PartialEq, Eq)]
pub enum Command {
    /// Do not let the window close.
    CancelClose,
    /// Show or hide the window.
    Visible(bool),
    /// Bring the window to the front.
    Focus,
    /// Ask the window to close.
    Close,
    /// Switch running at startup on or off, and check its menu entry alike.
    ToggleStartup,
    /// Run again after so many milliseconds.
    RepaintAfter(u64),
}

/// What the program knows of its window.
#[derive(Clone, Copy, Debug, PartialEq, Eq)]
pub struct Shell {
    pub visible: bool,
    /// The next request to close is meant.
    pub should_quit: bool,
}

/// Whether the program was asked to start hidden: `flag` is among `args`.
pub fn start_hidden(args: &Vec<String>, flag: &String) -> (hidden: bool)
    ensures
        hidden == exists|i: int| 0 <= i < args@.len() && #[trigger] args@[i]@ == flag@,
{
    let mut i: usize = 0;
    while i < args.len()
        invariant
            i <= args@.len(),
            forall|j: int| 0 <= j < i ==> #[trigger] args@[j]@ != flag@,
        decreases args@.len() - i,
    {
        if args[i] == *flag {
            return true;
        }
        i = i + 1;
    }
    false
}

/// The entries of the tray's menu, from top to bottom.
pub fn tray_menu(run_at_startup: bool) -> (items: Vec<TrayItem>)
    ensures
        items@ == seq![
            TrayItem::Show,
            TrayItem::Separator,
            TrayItem::Startup { checked: run_at_startup },
            TrayItem::Separator,
            TrayItem::Quit,
        ],
{
    vec![
        TrayItem::Show,
        TrayItem::Separator,
        TrayItem::Startup { checked: run_at_startup },
        TrayItem::Separator,
        TrayItem::Quit,
    ]
}

/// The text of an entry of the tray's menu; a separator has none.
pub fn tray_label(item: TrayItem) -> (label: Option<&'static str>)
    ensures
        label is None <==> item is Separator,
        item is Show ==> label->0@ == "Show UI"@,
        item is Startup ==> label->0@ == "Run on startup"@,
        item is Quit ==> label->0@ == "Quit"@,
{
    match item {
        TrayItem::Show => Some("Show UI"),
        TrayItem::Startup { .. } => Some("Run on startup"),
        TrayItem::Quit => Some("Quit"),
        TrayItem::Separator => None,
    }
}

/// Which entry of the tray's menu has identifier `id`.
pub fn menu_choice(id: &String, show_id: &String, startup_id: &String, quit_id: &String) -> (choice:
    MenuChoice)
    ensures
        choice == (if id@ == show_id@ {
            MenuChoice::Show
        } else if id@ == startup_id@ {
            MenuChoice::Startup
        } else if id@ == quit_id@ {
            MenuChoice::Quit
        } else {
            MenuChoice::Other
        }),
{
    if *id == *show_id {
        MenuChoice::Show
    } else if *id == *startup_id {
        MenuChoice::Startup
    } else if *id == *quit_id {
        MenuChoice::Quit
    } else {
        MenuChoice::Other
    }
}

/// The setting that [`Command::ToggleStartup`] changes to.
pub fn toggled_startup(run_at_startup: bool) -> (new_state: bool)
    ensures
        new_state == !run_at_startup,
{
    !run_at_startup
}

/// What a request to close does: it hides the window, unless the program is to
/// quit.
pub open spec fn close_step(shell: Shell, requested: bool) -> (Shell, Seq<Command>) {
    if requested && !shell.should_quit {
        (
            Shell { visible: false, ..shell },
            seq![Command::CancelClose, Command::Visible(false)],
        )
    } else {
        (shell, Seq::empty())
    }
}

/// What an event on the tray icon does: releasing the left button shows the
/// window.
pub open spec fn tray_step(shell: Shell, event: TrayEvent) -> (Shell, Seq<Command>) {
    if event == (TrayEvent::Click { button: MouseButton::Left, state: ButtonState::Up }) {
        (Shell { visible: true, ..shell }, seq![Command::Visible(true), Command::Focus])
    } else {
        (shell, Seq::empty())
    }
}

/// What a choice from the tray's menu does.
pub open spec fn menu_step(shell: Shell, choice: MenuChoice) -> (Shell, Seq<Command>) {
    match choice {
        MenuChoice::Show => if shell.visible {
            (Shell { visible: false, ..shell }, seq![Command::Visible(false)])
        } else {
            (Shell { visible: true, ..shell }, seq![Command::Visible(true), Command::Focus])
        },
        MenuChoice::Startup => (shell, seq![Command::ToggleStartup]),
        MenuChoice::Quit => (Shell { should_quit: true, ..shell }, seq![Command::Close]),
        MenuChoice::Other => (shell, Seq::empty()),
    }
}

/// What a run of tray events does, one after the other.
pub open spec fn tray_run(shell: Shell, events: Seq<TrayEvent>) -> (Shell, Seq<Command>)
    decreases events.len(),
{
    if events.len() == 0 {
        (shell, Seq::empty())
    } else {
        let (before, commands) = tray_run(shell, events.drop_last());
        let (after, more) = tray_step(before, events.last());
        (after, commands + more)
    }
}

/// What a run of menu choices does, one after the other.
pub open spec fn menu_run(shell: Shell, choices: Seq<MenuChoice>) -> (Shell, Seq<Command>)
    decreases choices.len(),
{
    if choices.len() == 0 {
        (shell, Seq::empty())
    } else {
        let (before, commands) = menu_run(shell, choices.drop_last());
        let (after, more) = menu_step(before, choices.last());
        (after, commands + more)
    }
}

/// What one pass of the program's logic does: the request to close, then the
/// tray's events, then the menu's choices; a window that ends up hidden is to
/// run again soon.
pub open spec fn logic_pass(
    shell: Shell,
    close_requested: bool,
    events: Seq<TrayEvent>,
    choices: Seq<MenuChoice>,
) -> (Shell, Seq<Command>) {
    let (closed, first) = close_step(shell, close_requested);
    let (clicked, second) = tray_run(closed, events);
    let (chosen, third) = menu_run(clicked, choices);
    let tick = if chosen.visible {
        Seq::empty()
    } else {
        seq![Command::RepaintAfter(HIDDEN_TICK_MS)]
    };
    (chosen, first + second + third + tick)
}

impl Shell {
    /// The window of a program that starts.
    pub fn new(start_hidden: bool) -> (shell: Shell)
        ensures
            shell == (Shell { visible: !start_hidden, should_quit: false }),
    {
        Shell { visible: !start_hidden, should_quit: false }
    }

    fn tray_event(&mut self, event: TrayEvent, commands: &mut Vec<Command>)
        ensures
            *final(self) == tray_step(*old(self), event).0,
            final(commands)@ == old(commands)@ + tray_step(*old(self), event).1,
    {
        match event {
            TrayEvent::Click { button: MouseButton::Left, state: ButtonState::Up } => {
                self.visible = true;
                commands.push(Command::Visible(true));
                commands.push(Command::Focus);
            },
            _ => {},
        }
        assert(commands@ =~= old(commands)@ + tray_step(*old(self), event).1);
    }

    fn menu_event(&mut self, choice: MenuChoice, commands: &mut Vec<Command>)
        ensures
            *final(self) == menu_step(*old(self), choice).0,
            final(commands)@ == old(commands)@ + menu_step(*old(self), choice).1,
    {
        match choice {
            MenuChoice::Show => {
                self.visible = !self.visible;
                commands.push(Command::Visible(self.visible));
                if self.visible {
                    commands.push(Command::Focus);
                }
            },
            MenuChoice::Startup => {
                commands.push(Command::ToggleStartup);
            },
            MenuChoice::Quit => {
                self.should_quit = true;
                commands.push(Command::Close);
            },
            MenuChoice::Other => {},
        }
        assert(commands@ =~= old(commands)@ + menu_step(*old(self), choice).1);
    }

    /// One pass of the program's logic, which runs whether or not the window
    /// is visible: takes what happened since the last one and says what to do,
    /// in order.
    pub fn logic(
        &mut self,
        close_requested: bool,
        events: &Vec<TrayEvent>,
        choices: &Vec<MenuChoice>,
    ) -> (commands: Vec<Command>)
        ensures
            (*final(self), commands@) == logic_pass(
                *old(self),
                close_requested,
                events@,
                choices@,
            ),
            commands@.to_multiset().count(Command::ToggleStartup) == choices@.to_multiset().count(
                MenuChoice::Startup,
            ),
            commands@.to_multiset().count(Command::Close) == choices@.to_multiset().count(
                MenuChoice::Quit,
            ),
            commands@.to_multiset().count(Command::Visible(true)) >= events@.to_multiset().count(
                TrayEvent::Click { button: MouseButton::Left, state: ButtonState::Up },
            ),
    {
        let ghost start = *self;
        let mut commands: Vec<Command> = Vec::new();
        if close_requested && !self.should_quit {
            commands.push(Command::CancelClose);
            self.visible = false;
            commands.push(Command::Visible(false));
        }
        let ghost closed = close_step(start, close_requested);
        assert(commands@ =~= closed.1);
        let mut i: usize = 0;
        assert(events@.take(0) =~= Seq::<TrayEvent>::empty());
        assert(commands@ =~= closed.1 + tray_run(closed.0, events@.take(0)).1);
        while i < events.len()
            invariant
                i <= events@.len(),
                *self == tray_run(closed.0, events@.take(i as int)).0,
                commands@ == closed.1 + tray_run(closed.0, events@.take(i as int)).1,
            decreases events@.len() - i,
        {
            self.tray_event(events[i], &mut commands);
            proof {
                let more = events@.take(i + 1);
                assert(more.drop_last() =~= events@.take(i as int));
                assert(commands@ =~= closed.1 + tray_run(closed.0, more).1);
            }
            i = i + 1;
        }
        assert(events@.take(events@.len() as int) =~= events@);
        let ghost clicked = tray_run(closed.0, events@);
        let ghost so_far = commands@;
        let mut k: usize = 0;
        assert(choices@.take(0) =~= Seq::<MenuChoice>::empty());
        assert(commands@ =~= so_far + menu_run(clicked.0, choices@.take(0)).1);
        while k < choices.len()
            invariant
                k <= choices@.len(),
                *self == menu_run(clicked.0, choices@.take(k as int)).0,
                commands@ == so_far + menu_run(clicked.0, choices@.take(k as int)).1,
            decreases choices@.len() - k,
        {
            self.menu_event(choices[k], &mut commands);
            proof {
                let more = choices@.take(k + 1);
                assert(more.drop_last() =~= choices@.take(k as int));
                assert(commands@ =~= so_far + menu_run(clicked.0, more).1);
            }
            k = k + 1;
        }
        assert(choices@.take(choices@.len() as int) =~= choices@);
        if !self.visible {
            commands.push(Command::RepaintAfter(HIDDEN_TICK_MS));
        }
        proof {
            assert(commands@ =~= logic_pass(start, close_requested, events@, choices@).1);
            every_menu_choice_is_carried_out(start, close_requested, events@, choices@);
            every_left_click_shows_the_window(start, close_requested, events@, choices@);
        }
        commands
    }
}

/// What the window was last told to be by `commands`: visible or not; `visible`
/// if they do not say.
pub open spec fn told(visible: bool, commands: Seq<Command>) -> bool
    decreases commands.len(),
{
    if commands.len() == 0 {
        visible
    } else {
        match commands.last() {
            Command::Visible(now) => now,
            _ => told(visible, commands.drop_last()),
        }
    }
}

proof fn lemma_told_in_turn(visible: bool, first: Seq<Command>, second: Seq<Command>)
    ensures
        told(visible, first + second) == told(told(visible, first), second),
    decreases second.len(),
{
    if second.len() == 0 {
        assert(first + second =~= first);
    } else {
        assert((first + second).drop_last() =~= first + second.drop_last());
        lemma_told_in_turn(visible, first, second.drop_last());
    }
}

proof fn lemma_tray_step_told(shell: Shell, event: TrayEvent)
    ensures
        tray_step(shell, event).0.visible == told(shell.visible, tray_step(shell, event).1),
{
    reveal_with_fuel(told, 3);
}

proof fn lemma_menu_step_told(shell: Shell, choice: MenuChoice)
    ensures
        menu_step(shell, choice).0.visible == told(shell.visible, menu_step(shell, choice).1),
{
    reveal_with_fuel(told, 3);
}

proof fn lemma_tray_run_told(shell: Shell, events: Seq<TrayEvent>)
    ensures
        tray_run(shell, events).0.visible == told(shell.visible, tray_run(shell, events).1),
    decreases events.len(),
{
    if events.len() > 0 {
        let (before, commands) = tray_run(shell, events.drop_last());
        lemma_tray_run_told(shell, events.drop_last());
        lemma_tray_step_told(before, events.last());
        lemma_told_in_turn(shell.visible, commands, tray_step(before, events.last()).1);
    }
}

proof fn lemma_menu_run_told(shell: Shell, choices: Seq<MenuChoice>)
    ensures
        menu_run(shell, choices).0.visible == told(shell.visible, menu_run(shell, choices).1),
    decreases choices.len(),
{
    if choices.len() > 0 {
        let (before, commands) = menu_run(shell, choices.drop_last());
        lemma_menu_run_told(shell, choices.drop_last());
        lemma_menu_step_told(before, choices.last());
        lemma_told_in_turn(shell.visible, commands, menu_step(before, choices.last()).1);
    }
}

/// The program's idea of its window is never stale: after each pass it is what
/// the window was last told to be.
pub proof fn visible_follows_commands(
    shell: Shell,
    close_requested: bool,
    events: Seq<TrayEvent>,
    choices: Seq<MenuChoice>,
)
    ensures
        ({
            let (after, commands) = logic_pass(shell, close_requested, events, choices);
            after.visible == told(shell.visible, commands)
        }),
{
    reveal_with_fuel(told, 3);
    let (closed, first) = close_step(shell, close_requested);
    let (clicked, second) = tray_run(closed, events);
    let (chosen, third) = menu_run(clicked, choices);
    let tick = if chosen.visible {
        Seq::empty()
    } else {
        seq![Command::RepaintAfter(HIDDEN_TICK_MS)]
    };
    lemma_tray_run_told(closed, events);
    lemma_menu_run_told(clicked, choices);
    lemma_told_in_turn(shell.visible, first, second);
    lemma_told_in_turn(shell.visible, first + second, third);
    lemma_told_in_turn(shell.visible, first + second + third, tick);
}

/// `commands` show the window and bring it to the front, nothing else.
spec fn only_shows(commands: Seq<Command>) -> bool {
    forall|i: int|
        0 <= i < commands.len() ==> #[trigger] commands[i] == Command::Visible(true) || commands[i]
            == Command::Focus
}

/// Showing the window and bringing it to the front come in pairs.
spec fn fronts_when_shown(commands: Seq<Command>) -> bool {
    forall|i: int|
        #![trigger commands[i]]
        0 <= i < commands.len() ==> {
            &&& commands[i] == Command::Focus ==> i > 0 && commands[i - 1] == Command::Visible(true)
            &&& commands[i] == Command::Visible(true) ==> i + 1 < commands.len() && commands[i + 1]
                == Command::Focus
        }
}

proof fn lemma_fronts_in_turn(first: Seq<Command>, second: Seq<Command>)
    requires
        fronts_when_shown(first),
        fronts_when_shown(second),
    ensures
        fronts_when_shown(first + second),
{
    let all = first + second;
    assert forall|i: int| #![trigger all[i]] 0 <= i < all.len() implies {
        &&& all[i] == Command::Focus ==> i > 0 && all[i - 1] == Command::Visible(true)
        &&& all[i] == Command::Visible(true) ==> i + 1 < all.len() && all[i + 1] == Command::Focus
    } by {
        if i < first.len() {
            assert(first[i] == all[i]);
        } else {
            assert(second[i - first.len()] == all[i]);
        }
    }
}

proof fn lemma_tray_run_commands(shell: Shell, events: Seq<TrayEvent>)
    ensures
        tray_run(shell, events).0.should_quit == shell.should_quit,
        only_shows(tray_run(shell, events).1),
        fronts_when_shown(tray_run(shell, events).1),
    decreases events.len(),
{
    if events.len() > 0 {
        let (before, commands) = tray_run(shell, events.drop_last());
        lemma_tray_run_commands(shell, events.drop_last());
        lemma_fronts_in_turn(commands, tray_step(before, events.last()).1);
    }
}

proof fn lemma_menu_run_commands(shell: Shell, choices: Seq<MenuChoice>)
    ensures
        menu_run(shell, choices).0.should_quit == (shell.should_quit || choices.contains(
            MenuChoice::Quit,
        )),
        menu_run(shell, choices).1.contains(Command::Close) == choices.contains(MenuChoice::Quit),
        forall|i: int|
            #![trigger menu_run(shell, choices).1[i]]
            0 <= i < menu_run(shell, choices).1.len() ==> !(menu_run(
                shell,
                choices,
            ).1[i] is CancelClose) && !(menu_run(shell, choices).1[i] is RepaintAfter),
        fronts_when_shown(menu_run(shell, choices).1),
    decreases choices.len(),
{
    if choices.len() > 0 {
        let rest = choices.drop_last();
        let (before, commands) = menu_run(shell, rest);
        let more = menu_step(before, choices.last()).1;
        let all = commands + more;
        lemma_menu_run_commands(shell, rest);
        lemma_fronts_in_turn(commands, more);
        assert(menu_run(shell, choices).1 == all);
        if rest.contains(MenuChoice::Quit) {
            let i = choose|i: int| 0 <= i < rest.len() && rest[i] == MenuChoice::Quit;
            assert(choices[i] == MenuChoice::Quit);
            let j = choose|j: int| 0 <= j < commands.len() && commands[j] == Command::Close;
            assert(all[j] == Command::Close);
        } else if choices.last() == MenuChoice::Quit {
            assert(choices[choices.len() - 1] == MenuChoice::Quit);
            assert(all[commands.len() as int] == Command::Close);
        } else {
            assert forall|i: int| 0 <= i < choices.len() implies #[trigger] choices[i]
                != MenuChoice::Quit by {
                if i < rest.len() {
                    assert(rest[i] == choices[i]);
                }
            }
            assert forall|j: int| 0 <= j < all.len() implies #[trigger] all[j]
                != Command::Close by {
                if j < commands.len() {
                    assert(commands[j] == all[j]);
                }
            }
        }
    }
}

/// A request to close is turned into hiding the window, at once, unless the
/// program is to quit; then nothing stands in its way. Nothing else cancels a
/// close.
pub proof fn closing_hides_until_quit(
    shell: Shell,
    close_requested: bool,
    events: Seq<TrayEvent>,
    choices: Seq<MenuChoice>,
)
    ensures
        ({
            let commands = logic_pass(shell, close_requested, events, choices).1;
            &&& commands.contains(Command::CancelClose) <==> close_requested && !shell.should_quit
            &&& close_requested && !shell.should_quit ==> commands.len() >= 2 && commands[0]
                == Command::CancelClose && commands[1] == Command::Visible(false)
        }),
{
    let (closed, first) = close_step(shell, close_requested);
    let (clicked, second) = tray_run(closed, events);
    let third = menu_run(clicked, choices).1;
    let commands = logic_pass(shell, close_requested, events, choices).1;
    lemma_tray_run_commands(closed, events);
    lemma_menu_run_commands(clicked, choices);
    if close_requested && !shell.should_quit {
        assert(commands[0] == Command::CancelClose);
    } else {
        assert forall|i: int| 0 <= i < commands.len() implies #[trigger] commands[i]
            != Command::CancelClose by {
            if i < second.len() {
                assert(second[i] == commands[i]);
            } else if i < second.len() + third.len() {
                assert(third[i - second.len()] == commands[i]);
            }
        }
    }
}

/// The program is to quit exactly from the pass on in which the menu says so;
/// that pass, and no other, asks the window to close.
pub proof fn quitting_is_final(
    shell: Shell,
    close_requested: bool,
    events: Seq<TrayEvent>,
    choices: Seq<MenuChoice>,
)
    ensures
        ({
            let (after, commands) = logic_pass(shell, close_requested, events, choices);
            &&& after.should_quit <==> shell.should_quit || choices.contains(MenuChoice::Quit)
            &&& commands.contains(Command::Close) <==> choices.contains(MenuChoice::Quit)
        }),
{
    let (closed, first) = close_step(shell, close_requested);
    let (clicked, second) = tray_run(closed, events);
    let third = menu_run(clicked, choices).1;
    let commands = logic_pass(shell, close_requested, events, choices).1;
    lemma_tray_run_commands(closed, events);
    lemma_menu_run_commands(clicked, choices);
    let skipped = (first + second).len() as int;
    if third.contains(Command::Close) {
        let j = choose|j: int| 0 <= j < third.len() && third[j] == Command::Close;
        assert(commands[skipped + j] == Command::Close);
    } else {
        assert forall|i: int| 0 <= i < commands.len() implies #[trigger] commands[i]
            != Command::Close by {
            if first.len() <= i < skipped {
                assert(second[i - first.len()] == commands[i]);
            } else if skipped <= i < skipped + third.len() {
                assert(third[i - skipped] == commands[i]);
            }
        }
    }
}

/// Whenever the window is told to show it is brought to the front right after,
/// and at no other time.
pub proof fn showing_brings_to_front(
    shell: Shell,
    close_requested: bool,
    events: Seq<TrayEvent>,
    choices: Seq<MenuChoice>,
    i: int,
)
    requires
        0 <= i < logic_pass(shell, close_requested, events, choices).1.len(),
    ensures
        ({
            let commands = logic_pass(shell, close_requested, events, choices).1;
            &&& commands[i] == Command::Visible(true) ==> i + 1 < commands.len() && commands[i + 1]
                == Command::Focus
            &&& commands[i] == Command::Focus ==> i > 0 && commands[i - 1] == Command::Visible(true)
        }),
{
    let (closed, first) = close_step(shell, close_requested);
    let (clicked, second) = tray_run(closed, events);
    let (chosen, third) = menu_run(clicked, choices);
    let tick = if chosen.visible {
        Seq::empty()
    } else {
        seq![Command::RepaintAfter(HIDDEN_TICK_MS)]
    };
    lemma_tray_run_commands(closed, events);
    lemma_menu_run_commands(clicked, choices);
    lemma_fronts_in_turn(first, second);
    lemma_fronts_in_turn(first + second, third);
    lemma_fronts_in_turn(first + second + third, tick);
}

/// A window that ends a pass hidden runs again soon, and only such a window
/// asks for that.
pub proof fn hidden_window_keeps_ticking(
    shell: Shell,
    close_requested: bool,
    events: Seq<TrayEvent>,
    choices: Seq<MenuChoice>,
)
    ensures
        ({
            let (after, commands) = logic_pass(shell, close_requested, events, choices);
            &&& !after.visible ==> commands.len() > 0 && commands.last() == Command::RepaintAfter(
                HIDDEN_TICK_MS,
            )
            &&& after.visible ==> forall|i: int|
                0 <= i < commands.len() ==> !(#[trigger] commands[i] is RepaintAfter)
        }),
{
    let (closed, first) = close_step(shell, close_requested);
    let (clicked, second) = tray_run(closed, events);
    let third = menu_run(clicked, choices).1;
    let (after, commands) = logic_pass(shell, close_requested, events, choices);
    lemma_tray_run_commands(closed, events);
    lemma_menu_run_commands(clicked, choices);
    let skipped = (first + second).len() as int;
    if after.visible {
        assert forall|i: int| 0 <= i < commands.len() implies !(
        #[trigger] commands[i] is RepaintAfter) by {
            if first.len() <= i < skipped {
                assert(second[i - first.len()] == commands[i]);
            } else if skipped <= i {
                assert(third[i - skipped] == commands[i]);
            }
        }
    }
}

/// Choosing the menu's first entry twice leaves the window as it was.
pub proof fn showing_is_a_toggle(shell: Shell)
    ensures
        menu_step(menu_step(shell, MenuChoice::Show).0, MenuChoice::Show).0 == shell,
        menu_step(shell, MenuChoice::Show).0.visible == !shell.visible,
{
}

proof fn lemma_count_push<A>(items: Seq<A>, item: A, which: A)
    ensures
        items.push(item).to_multiset().count(which) == items.to_multiset().count(which) + (
        if item == which {
            1int
        } else {
            0
        }),
{
    broadcast use vstd::seq_lib::group_to_multiset_ensures;

    assert(items.push(item).to_multiset() =~= items.to_multiset().insert(item));
}

proof fn lemma_count_in_turn(first: Seq<Command>, second: Seq<Command>, which: Command)
    ensures
        (first + second).to_multiset().count(which) == first.to_multiset().count(which)
            + second.to_multiset().count(which),
{
    vstd::seq_lib::lemma_multiset_commutative(first, second);
}

proof fn lemma_count_none<A>(which: A)
    ensures
        Seq::<A>::empty().to_multiset().count(which) == 0,
{
    broadcast use vstd::seq_lib::group_to_multiset_ensures;

    let none = Seq::<A>::empty();
    assert(!none.contains(which));
    assert(none.to_multiset().count(which) == 0);
}

/// How often a command occurs among none, one or two of them.
proof fn lemma_count_few(first: Command, second: Command, which: Command)
    ensures
        Seq::<Command>::empty().to_multiset().count(which) == 0,
        seq![first].to_multiset().count(which) == (if first == which {
            1nat
        } else {
            0
        }),
        seq![first, second].to_multiset().count(which) == (if first == which {
            1int
        } else {
            0
        }) + (if second == which {
            1int
        } else {
            0
        }),
{
    let none = Seq::<Command>::empty();
    lemma_count_none(which);
    lemma_count_push(none, first, which);
    lemma_count_push(none.push(first), second, which);
    assert(none.push(first) =~= seq![first]);
    assert(none.push(first).push(second) =~= seq![first, second]);
}

proof fn lemma_tray_run_counts(shell: Shell, events: Seq<TrayEvent>, which: Command)
    ensures
        ({
            let left_up = TrayEvent::Click { button: MouseButton::Left, state: ButtonState::Up };
            let (after, commands) = tray_run(shell, events);
            let releases = events.to_multiset().count(left_up);
            &&& commands.to_multiset().count(which) == (if which == Command::Visible(true) || which
                == Command::Focus {
                releases
            } else {
                0
            })
            &&& after.visible == (shell.visible || releases > 0)
        }),
    decreases events.len(),
{
    let left_up = TrayEvent::Click { button: MouseButton::Left, state: ButtonState::Up };
    if events.len() == 0 {
        assert(events =~= Seq::<TrayEvent>::empty());
        lemma_count_none(left_up);
        lemma_count_none(which);
    } else {
        let rest = events.drop_last();
        let (before, commands) = tray_run(shell, rest);
        let more = tray_step(before, events.last()).1;
        lemma_tray_run_counts(shell, rest, which);
        assert(rest.push(events.last()) =~= events);
        lemma_count_push(rest, events.last(), left_up);
        lemma_count_in_turn(commands, more, which);
        lemma_count_few(Command::Visible(true), Command::Focus, which);
    }
}

proof fn lemma_menu_run_counts(shell: Shell, choices: Seq<MenuChoice>)
    ensures
        ({
            let (after, commands) = menu_run(shell, choices);
            let said = choices.to_multiset();
            let done = commands.to_multiset();
            &&& done.count(Command::ToggleStartup) == said.count(MenuChoice::Startup)
            &&& done.count(Command::Close) == said.count(MenuChoice::Quit)
            &&& done.count(Command::Visible(true)) + done.count(Command::Visible(false))
                == said.count(MenuChoice::Show)
            &&& done.count(Command::Focus) == done.count(Command::Visible(true))
            &&& said.count(MenuChoice::Show) == 0 ==> after.visible == shell.visible
        }),
    decreases choices.len(),
{
    if choices.len() == 0 {
        assert(choices =~= Seq::<MenuChoice>::empty());
        lemma_count_none(MenuChoice::Startup);
        lemma_count_none(MenuChoice::Quit);
        lemma_count_none(MenuChoice::Show);
        lemma_count_none(Command::ToggleStartup);
        lemma_count_none(Command::Close);
        lemma_count_none(Command::Focus);
        lemma_count_none(Command::Visible(true));
        lemma_count_none(Command::Visible(false));
    } else {
        let rest = choices.drop_last();
        let last = choices.last();
        let (before, commands) = menu_run(shell, rest);
        let more = menu_step(before, last).1;
        lemma_menu_run_counts(shell, rest);
        assert(rest.push(last) =~= choices);
        lemma_count_push(rest, last, MenuChoice::Startup);
        lemma_count_push(rest, last, MenuChoice::Quit);
        lemma_count_push(rest, last, MenuChoice::Show);
        let a = if more.len() > 0 {
            more[0]
        } else {
            Command::Focus
        };
        assert(more =~= Seq::<Command>::empty() || more =~= seq![a] || more =~= seq![
            Command::Visible(true),
            Command::Focus,
        ]);
        lemma_count_in_turn(commands, more, Command::ToggleStartup);
        lemma_count_in_turn(commands, more, Command::Close);
        lemma_count_in_turn(commands, more, Command::Focus);
        lemma_count_in_turn(commands, more, Command::Visible(true));
        lemma_count_in_turn(commands, more, Command::Visible(false));
        lemma_count_few(a, Command::Focus, Command::ToggleStartup);
        lemma_count_few(a, Command::Focus, Command::Close);
        lemma_count_few(a, Command::Focus, Command::Focus);
        lemma_count_few(a, Command::Focus, Command::Visible(true));
        lemma_count_few(a, Command::Focus, Command::Visible(false));
    }
}

/// How often a command occurs in a pass: as often as in its four parts.
proof fn lemma_pass_count(
    shell: Shell,
    close_requested: bool,
    events: Seq<TrayEvent>,
    choices: Seq<MenuChoice>,
    which: Command,
)
    requires
        !(which is RepaintAfter),
    ensures
        ({
            let (closed, first) = close_step(shell, close_requested);
            let (clicked, second) = tray_run(closed, events);
            let third = menu_run(clicked, choices).1;
            logic_pass(shell, close_requested, events, choices).1.to_multiset().count(which)
                == first.to_multiset().count(which) + second.to_multiset().count(which)
                + third.to_multiset().count(which)
        }),
{
    let (closed, first) = close_step(shell, close_requested);
    let (clicked, second) = tray_run(closed, events);
    let (chosen, third) = menu_run(clicked, choices);
    let tick = if chosen.visible {
        Seq::empty()
    } else {
        seq![Command::RepaintAfter(HIDDEN_TICK_MS)]
    };
    lemma_count_in_turn(first, second, which);
    lemma_count_in_turn(first + second, third, which);
    lemma_count_in_turn(first + second + third, tick, which);
    lemma_count_few(Command::RepaintAfter(HIDDEN_TICK_MS), Command::Focus, which);
}

/// Running at startup is switched exactly as often as the menu's entry for it
/// is chosen, whatever the window is doing; and the window is asked to close
/// exactly as often as quitting is chosen.
pub proof fn every_menu_choice_is_carried_out(
    shell: Shell,
    close_requested: bool,
    events: Seq<TrayEvent>,
    choices: Seq<MenuChoice>,
)
    ensures
        ({
            let commands = logic_pass(shell, close_requested, events, choices).1;
            &&& commands.to_multiset().count(Command::ToggleStartup) == choices.to_multiset().count(
                MenuChoice::Startup,
            )
            &&& commands.to_multiset().count(Command::Close) == choices.to_multiset().count(
                MenuChoice::Quit,
            )
        }),
{
    let closed = close_step(shell, close_requested).0;
    let clicked = tray_run(closed, events).0;
    lemma_pass_count(shell, close_requested, events, choices, Command::ToggleStartup);
    lemma_pass_count(shell, close_requested, events, choices, Command::Close);
    lemma_count_few(Command::CancelClose, Command::Visible(false), Command::ToggleStartup);
    lemma_count_few(Command::CancelClose, Command::Visible(false), Command::Close);
    lemma_tray_run_counts(closed, events, Command::ToggleStartup);
    lemma_tray_run_counts(closed, events, Command::Close);
    lemma_menu_run_counts(clicked, choices);
}

/// Every release of the left button on the tray icon, wherever it stands among
/// the events of a pass, shows the window and brings it to the front. Unless
/// the menu shows or hides it as well, the window is shown that often and no
/// oftener, and ends the pass visible after any release; without one it is
/// visible if it was and no request to close hid it.
pub proof fn every_left_click_shows_the_window(
    shell: Shell,
    close_requested: bool,
    events: Seq<TrayEvent>,
    choices: Seq<MenuChoice>,
)
    ensures
        ({
            let (after, commands) = logic_pass(shell, close_requested, events, choices);
            let releases = events.to_multiset().count(
                TrayEvent::Click { button: MouseButton::Left, state: ButtonState::Up },
            );
            let shown = commands.to_multiset().count(Command::Visible(true));
            let hidden = commands.to_multiset().count(Command::Visible(false));
            let fronted = commands.to_multiset().count(Command::Focus);
            let toggles = choices.to_multiset().count(MenuChoice::Show);
            &&& shown >= releases
            &&& fronted == shown
            &&& shown + hidden == releases + toggles + (if close_requested && !shell.should_quit {
                1int
            } else {
                0
            })
            &&& toggles == 0 ==> shown == releases
            &&& toggles == 0 && releases > 0 ==> after.visible
            &&& toggles == 0 && releases == 0 ==> after.visible == (shell.visible && !(
            close_requested && !shell.should_quit))
        }),
{
    let closed = close_step(shell, close_requested).0;
    let clicked = tray_run(closed, events).0;
    lemma_pass_count(shell, close_requested, events, choices, Command::Visible(true));
    lemma_pass_count(shell, close_requested, events, choices, Command::Visible(false));
    lemma_pass_count(shell, close_requested, events, choices, Command::Focus);
    lemma_count_few(Command::CancelClose, Command::Visible(false), Command::Visible(true));
    lemma_count_few(Command::CancelClose, Command::Visible(false), Command::Visible(false));
    lemma_count_few(Command::CancelClose, Command::Visible(false), Command::Focus);
    lemma_tray_run_counts(closed, events, Command::Visible(true));
    lemma_tray_run_counts(closed, events, Command::Visible(false));
    lemma_tray_run_counts(closed, events, Command::Focus);
    lemma_menu_run_counts(clicked, choices);
}

/// A pass in which nothing happened on the tray only answers a request to
/// close: the window is hidden, or nothing is done if the program is to quit.
pub proof fn quiet_pass_only_answers_the_close(shell: Shell, close_requested: bool)
    ensures
        ({
            let (after, commands) = logic_pass(
                shell,
                close_requested,
                Seq::empty(),
                Seq::empty(),
            );
            &&& after.should_quit == shell.should_quit
            &&& close_requested && !shell.should_quit ==> !after.visible && commands == seq![
                Command::CancelClose,
                Command::Visible(false),
                Command::RepaintAfter(100),
            ]
            &&& !(close_requested && !shell.should_quit) ==> after.visible == shell.visible
                && commands == (if shell.visible {
                Seq::<Command>::empty()
            } else {
                seq![Command::RepaintAfter(100)]
            })
        }),
{
    let commands = logic_pass(shell, close_requested, Seq::empty(), Seq::empty()).1;
    if close_requested && !shell.should_quit {
        assert(commands =~= seq![
            Command::CancelClose,
            Command::Visible(false),
            Command::RepaintAfter(100),
        ]);
    } else if shell.visible {
        assert(commands =~= Seq::<Command>::empty());
    } else {
        assert(commands =~= seq![Command::RepaintAfter(100)]);
    }
}

/// One more event on the tray icon after all others of a pass: a release of
/// the left button shows the window, on top of what the pass did anyway;
/// anything else changes nothing.
pub proof fn one_more_event_adds_its_own_effect(
    shell: Shell,
    close_requested: bool,
    events: Seq<TrayEvent>,
    event: TrayEvent,
)
    ensures
        ({
            let (before, commands) = logic_pass(shell, close_requested, events, Seq::empty());
            let (after, more) = logic_pass(
                shell,
                close_requested,
                events.push(event),
                Seq::empty(),
            );
            let done = if before.visible {
                commands
            } else {
                commands.drop_last()
            };
            &&& after.should_quit == before.should_quit
            &&& event == (TrayEvent::Click { button: MouseButton::Left, state: ButtonState::Up })
                ==> after.visible && more == done.push(Command::Visible(true)).push(Command::Focus)
            &&& event != (TrayEvent::Click { button: MouseButton::Left, state: ButtonState::Up })
                ==> after.visible == before.visible && more == commands
        }),
{
    let (closed, first) = close_step(shell, close_requested);
    let (clicked, second) = tray_run(closed, events);
    let (before, commands) = logic_pass(shell, close_requested, events, Seq::empty());
    let more = logic_pass(shell, close_requested, events.push(event), Seq::empty()).1;
    let done = if before.visible {
        commands
    } else {
        commands.drop_last()
    };
    assert(events.push(event).drop_last() =~= events);
    assert(done =~= first + second);
    if event == (TrayEvent::Click { button: MouseButton::Left, state: ButtonState::Up }) {
        assert(more =~= done.push(Command::Visible(true)).push(Command::Focus));
    } else {
        assert(more =~= commands);
    }
}

/// One more choice from the tray's menu after everything else of a pass: it
/// shows a hidden window and hides a visible one, switches running at startup,
/// or quits, on top of what the pass did anyway; anything else changes nothing.
pub proof fn one_more_choice_adds_its_own_effect(
    shell: Shell,
    close_requested: bool,
    events: Seq<TrayEvent>,
    choices: Seq<MenuChoice>,
    choice: MenuChoice,
)
    ensures
        ({
            let (before, commands) = logic_pass(shell, close_requested, events, choices);
            let (after, more) = logic_pass(shell, close_requested, events, choices.push(choice));
            let done = if before.visible {
                commands
            } else {
                commands.drop_last()
            };
            let tick = if before.visible {
                Seq::<Command>::empty()
            } else {
                seq![Command::RepaintAfter(100)]
            };
            &&& choice is Show ==> after.visible == !before.visible && after.should_quit
                == before.should_quit
            &&& choice is Show && before.visible ==> more == done.push(
                Command::Visible(false),
            ).push(Command::RepaintAfter(100))
            &&& choice is Show && !before.visible ==> more == done.push(
                Command::Visible(true),
            ).push(Command::Focus)
            &&& choice is Startup ==> after == before && more == done.push(Command::ToggleStartup)
                + tick
            &&& choice is Quit ==> after.should_quit && after.visible == before.visible && more
                == done.push(Command::Close) + tick
            &&& choice is Other ==> after == before && more == commands
        }),
{
    let (closed, first) = close_step(shell, close_requested);
    let (clicked, second) = tray_run(closed, events);
    let third = menu_run(clicked, choices).1;
    let (before, commands) = logic_pass(shell, close_requested, events, choices);
    let more = logic_pass(shell, close_requested, events, choices.push(choice)).1;
    let done = if before.visible {
        commands
    } else {
        commands.drop_last()
    };
    let tick = if before.visible {
        Seq::<Command>::empty()
    } else {
        seq![Command::RepaintAfter(100)]
    };
    assert(choices.push(choice).drop_last() =~= choices);
    assert(done =~= first + second + third);
    match choice {
        MenuChoice::Show => {
            if before.visible {
                assert(more =~= done.push(Command::Visible(false)).push(
                    Command::RepaintAfter(100),
                ));
            } else {
                assert(more =~= done.push(Command::Visible(true)).push(Command::Focus));
            }
        },
        MenuChoice::Startup => {
            assert(more =~= done.push(Command::ToggleStartup) + tick);
        },
        MenuChoice::Quit => {
            assert(more =~= done.push(Command::Close) + tick);
        },
        MenuChoice::Other => {
            assert(more =~= commands);
        },
    }
}

proof fn lemma_told_last(visible: bool, commands: Seq<Command>, i: int, now: bool)
    requires
        0 <= i < commands.len(),
        commands[i] == Command::Visible(now),
        forall|j: int| i < j < commands.len() ==> !(#[trigger] commands[j] is Visible),
    ensures
        told(visible, commands) == now,
    decreases commands.len(),
{
    if i < commands.len() - 1 {
        assert(!(commands[commands.len() - 1] is Visible));
        lemma_told_last(visible, commands.drop_last(), i, now);
    }
}

proof fn lemma_told_nothing(visible: bool, commands: Seq<Command>)
    requires
        forall|j: int| 0 <= j < commands.len() ==> !(#[trigger] commands[j] is Visible),
    ensures
        told(visible, commands) == visible,
    decreases commands.len(),
{
    if commands.len() > 0 {
        assert(!(commands[commands.len() - 1] is Visible));
        lemma_told_nothing(visible, commands.drop_last());
    }
}

/// The last command of a pass that shows or hides the window says what the
/// program takes it to be; without such a command nothing changed.
pub proof fn last_word_on_visibility_holds(
    shell: Shell,
    close_requested: bool,
    events: Seq<TrayEvent>,
    choices: Seq<MenuChoice>,
    i: int,
    now: bool,
)
    ensures
        ({
            let (after, commands) = logic_pass(shell, close_requested, events, choices);
            &&& 0 <= i < commands.len() && commands[i] == Command::Visible(now) && (forall|j: int|
                i < j < commands.len() ==> !(#[trigger] commands[j] is Visible)) ==> after.visible
                == now
            &&& (forall|j: int| 0 <= j < commands.len() ==> !(#[trigger] commands[j] is Visible))
                ==> after.visible == shell.visible
        }),
{
    let (after, commands) = logic_pass(shell, close_requested, events, choices);
    visible_follows_commands(shell, close_requested, events, choices);
    if 0 <= i < commands.len() && commands[i] == Command::Visible(now) && (forall|j: int|
        i < j < commands.len() ==> !(#[trigger] commands[j] is Visible)) {
        lemma_told_last(shell.visible, commands, i, now);
    }
    if forall|j: int| 0 <= j < commands.len() ==> !(#[trigger] commands[j] is Visible) {
        lemma_told_nothing(shell.visible, commands);
    }
}

} // verus!
