use bract::form::RunSpec;
use bract::keymap::KeyMap;
use bract::miller::Key;
use bract::text::decimal;
use bract::views::{map_key, Action, App, AppResult, View, ViewAction};

/// A screen that opens another on Enter and runs on `r`.
struct Screen {
    depth: usize,
    idles: usize,
}

impl View for Screen {
    fn handle_key(&mut self, key: Key) -> Option<ViewAction<Self>> {
        match key {
            Key::Enter => Some(ViewAction::Push(Screen { depth: self.depth + 1, idles: 0 })),
            Key::Char('r') => Some(ViewAction::Run(RunSpec { bin: vec!["tool".into()], args: vec!["go".into()] })),
            Key::Down => Some(ViewAction::Consumed),
            _ => None,
        }
    }
    fn on_idle(&mut self) {
        self.idles += 1;
    }
}

#[test]
fn q_and_esc_quit() {
    assert!(matches!(map_key(Key::Char('q')), Some(Action::Quit)));
    assert!(matches!(map_key(Key::Esc), Some(Action::Quit)));
    assert!(map_key(Key::Char('x')).is_none());
}

#[test]
fn quitting_leaves_the_top_screen_then_ends() {
    let mut app = App::new(Screen { depth: 0, idles: 0 });
    assert!(app.tick(Key::Enter).is_none());
    assert_eq!(app.view_stack.len(), 2);
    assert!(app.tick(Key::Char('q')).is_none());
    assert_eq!(app.view_stack.len(), 1);
    assert!(matches!(app.tick(Key::Esc), Some(AppResult::Exit)));
}

#[test]
fn a_screen_that_runs_ends_the_interface_with_the_command() {
    let mut app = App::new(Screen { depth: 0, idles: 0 });
    assert!(app.tick(Key::Down).is_none());
    match app.tick(Key::Char('r')) {
        Some(AppResult::Run(spec)) => assert_eq!(spec.args, vec!["go".to_string()]),
        _ => panic!("expected a run"),
    }
}

#[test]
fn idle_time_goes_to_the_top_screen() {
    let mut app = App::new(Screen { depth: 0, idles: 0 });
    app.tick(Key::Enter);
    app.on_idle();
    assert_eq!(app.view_stack[1].idles, 1);
    assert_eq!(app.view_stack[0].idles, 0);
    assert_eq!(app.current_view_mut().unwrap().depth, 1);
}

#[test]
fn decimal_writes_numbers_without_leading_zeros() {
    assert_eq!(decimal(0), "0");
    assert_eq!(decimal(7), "7");
    assert_eq!(decimal(1024), "1024");
    assert_eq!(decimal(usize::MAX), usize::MAX.to_string());
}

#[test]
fn a_key_map_keeps_one_value_per_key() {
    let mut m: KeyMap<String, u32> = KeyMap::new();
    m.insert("a".to_string(), 1);
    m.insert("b".to_string(), 2);
    m.insert("a".to_string(), 3);
    assert_eq!(m.get(&"a".to_string()), Some(&3));
    assert_eq!(m.remove(&"b".to_string()), Some(2));
    assert!(!m.contains(&"b".to_string()));
    assert_eq!(m.remove(&"b".to_string()), None);
}
