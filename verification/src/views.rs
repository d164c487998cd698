//! The stack of screens. Keys go to the screen on top; one it does not use
//! may still quit: `q` or Esc leaves the top screen, and on the last one
//! ends the program.

use vstd::prelude::*;
use crate::form::RunSpec;
use crate::miller::Key;
use vstd::view::View as ModelView;

verus! {

/// What a key means to the application itself.
pub enum Action {
    Quit,
}

/// The application's own meaning of a key the screen did not use.
pub fn map_key(key: Key) -> (r: Option<Action>)
    ensures
        r is Some <==> (key matches Key::Char(c) && c == 'q') || key is Esc,
{
    match key {
        Key::Char('q') | Key::Esc => Some(Action::Quit),
        _ => None,
    }
}

/// What a screen did with a key.
pub enum ViewAction<V> {
    /// Open another screen on top of this one.
    Push(V),
    /// Leave the interface and run this command.
    Run(RunSpec),
    /// The key was used.
    Consumed,
}

/// A screen.
pub trait View: Sized {
    fn handle_key(&mut self, key: Key) -> Option<ViewAction<Self>>;
    /// Advance background work (lazy loads, spinners).
    fn on_idle(&mut self);
}

/// The screens and the result after acting on what the top screen made of
/// `key`: open a screen, run a command, or, for a key it left alone, quit the
/// top screen on `q` or Esc (the last one ends the interface).
pub open spec fn settled<V>(stack: Seq<V>, action: Option<ViewAction<V>>, key: Key) -> (Seq<V>, Option<AppResult>) {
    match action {
        Some(ViewAction::Push(v)) => (stack.push(v), None),
        Some(ViewAction::Run(spec)) => (stack, Some(AppResult::Run(spec))),
        Some(ViewAction::Consumed) => (stack, None),
        None => if (key matches Key::Char(c) && c == 'q') || key is Esc {
            if stack.len() > 1 { (stack.drop_last(), None) } else { (stack, Some(AppResult::Exit)) }
        } else {
            (stack, None)
        },
    }
}

/// How the interface ended.
pub enum AppResult {
    Exit,
    Run(RunSpec),
}

pub struct App<V: View> {
    pub view_stack: Vec<V>,
}

impl<V: View> App<V> {
    pub fn new(initial: V) -> (r: Self)
        ensures
            r.view_stack@ == seq![initial],
    {
        App { view_stack: vec![initial] }
    }

    /// The screen on top, if any.
    pub fn current_view_mut(&mut self) -> (r: Option<&mut V>)
        ensures
            old(self).view_stack@.len() == 0 <==> r is None,
            r matches Some(v) ==> *v == old(self).view_stack@.last()
                && final(self).view_stack@ == old(self).view_stack@.drop_last().push(*final(v)),
            r is None ==> final(self).view_stack@ == old(self).view_stack@,
    {
        let n = self.view_stack.len();
        if n == 0 {
            None
        } else {
            Some(&mut self.view_stack[n - 1])
        }
    }

    /// Act on what the top screen made of `key`: open a screen, run a
    /// command, or, for a key it left alone, quit the top screen (the last
    /// one ends the interface).
    pub fn settle(&mut self, action: Option<ViewAction<V>>, key: Key) -> (r: Option<AppResult>)
        ensures
            match action {
                Some(ViewAction::Push(v)) => r is None && final(self).view_stack@ == old(self).view_stack@.push(v),
                Some(ViewAction::Run(spec)) => r == Some(AppResult::Run(spec)) && final(self).view_stack@ == old(self).view_stack@,
                Some(ViewAction::Consumed) => r is None && final(self).view_stack@ == old(self).view_stack@,
                None => if (key matches Key::Char(c) && c == 'q') || key is Esc {
                    if old(self).view_stack@.len() > 1 {
                        r is None && final(self).view_stack@ == old(self).view_stack@.drop_last()
                    } else {
                        r == Some(AppResult::Exit) && final(self).view_stack@ == old(self).view_stack@
                    }
                } else {
                    r is None && final(self).view_stack@ == old(self).view_stack@
                },
            },
    {
        match action {
            Some(ViewAction::Push(v)) => {
                self.view_stack.push(v);
                None
            },
            Some(ViewAction::Run(spec)) => Some(AppResult::Run(spec)),
            Some(ViewAction::Consumed) => None,
            None => match map_key(key) {
                Some(Action::Quit) => {
                    if self.view_stack.len() > 1 {
                        self.view_stack.pop();
                        None
                    } else {
                        Some(AppResult::Exit)
                    }
                },
                None => None,
            },
        }
    }

    /// Hand a key press to the top screen and act on the outcome.
    pub fn tick(&mut self, key: Key) -> (r: Option<AppResult>)
        ensures
            final(self).view_stack@.len() <= old(self).view_stack@.len() + 1,
            final(self).view_stack@.len() + 1 >= old(self).view_stack@.len(),
            old(self).view_stack@.len() == 0 ==> (final(self).view_stack@, r) == settled(old(self).view_stack@, None, key),
            old(self).view_stack@.len() > 0 ==> exists|top: V, action: Option<ViewAction<V>>|
                #![trigger settled(old(self).view_stack@.drop_last().push(top), action, key)]
                (final(self).view_stack@, r) == settled(old(self).view_stack@.drop_last().push(top), action, key),
    {
        let n = self.view_stack.len();
        let action = if n == 0 {
            None
        } else {
            let top = &mut self.view_stack[n - 1];
            top.handle_key(key)
        };
        let ghost mid = self.view_stack@;
        let ghost a = action;
        proof {
            if n > 0 {
                assert(mid == old(self).view_stack@.drop_last().push(mid.last()));
            }
        }
        let r = self.settle(action, key);
        proof {
            if n > 0 {
                assert((self.view_stack@, r) == settled(old(self).view_stack@.drop_last().push(mid.last()), a, key));
            }
        }
        r
    }

    /// Advance background work on the top screen.
    pub fn on_idle(&mut self)
        ensures
            final(self).view_stack@.len() == old(self).view_stack@.len(),
            old(self).view_stack@.len() == 0 ==> final(self).view_stack@ == old(self).view_stack@,
            old(self).view_stack@.len() > 0 ==> final(self).view_stack@.drop_last() == old(self).view_stack@.drop_last(),
    {
        let n = self.view_stack.len();
        if n > 0 {
            let top = &mut self.view_stack[n - 1];
            top.on_idle();
        }
    }
}

} // verus!
