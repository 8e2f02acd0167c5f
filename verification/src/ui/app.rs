//! The state of the terminal view and how a key press changes it.

use vstd::prelude::*;
use std::collections::HashMap;
use crate::collector::CoreMetrics;
use crate::topology::SystemTopology;

verus! {

/// The view's state: the topology it maps, the latest metrics, and its flags.
pub struct App {
    pub topo: SystemTopology,
    pub metrics: HashMap<u32, CoreMetrics>,
    pub should_quit: bool,
    pub show_help: bool,
}

/// A key press, as the view tells keys apart.
#[derive(Clone, Copy, Debug, PartialEq, Eq, Structural)]
pub enum KeyPress {
    Char(char),
    Esc,
    Other,
}

/// The flags of the view: whether to quit, whether the help is shown.
pub open spec fn flags(app: &App) -> (bool, bool) {
    (app.should_quit, app.show_help)
}

/// The flags after a key press: `q` or Esc quits, `h` or `?` shows or hides
/// the help, any other key changes nothing.
pub open spec fn after_key(f: (bool, bool), key: KeyPress) -> (bool, bool) {
    match key {
        KeyPress::Char('q') | KeyPress::Esc => (true, f.1),
        KeyPress::Char('h') | KeyPress::Char('?') => (f.0, !f.1),
        _ => f,
    }
}

impl App {
    /// The view of `topo`, with no metrics yet, running, help hidden.
    pub fn new(topo: SystemTopology) -> (app: Self)
        ensures
            app.topo == topo,
            app.metrics@ == Map::<u32, CoreMetrics>::empty(),
            !app.should_quit,
            !app.show_help,
    {
        App { topo, metrics: HashMap::new(), should_quit: false, show_help: false }
    }

    /// Replaces the metrics with a new round's.
    pub fn update_metrics(&mut self, new_metrics: HashMap<u32, CoreMetrics>)
        ensures
            final(self).metrics@ == new_metrics@,
            final(self).topo == old(self).topo,
            flags(final(self)) == flags(old(self)),
    {
        self.metrics = new_metrics;
    }

    /// Asks the view to stop.
    pub fn quit(&mut self)
        ensures
            final(self).should_quit,
            final(self).show_help == old(self).show_help,
            final(self).topo == old(self).topo,
            final(self).metrics@ == old(self).metrics@,
    {
        self.should_quit = true;
    }

    /// Shows the help if hidden, hides it if shown.
    pub fn toggle_help(&mut self)
        ensures
            final(self).show_help == !old(self).show_help,
            final(self).should_quit == old(self).should_quit,
            final(self).topo == old(self).topo,
            final(self).metrics@ == old(self).metrics@,
    {
        self.show_help = !self.show_help;
    }

    /// Applies a key press.
    pub fn handle_key(&mut self, key: KeyPress)
        ensures
            flags(final(self)) == after_key(flags(old(self)), key),
            final(self).topo == old(self).topo,
            final(self).metrics@ == old(self).metrics@,
    {
        match key {
            KeyPress::Char('q') | KeyPress::Esc => self.quit(),
            KeyPress::Char('h') | KeyPress::Char('?') => self.toggle_help(),
            _ => {},
        }
    }
}

/// Pressing `h` (or `?`) twice leaves the flags as they were.
pub proof fn law_help_toggles_back(f: (bool, bool), first: char, second: char)
    requires
        first == 'h' || first == '?',
        second == 'h' || second == '?',
    ensures
        after_key(after_key(f, KeyPress::Char(first)), KeyPress::Char(second)) == f,
{
}

/// Once the view is told to quit, no key press takes that back.
pub proof fn law_quit_is_final(f: (bool, bool), key: KeyPress)
    requires
        f.0,
    ensures
        after_key(f, key).0,
{
}

} // verus!
