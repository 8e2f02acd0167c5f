//! What the terminal view shows, decided apart from drawing it: which
//! sockets, caches and cores make up the map, the labels of a core, and the
//! shares of the screen that the layout gives out.

pub mod app;
pub mod layout;
