//! rmenu library: the verified core of a wmenu-style Wayland menu.
use vstd::prelude::*;

pub mod control;
pub mod desktop;
pub mod feed;
pub mod font;
pub mod frame;
pub mod icon;
pub mod items;
pub mod menu;
pub mod num;
pub mod opts;
pub mod order;
pub mod render;
pub mod text;
pub mod timing;

verus! {
}
