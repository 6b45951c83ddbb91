//! The components that describe user-interface elements, and the few
//! resources shared between the passes.
//!
//! Lengths are whole numbers of layout units, a thousandth of a device
//! pixel each; fractions of a containing length are in millionths.

use vstd::prelude::*;

verus! {

/// Layout units in one device pixel.
pub const UNITS_PER_PIXEL: i64 = 1000;

/// The fraction that stands for the whole containing length.
pub const PERCENT_WHOLE: i64 = 1000000;

/// The size that an absent width or height takes: one hundred pixels.
pub const DEFAULT_SIZE: i64 = 100000;

/// A handle on an element, by its index in the host's entity table.
#[derive(Clone, Copy, Debug, PartialEq, Eq, Hash, Structural)]
pub struct Entity {
    pub id: u32,
}

impl Entity {
    pub fn new(id: u32) -> (r: Entity)
        ensures
            r.id == id,
    {
        Entity { id }
    }

    pub fn id(&self) -> (r: u32)
        ensures
            r == self.id,
    {
        self.id
    }
}

/// Size of the screen area the root elements are laid out in, in device pixels.
#[derive(Clone, Copy, Debug, PartialEq, Eq, Hash, Structural)]
pub struct Viewport {
    pub width: u32,
    pub height: u32,
}

/// A length, either fixed or relative to the containing box.
#[derive(Clone, Copy, Debug, PartialEq, Eq, Structural)]
pub enum Coordinate {
    /// A length in layout units.
    Pixel(i64),
    /// A fraction of the containing length, in millionths.
    Percent(i32),
}

/// Text to be displayed in this element.
#[derive(Clone, Debug)]
pub struct Text {
    pub text: String,
}

/// Names the component tables that the layout pass reads.
#[derive(Clone, Copy, Debug, PartialEq, Eq, Hash, Structural)]
pub enum Id {
    Position,
    Bounds,
}

/// The element that this element belongs to.
#[derive(Clone, Copy, Debug, PartialEq, Eq, Hash, Structural)]
pub struct Parent {
    pub entity: Entity,
}

/// Type of positioning. The default is `Relative`.
#[derive(Clone, Copy, Debug, PartialEq, Eq, Hash, Structural)]
pub enum PositionKind {
    /// Not held to any containing box; may overflow it.
    Free,
    /// Contained within the parent's box, in the normal flow.
    Relative,
    /// Contained within the parent's box, placed without regard to its siblings.
    Absolute,
}

impl PositionKind {
    /// Whether elements of this kind are held inside their containing box.
    pub open spec fn is_contained(self) -> bool {
        self is Relative || self is Absolute
    }

    pub fn contained(&self) -> (r: bool)
        ensures
            r == self.is_contained(),
    {
        match self {
            PositionKind::Free => false,
            _ => true,
        }
    }
}

impl Default for PositionKind {
    fn default() -> (r: PositionKind)
        ensures
            r == PositionKind::Relative,
    {
        PositionKind::Relative
    }
}

/// Where an element sits, relative to its containing box.
#[derive(Clone, Copy, Debug, PartialEq, Eq, Structural)]
pub struct Position {
    pub kind: PositionKind,
    pub x: Option<Coordinate>,
    pub y: Option<Coordinate>,
    /// Stacking order.
    pub z: Option<usize>,
}

impl Default for Position {
    fn default() -> (r: Position)
        ensures
            r == (Position { kind: PositionKind::Relative, x: None, y: None, z: None }),
    {
        Position { kind: PositionKind::Relative, x: None, y: None, z: None }
    }
}

/// The requested size of an element.
#[derive(Clone, Copy, Debug, PartialEq, Eq, Structural)]
pub struct Bounds {
    pub width: Option<Coordinate>,
    pub height: Option<Coordinate>,
}

impl Default for Bounds {
    fn default() -> (r: Bounds)
        ensures
            r == (Bounds { width: None, height: None }),
    {
        Bounds { width: None, height: None }
    }
}

/// A width or height as given, with an absent one at its default size.
pub open spec fn size_or_default(c: Option<Coordinate>) -> Coordinate {
    match c {
        Some(c) => c,
        None => Coordinate::Pixel(DEFAULT_SIZE),
    }
}

/// An x or y as given, with an absent one at the origin.
pub open spec fn offset_or_default(c: Option<Coordinate>) -> Coordinate {
    match c {
        Some(c) => c,
        None => Coordinate::Pixel(0),
    }
}

/// Margins around an element's box, in layout units.
#[derive(Clone, Copy, Debug, PartialEq, Eq, Structural)]
pub struct Display {
    pub top: i64,
    pub bottom: i64,
    pub left: i64,
    pub right: i64,
}

impl Default for Display {
    fn default() -> (r: Display)
        ensures
            r == (Display { top: 0, bottom: 0, left: 0, right: 0 }),
    {
        Display { top: 0, bottom: 0, left: 0, right: 0 }
    }
}

/// The elements whose parent is this element, derived from the `Parent`
/// components each tick.
#[derive(Clone, Debug)]
pub struct Children {
    entities: Vec<Entity>,
}

impl Children {
    pub closed spec fn view(&self) -> Seq<Entity> {
        self.entities@
    }

    pub fn new() -> (r: Children)
        ensures
            r@ == Seq::<Entity>::empty(),
    {
        Children { entities: Vec::new() }
    }

    pub fn entities(&self) -> (r: &Vec<Entity>)
        ensures
            r@ == self@,
    {
        &self.entities
    }

    pub(crate) fn push(&mut self, entity: Entity)
        ensures
            final(self)@ == old(self)@.push(entity),
    {
        self.entities.push(entity);
    }

    pub(crate) fn from_vec(entities: Vec<Entity>) -> (r: Children)
        ensures
            r@ == entities@,
    {
        Children { entities }
    }
}

impl Default for Children {
    fn default() -> (r: Children)
        ensures
            r@ == Seq::<Entity>::empty(),
    {
        Children::new()
    }
}

/// The box an element was resolved to, in layout units.
#[derive(Clone, Copy, Debug, PartialEq, Eq, Structural)]
pub struct AbsolutePosition {
    pub x: i64,
    pub y: i64,
    pub width: i64,
    pub height: i64,
    /// Stacking order.
    pub z: usize,
}

impl Default for AbsolutePosition {
    fn default() -> (r: AbsolutePosition)
        ensures
            r == (AbsolutePosition { x: 0, y: 0, width: 0, height: 0, z: 0 }),
    {
        AbsolutePosition { x: 0, y: 0, width: 0, height: 0, z: 0 }
    }
}

/// The four edges of an element as the solver resolved them, in layout units.
#[derive(Clone, Copy, Debug, PartialEq, Eq, Structural)]
pub struct Positional {
    pub left: i64,
    pub right: i64,
    pub top: i64,
    pub bottom: i64,
}

impl Positional {
    /// The box these edges bound: its upper-left corner and its size, with
    /// the given stacking order; `None` when a size does not fit in an `i64`.
    pub fn absolute(&self, z: usize) -> (r: Option<AbsolutePosition>)
        ensures
            r is Some == (i64::MIN <= self.right - self.left <= i64::MAX && i64::MIN <= self.bottom - self.top <= i64::MAX),
            r is Some ==> r->Some_0 == (AbsolutePosition {
                x: self.left,
                y: self.top,
                width: (self.right - self.left) as i64,
                height: (self.bottom - self.top) as i64,
                z,
            }),
    {
        let width = self.right as i128 - self.left as i128;
        let height = self.bottom as i128 - self.top as i128;
        if width < i64::MIN as i128 || width > i64::MAX as i128 || height < i64::MIN as i128 || height > i64::MAX as i128 {
            return None;
        }
        Some(AbsolutePosition { x: self.left, y: self.top, width: width as i64, height: height as i64, z })
    }
}

impl Default for Positional {
    fn default() -> (r: Positional)
        ensures
            r == (Positional { left: 0, right: 0, top: 0, bottom: 0 }),
    {
        Positional { left: 0, right: 0, top: 0, bottom: 0 }
    }
}

} // verus!
