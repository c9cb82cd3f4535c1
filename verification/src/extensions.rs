//! Note descriptors for chart rows.
//!
//! A row holds one `Key` per stage column. The key type decides whether the
//! column must be pressed by a foot part (normal notes and slider starts) or
//! must be avoided (mines).

use vstd::prelude::*;

verus! {

/// The kind of note standing on one column of a row.
#[derive(Debug, Clone, Copy, PartialEq, Eq, Hash, Structural)]
pub enum KeyType {
    Empty,
    Normal,
    Mine,
    SliderStart,
    SliderEnd,
}

/// Key types that a foot part must press.
pub open spec fn press_required(k: KeyType) -> bool {
    k == KeyType::Normal || k == KeyType::SliderStart
}

/// Key types that a foot must stay away from.
pub open spec fn release_required(k: KeyType) -> bool {
    k == KeyType::Mine
}

/// Press and release demands of a note descriptor.
pub trait HasPressRequirement {
    spec fn press_spec(&self) -> bool;

    spec fn release_spec(&self) -> bool;

    fn require_press(&self) -> (r: bool)
        ensures
            r == self.press_spec(),
    ;

    fn require_release(&self) -> (r: bool)
        ensures
            r == self.release_spec(),
    ;
}

impl HasPressRequirement for KeyType {
    open spec fn press_spec(&self) -> bool {
        press_required(*self)
    }

    open spec fn release_spec(&self) -> bool {
        release_required(*self)
    }

    fn require_press(&self) -> (r: bool)
        ensures
            r == press_required(*self),
    {
        matches!(self, KeyType::Normal | KeyType::SliderStart)
    }

    fn require_release(&self) -> (r: bool)
        ensures
            r == release_required(*self),
    {
        matches!(self, KeyType::Mine)
    }
}

/// One note of a row.
#[derive(Debug, Clone, Copy, PartialEq, Eq, Hash, Structural)]
pub struct Key {
    pub key_type: KeyType,
}

impl Key {
    pub fn empty() -> (r: Key)
        ensures
            r.key_type == KeyType::Empty,
    {
        Key { key_type: KeyType::Empty }
    }

    pub fn normal() -> (r: Key)
        ensures
            r.key_type == KeyType::Normal,
    {
        Key { key_type: KeyType::Normal }
    }

    pub fn mine() -> (r: Key)
        ensures
            r.key_type == KeyType::Mine,
    {
        Key { key_type: KeyType::Mine }
    }
}

} // verus!
