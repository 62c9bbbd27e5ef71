//! Ranges of keys.

use vstd::prelude::*;

use crate::order;
use crate::order::Position;

verus! {

/// One end of a range of keys.
#[derive(Debug, PartialEq, Eq)]
pub enum KeyBound {
    /// The range reaches up to this key and holds it.
    Included(Vec<u8>),
    /// The range reaches up to this key and does not hold it.
    Excluded(Vec<u8>),
    /// The range has no end on this side.
    Unbounded,
}

/// What a [`KeyBound`] stands for.
pub enum BoundView {
    Included(Seq<u8>),
    Excluded(Seq<u8>),
    Unbounded,
}

impl View for KeyBound {
    type V = BoundView;

    open spec fn view(&self) -> BoundView {
        match self {
            KeyBound::Included(k) => BoundView::Included(k@),
            KeyBound::Excluded(k) => BoundView::Excluded(k@),
            KeyBound::Unbounded => BoundView::Unbounded,
        }
    }
}

impl Clone for KeyBound {
    fn clone(&self) -> (r: Self)
        ensures
            r@ == self@,
    {
        match self {
            KeyBound::Included(k) => KeyBound::Included(k.clone()),
            KeyBound::Excluded(k) => KeyBound::Excluded(k.clone()),
            KeyBound::Unbounded => KeyBound::Unbounded,
        }
    }
}

/// A range of keys.
#[derive(Debug, PartialEq, Eq)]
pub struct KeyRange {
    /// Where the range begins.
    pub start: KeyBound,
    /// Where the range ends.
    pub end: KeyBound,
}

/// What a [`KeyRange`] stands for.
pub struct RangeView {
    pub start: BoundView,
    pub end: BoundView,
}

impl View for KeyRange {
    type V = RangeView;

    open spec fn view(&self) -> RangeView {
        RangeView { start: self.start@, end: self.end@ }
    }
}

impl Clone for KeyRange {
    fn clone(&self) -> (r: Self)
        ensures
            r@ == self@,
    {
        KeyRange { start: self.start.clone(), end: self.end.clone() }
    }
}

impl RangeView {
    /// `key` is not before the range.
    pub open spec fn starts_by(self, key: Seq<u8>) -> bool {
        match self.start {
            BoundView::Included(s) => !order::lex_lt(key, s),
            BoundView::Excluded(s) => order::lex_lt(s, key),
            BoundView::Unbounded => true,
        }
    }

    /// `key` is not after the range.
    pub open spec fn ends_after(self, key: Seq<u8>) -> bool {
        match self.end {
            BoundView::Included(e) => !order::lex_lt(e, key),
            BoundView::Excluded(e) => order::lex_lt(key, e),
            BoundView::Unbounded => true,
        }
    }

    /// `key` is in the range.
    pub open spec fn has(self, key: Seq<u8>) -> bool {
        self.starts_by(key) && self.ends_after(key)
    }

    /// The range does not end before it begins, nor does it exclude the one key
    /// it could hold from both sides.
    pub open spec fn in_order(self) -> bool {
        match (self.start, self.end) {
            (BoundView::Unbounded, _) => true,
            (_, BoundView::Unbounded) => true,
            (BoundView::Excluded(s), BoundView::Excluded(e)) => order::lex_lt(s, e),
            (BoundView::Included(s), BoundView::Included(e)) => !order::lex_lt(e, s),
            (BoundView::Included(s), BoundView::Excluded(e)) => !order::lex_lt(e, s),
            (BoundView::Excluded(s), BoundView::Included(e)) => !order::lex_lt(e, s),
        }
    }
}

impl KeyRange {
    /// Every key.
    pub fn full() -> (r: KeyRange)
        ensures
            forall|key: Seq<u8>| #[trigger] r@.has(key),
            r@.in_order(),
    {
        KeyRange { start: KeyBound::Unbounded, end: KeyBound::Unbounded }
    }

    /// The keys from `start` up to but not including `end`.
    pub fn half_open(start: Vec<u8>, end: Vec<u8>) -> (r: KeyRange)
        ensures
            r@.start == BoundView::Included(start@),
            r@.end == BoundView::Excluded(end@),
    {
        KeyRange { start: KeyBound::Included(start), end: KeyBound::Excluded(end) }
    }

    /// Whether `key` is in the range.
    pub fn contains(&self, key: &[u8]) -> (r: bool)
        ensures
            r == self@.has(key@),
    {
        let starts: bool = match &self.start {
            KeyBound::Included(s) => match order::position(key, s) {
                Position::Before => false,
                _ => true,
            },
            KeyBound::Excluded(s) => match order::position(key, s) {
                Position::After => true,
                _ => false,
            },
            KeyBound::Unbounded => true,
        };
        let ends: bool = match &self.end {
            KeyBound::Included(e) => match order::position(key, e) {
                Position::After => false,
                _ => true,
            },
            KeyBound::Excluded(e) => match order::position(key, e) {
                Position::Before => true,
                _ => false,
            },
            KeyBound::Unbounded => true,
        };
        starts && ends
    }

    /// Whether the range is in order: a scan over one that is not is a mistake
    /// of the caller.
    pub fn is_in_order(&self) -> (r: bool)
        ensures
            r == self@.in_order(),
    {
        match &self.start {
            KeyBound::Unbounded => true,
            KeyBound::Excluded(s) => match &self.end {
                KeyBound::Unbounded => true,
                KeyBound::Excluded(e) => match order::position(s, e) {
                    Position::Before => true,
                    _ => false,
                },
                KeyBound::Included(e) => match order::position(s, e) {
                    Position::After => false,
                    _ => true,
                },
            },
            KeyBound::Included(s) => match &self.end {
                KeyBound::Unbounded => true,
                KeyBound::Excluded(e) => match order::position(s, e) {
                    Position::After => false,
                    _ => true,
                },
                KeyBound::Included(e) => match order::position(s, e) {
                    Position::After => false,
                    _ => true,
                },
            },
        }
    }
}

/// Which keys a range has: an end that is included is in the range and one that is excluded is
/// not, a missing one shuts nothing out, and all that lies between the ends is in it. A range
/// is out of order exactly if it ends before it begins, or begins and ends with one key that
/// both ends exclude.
pub proof fn lemma_range_keys(r: RangeView, key: Seq<u8>)
    ensures
        r.has(key) <==> {
            &&& match r.start {
                BoundView::Included(s) => key == s || order::lex_lt(s, key),
                BoundView::Excluded(s) => order::lex_lt(s, key),
                BoundView::Unbounded => true,
            }
            &&& match r.end {
                BoundView::Included(e) => key == e || order::lex_lt(key, e),
                BoundView::Excluded(e) => order::lex_lt(key, e),
                BoundView::Unbounded => true,
            }
        },
        r.in_order() <==> !(match (r.start, r.end) {
            (BoundView::Included(s), BoundView::Included(e)) => order::lex_lt(e, s),
            (BoundView::Included(s), BoundView::Excluded(e)) => order::lex_lt(e, s),
            (BoundView::Excluded(s), BoundView::Included(e)) => order::lex_lt(e, s),
            (BoundView::Excluded(s), BoundView::Excluded(e)) => order::lex_lt(e, s) || e == s,
            _ => false,
        }),
{
    order::lemma_lex_irreflexive(key);
    match r.start {
        BoundView::Included(s) => {
            order::lemma_lex_total(s, key);
            if order::lex_lt(s, key) {
                order::lemma_lex_asymmetric(s, key);
            }
        },
        _ => {},
    }
    match r.end {
        BoundView::Included(e) => {
            order::lemma_lex_total(key, e);
            if order::lex_lt(key, e) {
                order::lemma_lex_asymmetric(key, e);
            }
        },
        _ => {},
    }
    match (r.start, r.end) {
        (BoundView::Excluded(s), BoundView::Excluded(e)) => {
            order::lemma_lex_irreflexive(s);
            order::lemma_lex_total(s, e);
            if order::lex_lt(s, e) {
                order::lemma_lex_asymmetric(s, e);
            }
        },
        _ => {},
    }
}

} // verus!
