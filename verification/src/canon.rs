//! Board-symmetry canonicalization of move codes.
//!
//! A move code packs a board coordinate as `16 * x + y` with `x, y < 8`;
//! `0x88` is a pass and `0xff` the end-of-game sentinel, both fixed points of
//! every transform. The first move of a game selects one of four symmetry
//! classes, and the whole game is remapped through that class so that the
//! four symmetric openings of the empty board share one tree path.

use vstd::prelude::*;

verus! {

/// Pass move code: a real move, inserted as a child, never remapped.
pub const PASS: u8 = 0x88;

/// End-of-game sentinel: not a move, never inserted as a child.
pub const SENTINEL: u8 = 0xff;

/// The four board symmetries that keep the empty board fixed and map the
/// four legal opening moves onto each other.
#[derive(Clone, Copy)]
pub enum Class {
    /// Leaves every coordinate unchanged.
    Identity,
    /// Mirrors along the main diagonal: `(x, y)` to `(y, x)`.
    Swap,
    /// Rotates the board 180 degrees: `(x, y)` to `(7 - x, 7 - y)`.
    Neg,
    /// Rotation composed with the mirror: `(x, y)` to `(7 - y, 7 - x)`.
    NegSwap,
}

/// A code that packs an on-board coordinate (both nibbles below 8).
pub open spec fn valid_coord(m: u8) -> bool {
    m / 16 < 8 && m % 16 < 8
}

/// A byte that may stand in the move area of a record.
pub open spec fn valid_move_byte(m: u8) -> bool {
    valid_coord(m) || m == PASS || m == SENTINEL
}

/// Packs a coordinate pair back into a move code.
pub open spec fn pack(x: int, y: int) -> u8 {
    (x * 16 + y) as u8
}

/// The canonical image of move code `m` under symmetry class `c`.
/// Pass and sentinel are fixed points of every class.
pub open spec fn apply_class(c: Class, m: u8) -> u8 {
    if m == PASS || m == SENTINEL {
        m
    } else {
        let x = m as int / 16;
        let y = m as int % 16;
        match c {
            Class::Identity => m,
            Class::Swap => pack(y, x),
            Class::Neg => pack(7 - x, 7 - y),
            Class::NegSwap => pack(7 - y, 7 - x),
        }
    }
}

/// The class selected by the coordinate of a game's first move: the unique
/// symmetry that carries the move to the canonical opening `(2, 3)` when the
/// move is one of the four legal openings, and the rotated mirror otherwise.
pub open spec fn class_from_coords(x: int, y: int) -> Class {
    if x == 2 && y == 3 {
        Class::Identity
    } else if x == 3 && y == 2 {
        Class::Swap
    } else if x == 5 && y == 4 {
        Class::Neg
    } else {
        Class::NegSwap
    }
}

/// The class selected by a game's first move code.
pub open spec fn class_from_first(m: u8) -> Class {
    class_from_coords(m as int / 16, m as int % 16)
}

/// The 256-entry remapping table derived from a game's first move.
pub struct Transform {
    pub table: Vec<u8>,
}

impl Transform {
    /// The table realizes symmetry class `c`: every coordinate code maps to
    /// its canonical image, and pass and sentinel map to themselves.
    pub open spec fn is_init_for(self, c: Class) -> bool {
        &&& self.table@.len() == 256
        &&& forall|m: u8| valid_coord(m) ==> self.table@[m as int] == apply_class(c, m)
        &&& self.table@[PASS as int] == PASS
        &&& self.table@[SENTINEL as int] == SENTINEL
    }

    /// A fresh, not yet initialized table; all entries are zero.
    pub fn new() -> (t: Transform)
        ensures
            t.table@ == Seq::new(256, |i: int| 0u8),
    {
        Transform { table: vec![0u8; 256] }
    }

    /// Derives the table from the coordinate `(x, y)` of a game's first move.
    /// Every coordinate cell is rewritten for the selected class; cells that
    /// are no coordinate keep their old value except pass and sentinel.
    pub fn init(&mut self, x: u8, y: u8)
        requires
            old(self).table@.len() == 256,
        ensures
            final(self).is_init_for(class_from_coords(x as int, y as int)),
            final(self).table@.len() == 256,
            forall|k: int|
                0 <= k < 256 && !valid_coord(k as u8) && k != PASS as int && k != SENTINEL as int
                    ==> final(self).table@[k] == old(self).table@[k],
    {
        let cls: Class = if x == 2 && y == 3 {
            Class::Identity
        } else if x == 3 && y == 2 {
            Class::Swap
        } else if x == 5 && y == 4 {
            Class::Neg
        } else {
            Class::NegSwap
        };
        let mut m: usize = 0;
        while m < 256
            invariant
                m <= 256,
                self.table@.len() == 256,
                cls == class_from_coords(x as int, y as int),
                forall|k: u8| (k as int) < m && valid_coord(k)
                    ==> self.table@[k as int] == apply_class(cls, k),
                forall|k: int| 0 <= k < 256 && (k >= m || !valid_coord(k as u8))
                    ==> self.table@[k] == old(self).table@[k],
            decreases 256 - m,
        {
            let b = m as u8;
            let cx = b / 16;
            let cy = b % 16;
            if cx < 8 && cy < 8 {
                let v: u8 = match cls {
                    Class::Identity => b,
                    Class::Swap => cy * 16 + cx,
                    Class::Neg => (7 - cx) * 16 + (7 - cy),
                    Class::NegSwap => (7 - cy) * 16 + (7 - cx),
                };
                assert(v == apply_class(cls, b));
                self.table[m] = v;
            }
            m = m + 1;
        }
        self.table[0x88] = PASS;
        self.table[0xff] = SENTINEL;
    }

    /// Plain table lookup: returns the entry for code `v`.
    pub fn get(&self, v: u8) -> (r: u8)
        requires
            self.table@.len() == 256,
        ensures
            r == self.table@[v as int],
    {
        self.table[v as usize]
    }
}


/// Composition of two symmetries: applying `b` first, then `a`.
pub open spec fn class_mul(a: Class, b: Class) -> Class {
    match (a, b) {
        (Class::Identity, other) => other,
        (other, Class::Identity) => other,
        (Class::Swap, Class::Swap) => Class::Identity,
        (Class::Swap, Class::Neg) => Class::NegSwap,
        (Class::Swap, Class::NegSwap) => Class::Neg,
        (Class::Neg, Class::Swap) => Class::NegSwap,
        (Class::Neg, Class::Neg) => Class::Identity,
        (Class::Neg, Class::NegSwap) => Class::Swap,
        (Class::NegSwap, Class::Swap) => Class::Neg,
        (Class::NegSwap, Class::Neg) => Class::Swap,
        (Class::NegSwap, Class::NegSwap) => Class::Identity,
    }
}

/// Packing and unpacking of on-board coordinates round-trip.
pub proof fn lemma_unpack(x: int, y: int)
    requires
        0 <= x < 8,
        0 <= y < 8,
    ensures
        pack(x, y) as int == x * 16 + y,
        pack(x, y) as int / 16 == x,
        pack(x, y) as int % 16 == y,
        valid_coord(pack(x, y)),
        pack(x, y) != PASS,
        pack(x, y) != SENTINEL,
{
    assert(0 <= x * 16 + y < 256);
    assert((x * 16 + y) / 16 == x && (x * 16 + y) % 16 == y) by (nonlinear_arith)
        requires
            0 <= x < 8 && 0 <= y < 8,
    ;
}

/// Every symmetry carries move bytes to move bytes and fixes exactly the
/// pass and the sentinel.
pub proof fn lemma_apply_special(c: Class, m: u8)
    requires
        valid_move_byte(m),
    ensures
        valid_move_byte(apply_class(c, m)),
        apply_class(c, m) == SENTINEL <==> m == SENTINEL,
        apply_class(c, m) == PASS <==> m == PASS,
{
    if m == PASS || m == SENTINEL {
    } else {
        let x = m as int / 16;
        let y = m as int % 16;
        assert(0 <= x < 8 && 0 <= y < 8);
        lemma_unpack(x, y);
        lemma_unpack(y, x);
        lemma_unpack(7 - x, 7 - y);
        lemma_unpack(7 - y, 7 - x);
    }
}

/// Applying symmetry `b`, then symmetry `a`, is applying their composition.
pub proof fn lemma_apply_compose(a: Class, b: Class, m: u8)
    requires
        valid_move_byte(m),
    ensures
        apply_class(a, apply_class(b, m)) == apply_class(class_mul(a, b), m),
{
    if m == PASS || m == SENTINEL {
    } else {
        let x = m as int / 16;
        let y = m as int % 16;
        assert(0 <= x < 8 && 0 <= y < 8);
        vstd::arithmetic::div_mod::lemma_fundamental_div_mod(m as int, 16);
        assert(m as int == 16 * x + y);
        lemma_unpack(x, y);
        lemma_unpack(y, x);
        lemma_unpack(7 - x, 7 - y);
        lemma_unpack(7 - y, 7 - x);
        assert(pack(x, y) == m);
    }
}

/// Every symmetry is its own inverse, so composing twice cancels.
pub proof fn lemma_mul_cancel(c: Class, sigma: Class)
    ensures
        class_mul(class_mul(c, sigma), sigma) == c,
{
}

/// The class a game's first move selects commutes with reflecting the game:
/// the reflected opening selects the unreflected game's class composed with
/// the reflection.
pub proof fn lemma_class_first_symmetric(sigma: Class, m0: u8)
    requires
        m0 == 0x23 || m0 == 0x32 || m0 == 0x54 || m0 == 0x45,
    ensures
        class_from_first(apply_class(sigma, m0)) == class_mul(class_from_first(m0), sigma),
{
    let x = m0 as int / 16;
    let y = m0 as int % 16;
    lemma_unpack(x, y);
    lemma_unpack(y, x);
    lemma_unpack(7 - x, 7 - y);
    lemma_unpack(7 - y, 7 - x);
}

} // verus!
