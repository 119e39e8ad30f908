//! The tables of gathers and write-outs at the end of a partition.

use super::bits::{bit_at, flag_at, set_flag};
use crate::collections::{map_get, map_view};
use indexmap::IndexMap;
use vstd::prelude::*;

verus! {

/// Where a literal comes from: a bit position, whether it is inverted, and
/// whether it is constant zero before that.
pub open spec fn literal_code(pins: Map<usize, usize>, iv: usize) -> (u16, bool, bool) {
    if iv <= 1 {
        (0, iv == 1, true)
    } else {
        (pins[(iv / 2) as usize] as u16, iv % 2 == 1, false)
    }
}

/// Is the literal a constant, or does its pin have a position?
pub open spec fn has_code(pins: Map<usize, usize>, iv: usize) -> bool {
    iv <= 1 || pins.contains_key((iv / 2) as usize)
}

/// The flags of a code as they are computed.
pub open spec fn as_code(c: (u16, u8, u8)) -> (u16, bool, bool) {
    (c.0, c.1 != 0, c.2 != 0)
}

/// Gathers and write-outs, by bit position.
#[derive(Debug)]
pub struct Tables {
    /// the partial permutation instructions for sram and macro inputs, and for
    /// duplicated output pins.
    pub sram_duplicate_permute: Vec<u16>,
    /// invert bits for the same.
    pub sram_duplicate_inv: Vec<u32>,
    /// set-0 bits for the same.
    pub sram_duplicate_set0: Vec<u32>,
    /// the permutation for clock enable pins.
    pub clken_permute: Vec<u16>,
    /// invert bits for clock enables
    pub clken_inv: Vec<u32>,
    /// set-0 bits for clock enables
    pub clken_set0: Vec<u32>,
    /// invert bits for data corresponding to clock enables
    pub data_inv: Vec<u32>,
}

impl Tables {
    pub open spec fn wf(self) -> bool {
        &&& self.sram_duplicate_permute@.len() == 8192
        &&& self.sram_duplicate_inv@.len() == 256
        &&& self.sram_duplicate_set0@.len() == 256
        &&& self.clken_permute@.len() == 8192
        &&& self.clken_inv@.len() == 256
        &&& self.clken_set0@.len() == 256
        &&& self.data_inv@.len() == 256
    }

    /// What is gathered into a position.
    pub open spec fn gather(self, g: int) -> (u16, bool, bool) {
        (
            self.sram_duplicate_permute@[g],
            flag_at(self.sram_duplicate_inv@, g),
            flag_at(self.sram_duplicate_set0@, g),
        )
    }

    /// What enables the write-out of a position.
    pub open spec fn enable(self, q: int) -> (u16, bool, bool) {
        (self.clken_permute@[q], flag_at(self.clken_inv@, q), flag_at(self.clken_set0@, q))
    }

    /// Is the data at a position inverted when it is written out?
    pub open spec fn inverted(self, q: int) -> bool {
        flag_at(self.data_inv@, q)
    }

    /// Are gathers outside a range the same?
    pub open spec fn gathers_kept(self, before: Tables, lo: int, hi: int) -> bool {
        forall|g: int| 0 <= g < 8192 && !(lo <= g < hi) ==> #[trigger] self.gather(g) == before.gather(g)
    }

    /// Are write-outs outside a range the same?
    pub open spec fn enables_kept(self, before: Tables, lo: int, hi: int) -> bool {
        &&& forall|q: int| 0 <= q < 8192 && !(lo <= q < hi) ==> #[trigger] self.enable(q) == before.enable(q)
        &&& forall|q: int| 0 <= q < 8192 && !(lo <= q < hi) ==> #[trigger] self.inverted(q) == before.inverted(q)
    }

    /// Tables in which every gather is zero and nothing is ever written out.
    pub fn new() -> (t: Tables)
        ensures
            t.wf(),
            forall|g: int| 0 <= g < 8192 ==> #[trigger] t.gather(g) == (0u16, false, true),
            forall|q: int| 0 <= q < 8192 ==> #[trigger] t.enable(q) == (0u16, false, true),
            forall|q: int| 0 <= q < 8192 ==> !#[trigger] t.inverted(q),
    {
        assert forall|k: u32| k < 32 implies #[trigger] bit_at(u32::MAX, k) by {
            assert(k < 32 ==> (0xffff_ffffu32 >> k) & 1 == 1) by (bit_vector);
        }
        assert forall|k: u32| k < 32 implies !#[trigger] bit_at(0u32, k) by {
            assert(k < 32 ==> (0u32 >> k) & 1 == 0) by (bit_vector);
        }
        Tables {
            sram_duplicate_permute: vec![0u16; 8192],
            sram_duplicate_inv: vec![0u32; 256],
            sram_duplicate_set0: vec![u32::MAX; 256],
            clken_permute: vec![0u16; 8192],
            clken_inv: vec![0u32; 256],
            clken_set0: vec![u32::MAX; 256],
            data_inv: vec![0u32; 256],
        }
    }

    /// Places a gather.
    pub fn place_sram_duplicate(&mut self, pos: usize, code: (u16, u8, u8))
        requires
            old(self).wf(),
            pos < 8192,
        ensures
            final(self).wf(),
            forall|g: int|
                0 <= g < 8192 ==> #[trigger] final(self).gather(g) == (if g == pos {
                    as_code(code)
                } else {
                    old(self).gather(g)
                }),
            final(self).enables_kept(*old(self), 0, 0),
    {
        self.sram_duplicate_permute.set(pos, code.0);
        set_flag(&mut self.sram_duplicate_inv, pos, code.1);
        set_flag(&mut self.sram_duplicate_set0, pos, code.2);
        proof {
            assert forall|g: int| 0 <= g < 8192 implies #[trigger] self.gather(g) == (if g == pos {
                as_code(code)
            } else {
                old(self).gather(g)
            }) by {
                assert(flag_at(self.sram_duplicate_inv@, g) == (if g == pos {
                    code.1 != 0
                } else {
                    flag_at(old(self).sram_duplicate_inv@, g)
                }));
                assert(flag_at(self.sram_duplicate_set0@, g) == (if g == pos {
                    code.2 != 0
                } else {
                    flag_at(old(self).sram_duplicate_set0@, g)
                }));
            }
        }
    }

    /// Places the clock enable of a write-out, and whether its data is
    /// inverted.
    pub fn place_clken_datainv(
        &mut self,
        pos: usize,
        clken_iv_perm: u16,
        clken_iv_inv: u8,
        clken_iv_set0: u8,
        data_inv: u8,
    )
        requires
            old(self).wf(),
            pos < 8192,
        ensures
            final(self).wf(),
            forall|q: int|
                0 <= q < 8192 ==> #[trigger] final(self).enable(q) == (if q == pos {
                    (clken_iv_perm, clken_iv_inv != 0, clken_iv_set0 != 0)
                } else {
                    old(self).enable(q)
                }),
            forall|q: int|
                0 <= q < 8192 ==> #[trigger] final(self).inverted(q) == (if q == pos {
                    data_inv != 0
                } else {
                    old(self).inverted(q)
                }),
            final(self).gathers_kept(*old(self), 0, 0),
    {
        self.clken_permute.set(pos, clken_iv_perm);
        set_flag(&mut self.clken_inv, pos, clken_iv_inv);
        set_flag(&mut self.clken_set0, pos, clken_iv_set0);
        set_flag(&mut self.data_inv, pos, data_inv);
        proof {
            assert forall|q: int| 0 <= q < 8192 implies #[trigger] self.inverted(q) == (if q == pos {
                data_inv != 0
            } else {
                old(self).inverted(q)
            }) by {
                assert(flag_at(self.data_inv@, q) == (if q == pos {
                    data_inv != 0
                } else {
                    flag_at(old(self).data_inv@, q)
                }));
            }
            assert forall|q: int| 0 <= q < 8192 implies #[trigger] self.enable(q) == (if q == pos {
                (clken_iv_perm, clken_iv_inv != 0, clken_iv_set0 != 0)
            } else {
                old(self).enable(q)
            }) by {
                assert(flag_at(self.clken_inv@, q) == (if q == pos {
                    clken_iv_inv != 0
                } else {
                    flag_at(old(self).clken_inv@, q)
                }));
                assert(flag_at(self.clken_set0@, q) == (if q == pos {
                    clken_iv_set0 != 0
                } else {
                    flag_at(old(self).clken_set0@, q)
                }));
            }
        }
    }
}

/// Where a literal comes from: bit position, invert bit, and set-0 bit. There
/// is `None` for a pin without a position.
pub fn query_permute(pins: &IndexMap<usize, usize>, pin_iv: usize) -> (r: Option<(u16, u8, u8)>)
    requires
        forall|v: usize| #[trigger] map_view(*pins).contains_key(v) ==> map_view(*pins)[v] < 8192,
    ensures
        r is Some <==> has_code(map_view(*pins), pin_iv),
        r matches Some(c) ==> as_code(c) == literal_code(map_view(*pins), pin_iv) && c.0 < 8192 && c.1 <= 1,
{
    if pin_iv <= 1 {
        return Some((0, pin_iv as u8, 1));
    }
    match map_get(pins, pin_iv / 2) {
        Some(pos) => Some((pos as u16, (pin_iv % 2) as u8, 0)),
        None => None,
    }
}

} // verus!
