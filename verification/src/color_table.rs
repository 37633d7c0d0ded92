//! The colour lookup table of the visualizer: a grid of RGB colours indexed by a
//! stereo split position (left to right) and an intensity position (dark to
//! bright).
use vstd::prelude::*;

verus! {

/// Number of split (chroma) positions of the default table.
pub const COLOR_TABLE_CHROMA_SIZE: usize = 512;

/// Number of intensity (lightness) positions of the default table.
pub const COLOR_TABLE_LIGHTNESS_SIZE: usize = 1024;

/// `p` clamped to `0..=max`.
pub open spec fn clamp_position(p: int, max: int) -> int {
    if p < 0 {
        0
    } else if p > max {
        max
    } else {
        p
    }
}

/// A table of `chroma_size * lightness_size` colours, stored split position by
/// split position.
pub struct ColorTable {
    table: Vec<(u8, u8, u8)>,
    chroma_size: usize,
    lightness_size: usize,
}

proof fn lemma_cell_offset(c: int, l: int, s: int, t: int)
    requires
        0 <= s < c,
        0 <= t < l,
    ensures
        0 <= s * l + t < c * l,
{
    assert(0 <= s * l) by (nonlinear_arith)
        requires
            0 <= s,
            0 <= l,
    ;
    assert(s * l + t < c * l) by (nonlinear_arith)
        requires
            0 <= s < c,
            0 <= t < l,
    ;
}

proof fn lemma_cell_offsets_distinct(l: int, s: int, t: int, s2: int, t2: int)
    requires
        0 <= t < l,
        0 <= t2 < l,
        0 <= s,
        0 <= s2,
        s != s2 || t != t2,
    ensures
        s * l + t != s2 * l + t2,
{
    if s < s2 {
        assert(s * l + t < s2 * l + t2) by (nonlinear_arith)
            requires
                0 <= t < l,
                0 <= t2,
                s < s2,
        ;
    } else if s2 < s {
        assert(s2 * l + t2 < s * l + t) by (nonlinear_arith)
            requires
                0 <= t2 < l,
                0 <= t,
                s2 < s,
        ;
    }
}

impl ColorTable {
    /// The table's internal invariant (which implies at least one position along
    /// each axis; `size` and `lookup_cell` state that bound).
    pub closed spec fn wf(self) -> bool {
        &&& self.chroma_size >= 1
        &&& self.lightness_size >= 1
        &&& self.chroma_size * self.lightness_size * 3 <= isize::MAX
        &&& self.table.len() == self.chroma_size * self.lightness_size
    }

    /// Number of split positions.
    pub closed spec fn chroma_size(self) -> nat {
        self.chroma_size as nat
    }

    /// Number of intensity positions.
    pub closed spec fn lightness_size(self) -> nat {
        self.lightness_size as nat
    }

    /// The colour at split position `s` and intensity position `t`.
    pub closed spec fn cell(self, s: int, t: int) -> (u8, u8, u8) {
        self.table@[s * self.lightness_size + t]
    }

    /// What `lookup_cell` gives for the (unclamped) positions `split_pos` and
    /// `intensity_pos`: the colour at the nearest position inside the table.
    pub open spec fn spec_lookup(self, split_pos: int, intensity_pos: int) -> (u8, u8, u8) {
        self.cell(
            clamp_position(split_pos, self.chroma_size() - 1),
            clamp_position(intensity_pos, self.lightness_size() - 1),
        )
    }

    /// Every colour at intensity position 0 is black.
    pub open spec fn dark_at_zero(self) -> bool {
        forall|s: int| 0 <= s < self.chroma_size() ==> #[trigger] self.cell(s, 0) == (0u8, 0u8, 0u8)
    }

    /// A table of the default size, all black.
    pub fn new() -> (t: Self)
        ensures
            t.wf(),
            t.chroma_size() == COLOR_TABLE_CHROMA_SIZE,
            t.lightness_size() == COLOR_TABLE_LIGHTNESS_SIZE,
            forall|s: int, i: int|
                0 <= s < t.chroma_size() && 0 <= i < t.lightness_size() ==> #[trigger] t.cell(s, i)
                    == (0u8, 0u8, 0u8),
    {
        Self::with_size(COLOR_TABLE_CHROMA_SIZE, COLOR_TABLE_LIGHTNESS_SIZE)
    }

    /// A table of `chroma_size` split positions by `lightness_size` intensity
    /// positions, all black.
    pub fn with_size(chroma_size: usize, lightness_size: usize) -> (t: Self)
        requires
            chroma_size >= 1,
            lightness_size >= 1,
            chroma_size * lightness_size * 3 <= isize::MAX,
        ensures
            t.wf(),
            t.chroma_size() == chroma_size,
            t.lightness_size() == lightness_size,
            forall|s: int, i: int|
                0 <= s < t.chroma_size() && 0 <= i < t.lightness_size() ==> #[trigger] t.cell(s, i)
                    == (0u8, 0u8, 0u8),
    {
        let len = chroma_size * lightness_size;
        let mut table: Vec<(u8, u8, u8)> = Vec::with_capacity(len);
        let mut k: usize = 0;
        while k < len
            invariant
                k <= len,
                table.len() == k,
                forall|m: int| 0 <= m < k ==> table@[m] == (0u8, 0u8, 0u8),
            decreases len - k,
        {
            table.push((0u8, 0u8, 0u8));
            k = k + 1;
        }
        let t = ColorTable { table, chroma_size, lightness_size };
        assert forall|s: int, i: int|
            0 <= s < t.chroma_size() && 0 <= i < t.lightness_size() implies #[trigger] t.cell(s, i)
            == (0u8, 0u8, 0u8) by {
            lemma_cell_offset(chroma_size as int, lightness_size as int, s, i);
        }
        t
    }

    /// The table's dimensions: (split positions, intensity positions).
    pub fn size(&self) -> (size: (usize, usize))
        ensures
            size.0 == self.chroma_size(),
            size.1 == self.lightness_size(),
            self.wf() ==> size.0 >= 1 && size.1 >= 1,
    {
        (self.chroma_size, self.lightness_size)
    }

    /// Fills the table: intensity position 0 is black for every split position; every
    /// other cell gets the colour that `color_at(split_index, intensity_index)` gives.
    pub fn build_with<F: Fn(usize, usize) -> (u8, u8, u8)>(&mut self, color_at: F)
        requires
            old(self).wf(),
            forall|s: usize, i: usize|
                s < old(self).chroma_size() && 1 <= i < old(self).lightness_size() ==> call_requires(
                    color_at,
                    (s, i),
                ),
        ensures
            final(self).wf(),
            final(self).chroma_size() == old(self).chroma_size(),
            final(self).lightness_size() == old(self).lightness_size(),
            final(self).dark_at_zero(),
            forall|s: usize, i: usize|
                s < final(self).chroma_size() && 1 <= i < final(self).lightness_size() ==> call_ensures(
                    color_at,
                    (s, i),
                    #[trigger] final(self).cell(s as int, i as int),
                ),
    {
        let c = self.chroma_size;
        let l = self.lightness_size;
        let mut s: usize = 0;
        while s < c
            invariant
                self.wf(),
                c == self.chroma_size,
                l == self.lightness_size,
                c == old(self).chroma_size,
                l == old(self).lightness_size,
                s <= c,
                forall|a: usize, i: usize|
                    a < c && 1 <= i < l ==> call_requires(color_at, (a, i)),
                forall|a: int| 0 <= a < s ==> #[trigger] self.cell(a, 0) == (0u8, 0u8, 0u8),
                forall|a: usize, i: usize|
                    a < s && 1 <= i < l ==> call_ensures(
                        color_at,
                        (a, i),
                        #[trigger] self.cell(a as int, i as int),
                    ),
            decreases c - s,
        {
            let mut i: usize = 0;
            while i < l
                invariant
                    self.wf(),
                    c == self.chroma_size,
                    l == self.lightness_size,
                    c == old(self).chroma_size,
                    l == old(self).lightness_size,
                    s < c,
                    i <= l,
                    forall|a: usize, j: usize|
                        a < c && 1 <= j < l ==> call_requires(color_at, (a, j)),
                    forall|a: int| 0 <= a < s ==> #[trigger] self.cell(a, 0) == (0u8, 0u8, 0u8),
                    i > 0 ==> self.cell(s as int, 0) == (0u8, 0u8, 0u8),
                    forall|a: usize, j: usize|
                        (a < s && 1 <= j < l) || (a == s && 1 <= j < i) ==> call_ensures(
                            color_at,
                            (a, j),
                            #[trigger] self.cell(a as int, j as int),
                        ),
                decreases l - i,
            {
                proof {
                    lemma_cell_offset(c as int, l as int, s as int, i as int);
                }
                let value = if i == 0 {
                    (0u8, 0u8, 0u8)
                } else {
                    color_at(s, i)
                };
                let ghost before = *self;
                self.table[s * l + i] = value;
                proof {
                    assert forall|a: int, j: int| 0 <= a < c && 0 <= j < l && (a != s || j != i) implies #[trigger] self.cell(a, j) == before.cell(a, j) by {
                        lemma_cell_offset(c as int, l as int, a, j);
                        lemma_cell_offsets_distinct(l as int, a, j, s as int, i as int);
                    }
                    assert(self.cell(s as int, i as int) == value);
                }
                i = i + 1;
            }
            s = s + 1;
        }
    }

    /// The colour at split position `split_pos` and intensity position
    /// `intensity_pos`, each first clamped into the table.
    pub fn lookup_cell(&self, split_pos: i64, intensity_pos: i64) -> (rgb: (u8, u8, u8))
        requires
            self.wf(),
        ensures
            self.chroma_size() >= 1,
            self.lightness_size() >= 1,
            rgb == self.spec_lookup(split_pos as int, intensity_pos as int),
            ({
                let c = self.chroma_size() as int;
                let l = self.lightness_size() as int;
                let s = split_pos as int;
                let t = intensity_pos as int;
                let sx = if s < 0 {
                    0
                } else if s >= c {
                    c - 1
                } else {
                    s
                };
                let ty = if t < 0 {
                    0
                } else if t >= l {
                    l - 1
                } else {
                    t
                };
                &&& 0 <= s < c && 0 <= t < l ==> rgb == self.cell(s, t)
                &&& t >= l ==> rgb == self.cell(sx, l - 1)
                &&& t < 0 ==> rgb == self.cell(sx, 0)
                &&& s >= c ==> rgb == self.cell(c - 1, ty)
                &&& s < 0 ==> rgb == self.cell(0, ty)
            }),
    {
        let x: usize = if split_pos < 0 {
            0
        } else if split_pos as u64 > (self.chroma_size - 1) as u64 {
            self.chroma_size - 1
        } else {
            split_pos as usize
        };
        let y: usize = if intensity_pos < 0 {
            0
        } else if intensity_pos as u64 > (self.lightness_size - 1) as u64 {
            self.lightness_size - 1
        } else {
            intensity_pos as usize
        };
        proof {
            lemma_cell_offset(self.chroma_size as int, self.lightness_size as int, x as int, y as int);
        }
        self.table[x * self.lightness_size + y]
    }
}

/// A lookup reads the table: a position inside the table gives that cell, and a
/// position beyond an edge gives the cell at that edge (the last split or intensity
/// position for one too large, the first for one below zero).
pub proof fn lemma_lookup_reads_table(t: ColorTable, s: int, i: int)
    ensures
        ({
            let c = t.chroma_size() as int;
            let l = t.lightness_size() as int;
            let sx = if s < 0 {
                0
            } else if s >= c {
                c - 1
            } else {
                s
            };
            let ty = if i < 0 {
                0
            } else if i >= l {
                l - 1
            } else {
                i
            };
            &&& 0 <= s < c && 0 <= i < l ==> t.spec_lookup(s, i) == t.cell(s, i)
            &&& c >= 1 && l >= 1 ==> t.spec_lookup(s, i) == t.cell(sx, ty)
        }),
{
}

/// Zero intensity is dark: in a table whose intensity position 0 is black (as every
/// built or new table is), every lookup at an intensity position of 0 or below gives
/// black, whatever the split position.
pub proof fn lemma_zero_intensity_is_black(t: ColorTable, split_pos: int, intensity_pos: int)
    requires
        t.wf(),
        t.dark_at_zero(),
        intensity_pos <= 0,
    ensures
        t.spec_lookup(split_pos, intensity_pos) == (0u8, 0u8, 0u8),
{
    let s = clamp_position(split_pos, t.chroma_size() - 1);
    assert(0 <= s < t.chroma_size());
    assert(t.cell(s, 0) == (0u8, 0u8, 0u8));
}

} // verus!
