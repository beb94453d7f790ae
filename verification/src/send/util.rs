//! The height map sent with chunks.

use vstd::prelude::*;

use crate::send::specs::ChunkSectionDataSpec;

verus! {

/// The height map of a chunk column: for the columns where a block that
/// stops motion was found, one past the height of the highest one.
pub struct HeightMap {
    motion_blocking: Vec<u16>,
}

impl View for HeightMap {
    type V = Seq<u16>;

    closed spec fn view(&self) -> Seq<u16> {
        self.motion_blocking@
    }
}

/// Whether the block at `x`, local height `y`, `z` of a section stops
/// motion.
pub open spec fn solid_at(s: ChunkSectionDataSpec, x: int, y: int, z: int) -> bool {
    let i = y * 256 + z * 16 + x;
    0 <= i < s.solid@.len() && s.solid@[i]
}

/// Looking down the sections `sections[..=k]` from the top, and within
/// section `k` from local height `y` down: one past the absolute height of
/// the first block in column `x`, `z` that stops motion.
pub open spec fn find_down(sections: Seq<ChunkSectionDataSpec>, x: int, z: int, k: int, y: int) -> Option<u16>
    decreases k + 1, y + 1,
{
    if k < 0 {
        None
    } else if y < 0 {
        find_down(sections, x, z, k - 1, 15)
    } else if solid_at(sections[k], x, y, z) {
        Some((sections[k].section_index * 16 + y + 1) as u16)
    } else {
        find_down(sections, x, z, k, y - 1)
    }
}

/// The height entry of column `x`, `z`, if one was found.
pub open spec fn column_height(sections: Seq<ChunkSectionDataSpec>, x: int, z: int) -> Option<u16> {
    find_down(sections, x, z, sections.len() - 1, 15)
}

/// Whether the position `(k2, y2)` (section, local height) comes at or before
/// `(k, y)` looking down from the top: in a lower section, or in section `k`
/// at height `y` or below.
pub open spec fn at_or_below(k: int, y: int, k2: int, y2: int) -> bool {
    (0 <= k2 < k && 0 <= y2 < 16) || (0 <= k2 == k && 0 <= y2 <= y)
}

proof fn lemma_find_down(sections: Seq<ChunkSectionDataSpec>, x: int, z: int, k: int, y: int)
    requires
        k < sections.len(),
        -1 <= y <= 15,
    ensures
        find_down(sections, x, z, k, y) is None <==> (forall|k2: int, y2: int|
            at_or_below(k, y, k2, y2) ==> !#[trigger] solid_at(sections[k2], x, y2, z)),
        find_down(sections, x, z, k, y) matches Some(h) ==> exists|k1: int, y1: int|
            {
                &&& at_or_below(k, y, k1, y1)
                &&& #[trigger] solid_at(sections[k1], x, y1, z)
                &&& h == (sections[k1].section_index * 16 + y1 + 1) as u16
                &&& forall|k2: int, y2: int|
                    at_or_below(k, y, k2, y2) && (k2 > k1 || (k2 == k1 && y2 > y1)) ==> !#[trigger] solid_at(
                        sections[k2],
                        x,
                        y2,
                        z,
                    )
            },
    decreases k + 1, y + 1,
{
    if k < 0 {
    } else if y < 0 {
        lemma_find_down(sections, x, z, k - 1, 15);
        assert forall|k2: int, y2: int| #[trigger] at_or_below(k, y, k2, y2) == at_or_below(k - 1, 15, k2, y2) by {}
    } else if solid_at(sections[k], x, y, z) {
        let h = (sections[k].section_index * 16 + y + 1) as u16;
        assert(at_or_below(k, y, k, y));
    } else {
        lemma_find_down(sections, x, z, k, y - 1);
        assert forall|k2: int, y2: int| #[trigger] at_or_below(k, y, k2, y2) && !(k2 == k && y2 == y) implies at_or_below(
            k,
            y - 1,
            k2,
            y2,
        ) by {}
        if let Some(h) = find_down(sections, x, z, k, y - 1) {
            let (k1, y1) = choose|k1: int, y1: int|
                {
                    &&& at_or_below(k, y - 1, k1, y1)
                    &&& #[trigger] solid_at(sections[k1], x, y1, z)
                    &&& h == (sections[k1].section_index * 16 + y1 + 1) as u16
                    &&& forall|k2: int, y2: int|
                        at_or_below(k, y - 1, k2, y2) && (k2 > k1 || (k2 == k1 && y2 > y1)) ==> !#[trigger] solid_at(
                            sections[k2],
                            x,
                            y2,
                            z,
                        )
                };
            assert(at_or_below(k, y, k1, y1));
        }
    }
}

/// The height entry of a column is one past the absolute height of its
/// highest block that stops motion (the sections looked at from the last
/// down, each from its top down), taken modulo 2^16; a column has no entry
/// exactly when none of its blocks stops motion.
pub proof fn law_column_height(sections: Seq<ChunkSectionDataSpec>, x: int, z: int)
    ensures
        column_height(sections, x, z) is None <==> (forall|k: int, y: int|
            0 <= k < sections.len() && 0 <= y < 16 ==> !#[trigger] solid_at(sections[k], x, y, z)),
        column_height(sections, x, z) matches Some(h) ==> exists|k: int, y: int|
            {
                &&& 0 <= k < sections.len() && 0 <= y < 16
                &&& #[trigger] solid_at(sections[k], x, y, z)
                &&& h == (sections[k].section_index * 16 + y + 1) as u16
                &&& forall|k2: int, y2: int|
                    0 <= k2 < sections.len() && 0 <= y2 < 16 && (k2 > k || (k2 == k && y2 > y))
                        ==> !#[trigger] solid_at(sections[k2], x, y2, z)
            },
{
    let n = sections.len() as int;
    lemma_find_down(sections, x, z, n - 1, 15);
    assert forall|k2: int, y2: int| #[trigger] at_or_below(n - 1, 15, k2, y2) == (0 <= k2 < n && 0 <= y2 < 16) by {}
}

/// Inserting the entries of the columns in scan order (`x` outer, `z`
/// inner), from column number `c` on, each at position `x + 16 * z` of the
/// list `acc`; `None` once a position lies past the end of the list.
pub open spec fn insert_columns(sections: Seq<ChunkSectionDataSpec>, acc: Seq<u16>, c: int) -> Option<Seq<u16>>
    decreases 256 - c,
{
    if c >= 256 || c < 0 {
        Some(acc)
    } else {
        let x = c / 16;
        let z = c % 16;
        match column_height(sections, x, z) {
            None => insert_columns(sections, acc, c + 1),
            Some(h) => {
                let at = x + 16 * z;
                if at > acc.len() {
                    None
                } else {
                    insert_columns(sections, acc.insert(at, h), c + 1)
                }
            },
        }
    }
}

/// The height of the top of every section (sixteen blocks per section)
/// can be counted in a `usize`; the entries themselves are heights taken
/// modulo 2^16.
pub open spec fn sections_in_range(sections: Seq<ChunkSectionDataSpec>) -> bool {
    forall|k: int| 0 <= k < sections.len() ==> #[trigger] sections[k].section_index * 16 + 16 <= usize::MAX
}

impl HeightMap {
    /// Builds the height map of a chunk column from its sections: without
    /// sections, every column is zero; otherwise, column by column, the
    /// height above the highest block that stops motion is inserted at the
    /// column's position in the list.
    pub fn from_sections(sections: &[ChunkSectionDataSpec]) -> (r: HeightMap)
        requires
            sections_in_range(sections@),
            sections@.len() > 0 ==> insert_columns(sections@, Seq::empty(), 0) is Some,
        ensures
            sections@.len() == 0 ==> r@ == Seq::new(256, |i: int| 0u16),
            sections@.len() > 0 ==> Some(r@) == insert_columns(
                sections@,
                Seq::empty(),
                0,
            ),
    {
        if sections.len() == 0 {
            let mut v: Vec<u16> = Vec::new();
            let mut i: usize = 0;
            while i < 256
                invariant
                    i <= 256,
                    v@ == Seq::new(i as nat, |k: int| 0u16),
                decreases 256 - i,
            {
                v.push(0);
                i = i + 1;
                proof {
                    assert(v@ =~= Seq::new(i as nat, |k: int| 0u16));
                }
            }
            return HeightMap { motion_blocking: v };
        }
        let mut heightmap: Vec<u16> = Vec::new();
        let mut c: usize = 0;
        while c < 256
            invariant
                sections.len() > 0,
                sections_in_range(sections@),
                c <= 256,
                insert_columns(sections@, Seq::empty(), 0) == insert_columns(
                    sections@,
                    heightmap@,
                    c as int,
                ),
                insert_columns(sections@, Seq::empty(), 0) is Some,
            decreases 256 - c,
        {
            let x = c / 16;
            let z = c % 16;
            let found = Self::column_top(sections, x, z);
            match found {
                None => {},
                Some(h) => {
                    let at = x + z * 16;
                    heightmap.insert(at, h);
                },
            }
            c = c + 1;
        }
        HeightMap { motion_blocking: heightmap }
    }

    /// Builds the height map as [`from_sections`](Self::from_sections) does,
    /// or gives `None` on the sections it does not take: a section whose
    /// top height a `usize` cannot count, or a column whose entry would be
    /// inserted past the end of the list.
    pub fn try_from_sections(sections: &[ChunkSectionDataSpec]) -> (r: Option<HeightMap>)
        ensures
            r is Some <==> (sections_in_range(sections@) && (sections@.len() > 0 ==> insert_columns(
                sections@,
                Seq::empty(),
                0,
            ) is Some)),
            r is Some ==> (sections@.len() == 0 ==> r->0@ == Seq::new(256, |i: int| 0u16)),
            r is Some ==> (sections@.len() > 0 ==> Some(r->0@) == insert_columns(
                sections@,
                Seq::empty(),
                0,
            )),
    {
        let mut k: usize = 0;
        while k < sections.len()
            invariant
                k <= sections@.len(),
                forall|j: int| 0 <= j < k ==> #[trigger] sections@[j].section_index * 16 + 16 <= usize::MAX,
            decreases sections@.len() - k,
        {
            if sections[k].section_index > (usize::MAX - 16) / 16 {
                return None;
            }
            k = k + 1;
        }
        if sections.len() == 0 {
            return Some(Self::from_sections(sections));
        }
        let mut heightmap: Vec<u16> = Vec::new();
        let mut c: usize = 0;
        while c < 256
            invariant
                sections.len() > 0,
                sections_in_range(sections@),
                c <= 256,
                insert_columns(sections@, Seq::empty(), 0) == insert_columns(
                    sections@,
                    heightmap@,
                    c as int,
                ),
            decreases 256 - c,
        {
            let x = c / 16;
            let z = c % 16;
            let found = Self::column_top(sections, x, z);
            match found {
                None => {},
                Some(h) => {
                    let at = x + z * 16;
                    if at > heightmap.len() {
                        return None;
                    }
                    heightmap.insert(at, h);
                },
            }
            c = c + 1;
        }
        Some(HeightMap { motion_blocking: heightmap })
    }

    /// Searches column `x`, `z` from the top section down.
    fn column_top(sections: &[ChunkSectionDataSpec], x: usize, z: usize) -> (r: Option<u16>)
        requires
            sections@.len() > 0,
            x < 16,
            z < 16,
            sections_in_range(sections@),
        ensures
            r == column_height(sections@, x as int, z as int),
    {
        let mut k: usize = sections.len();
        while k > 0
            invariant
                k <= sections@.len(),
                x < 16,
                z < 16,
                sections_in_range(sections@),
                column_height(sections@, x as int, z as int) == find_down(
                    sections@,
                    x as int,
                    z as int,
                    k - 1,
                    15,
                ),
            decreases k,
        {
            let section = &sections[k - 1];
            let mut y: usize = 16;
            while y > 0
                invariant
                    1 <= k <= sections@.len(),
                    y <= 16,
                    x < 16,
                    z < 16,
                    *section == sections@[k - 1],
                    sections_in_range(sections@),
                    column_height(sections@, x as int, z as int) == find_down(
                        sections@,
                        x as int,
                        z as int,
                        k - 1,
                        y - 1,
                    ),
                decreases y,
            {
                let i = (y - 1) * 256 + z * 16 + x;
                if i < section.solid.len() && section.solid[i] {
                    proof {
                        assert(sections@[k - 1].section_index * 16 + 16 <= usize::MAX);
                    }
                    let top = (section.section_index * 16 + y) as u16;
                    return Some(top);
                }
                y = y - 1;
            }
            k = k - 1;
        }
        None
    }

    /// The height entries, consuming the map.
    pub fn motion_blocking(self) -> (r: Vec<u16>)
        ensures
            r@ == self@,
    {
        self.motion_blocking
    }
}

} // verus!
