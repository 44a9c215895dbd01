use vstd::prelude::*;
use std::collections::HashMap;
use crate::offsets::color_offsets;
use crate::types::{
    color_key, color_key_of, lemma_color_key_injective, Color, ColorOffset, Location, RegionId,
};

verus! {

/// The index after every colour of region `source` has been handed to
/// region `target`.
pub open spec fn relabeled_colors(
    m: Map<Color, (Location, RegionId)>,
    source: RegionId,
    target: RegionId,
) -> Map<Color, (Location, RegionId)> {
    Map::new(
        |c: Color| m.dom().contains(c),
        |c: Color|
            if m[c].1 == source {
                (m[c].0, target)
            } else {
                m[c]
            },
    )
}

/// The colour that lies at a displacement from another, unless a channel
/// leaves the range of a byte.
pub open spec fn probe(color: Color, o: ColorOffset) -> Option<Color> {
    let r = color.red + o.red;
    let g = color.green + o.green;
    let b = color.blue + o.blue;
    if 0 <= r <= 255 && 0 <= g <= 255 && 0 <= b <= 255 {
        Some(Color { red: r as u8, green: g as u8, blue: b as u8 })
    } else {
        None
    }
}

/// The displacement leads from `color` to a colour that has been placed.
pub open spec fn is_hit(
    color: Color,
    o: ColorOffset,
    assigned: Map<Color, (Location, RegionId)>,
) -> bool {
    probe(color, o) is Some && assigned.dom().contains(probe(color, o)->0)
}

/// The first position from `from` on at which the table leads to a placed
/// colour; the table's length if there is none.
pub open spec fn first_hit(
    color: Color,
    offsets: Seq<ColorOffset>,
    assigned: Map<Color, (Location, RegionId)>,
    from: int,
) -> int
    decreases offsets.len() - from,
{
    if from >= offsets.len() {
        offsets.len() as int
    } else if is_hit(color, offsets[from], assigned) {
        from
    } else {
        first_hit(color, offsets, assigned, from + 1)
    }
}

/// Where the placed colour nearest to `color` lies and which region owns
/// that cell: the entry of the first placed colour that the table leads to.
pub open spec fn target_of(
    color: Color,
    offsets: Seq<ColorOffset>,
    assigned: Map<Color, (Location, RegionId)>,
) -> Option<(Location, RegionId)> {
    let i = first_hit(color, offsets, assigned, 0);
    if i < offsets.len() {
        Some(assigned[probe(color, offsets[i])->0])
    } else {
        None
    }
}

/// `first_hit` is a hit, and the first one.
pub proof fn lemma_first_hit(
    color: Color,
    offsets: Seq<ColorOffset>,
    assigned: Map<Color, (Location, RegionId)>,
    from: int,
)
    requires
        0 <= from <= offsets.len(),
    ensures
        from <= first_hit(color, offsets, assigned, from) <= offsets.len(),
        first_hit(color, offsets, assigned, from) < offsets.len() ==> is_hit(
            color,
            offsets[first_hit(color, offsets, assigned, from)],
            assigned,
        ),
        forall|j: int|
            from <= j < first_hit(color, offsets, assigned, from) ==> !is_hit(
                color,
                #[trigger] offsets[j],
                assigned,
            ),
    decreases offsets.len() - from,
{
    if from < offsets.len() && !is_hit(color, offsets[from], assigned) {
        lemma_first_hit(color, offsets, assigned, from + 1);
    }
}

/// Where a colour landed and which region owns that cell now.
pub struct AssignedColors {
    index: HashMap<u32, usize>,
    entries: Vec<(Color, Location, RegionId)>,
}

impl AssignedColors {
    /// The cell and the region of each placed colour.
    pub closed spec fn view(&self) -> Map<Color, (Location, RegionId)> {
        Map::new(
            |c: Color| self.index@.contains_key(color_key(c)),
            |c: Color|
                {
                    let e = self.entries@[self.index@[color_key(c)] as int];
                    (e.1, e.2)
                },
        )
    }

    /// Each colour's number leads to an entry of that colour.
    pub closed spec fn wf(&self) -> bool {
        forall|k: u32| #[trigger]
            self.index@.contains_key(k) ==> self.index@[k] < self.entries@.len() && color_key(
                self.entries@[self.index@[k] as int].0,
            ) == k
    }

    /// An index without any colour.
    pub fn new() -> (a: AssignedColors)
        ensures
            a.wf(),
            a@ == Map::<Color, (Location, RegionId)>::empty(),
    {
        let a = AssignedColors { index: HashMap::new(), entries: Vec::new() };
        proof {
            assert(a@ =~= Map::<Color, (Location, RegionId)>::empty());
        }
        a
    }

    /// The entry of a colour, if it has been placed.
    pub fn get(&self, color: &Color) -> (r: Option<(Location, RegionId)>)
        requires
            self.wf(),
        ensures
            r == (if self@.dom().contains(*color) {
                Some(self@[*color])
            } else {
                None
            }),
    {
        let key = color_key_of(color);
        match self.index.get(&key) {
            Some(i) => {
                let e = self.entries[*i];
                Some((e.1, e.2))
            },
            None => None,
        }
    }

    /// Records where a colour landed; an earlier entry of the same colour
    /// is replaced.
    pub fn insert(&mut self, color: Color, location: Location, region: RegionId)
        requires
            old(self).wf(),
        ensures
            final(self).wf(),
            final(self)@ == old(self)@.insert(color, (location, region)),
    {
        let key = color_key_of(&color);
        let at = self.entries.len();
        self.entries.push((color, location, region));
        self.index.insert(key, at);
        proof {
            assert forall|c: Color| final(self)@.dom().contains(c) implies #[trigger] final(self)@[c]
                == old(self)@.insert(color, (location, region))[c] by {
                lemma_color_key_injective(c, color);
            }
            assert forall|c: Color|
                final(self)@.dom().contains(c) <==> old(self)@.insert(
                    color,
                    (location, region),
                ).dom().contains(c) by {
                lemma_color_key_injective(c, color);
            }
            assert(final(self)@ =~= old(self)@.insert(color, (location, region)));
        }
    }

    /// Hands every colour of region `source` to region `target`.
    pub fn relabel(&mut self, source: RegionId, target: RegionId)
        requires
            old(self).wf(),
        ensures
            final(self).wf(),
            final(self)@ == relabeled_colors(old(self)@, source, target),
    {
        let n = self.entries.len();
        let mut i: usize = 0;
        while i < n
            invariant
                i <= n,
                n == self.entries@.len(),
                n == old(self).entries@.len(),
                self.index == old(self).index,
                forall|j: int|
                    0 <= j < n ==> (#[trigger] self.entries@[j]).0 == old(self).entries@[j].0
                        && self.entries@[j].1 == old(self).entries@[j].1,
                forall|j: int|
                    0 <= j < i ==> (#[trigger] self.entries@[j]).2 == (if old(self).entries@[j].2
                        == source {
                        target
                    } else {
                        old(self).entries@[j].2
                    }),
                forall|j: int| i <= j < n ==> (#[trigger] self.entries@[j]).2 == old(
                    self,
                ).entries@[j].2,
            decreases n - i,
        {
            let e = self.entries[i];
            if e.2 == source {
                self.entries[i] = (e.0, e.1, target);
            }
            i += 1;
        }
        proof {
            assert(final(self)@ =~= relabeled_colors(old(self)@, source, target));
        }
    }
}

/// Finds the placed colour nearest to `color` by trying the displacements
/// of the table in order, and returns its cell and that cell's region;
/// `None` when no displacement of the table leads to a placed colour.
pub fn find_target_cell_and_frontier(
    color: Color,
    color_offsets: &Vec<ColorOffset>,
    assigned_colors: &AssignedColors,
) -> (r: Option<(Location, RegionId)>)
    requires
        assigned_colors.wf(),
    ensures
        r == target_of(color, color_offsets@, assigned_colors@),
{
    let n = color_offsets.len();
    let mut i: usize = 0;
    while i < n
        invariant
            i <= n,
            n == color_offsets@.len(),
            assigned_colors.wf(),
            first_hit(color, color_offsets@, assigned_colors@, 0) == first_hit(
                color,
                color_offsets@,
                assigned_colors@,
                i as int,
            ),
        decreases n - i,
    {
        let offset = color_offsets[i];
        let new0 = color.red as i32 + offset.red as i32;
        let new1 = color.green as i32 + offset.green as i32;
        let new2 = color.blue as i32 + offset.blue as i32;
        if 0 <= new0 && new0 <= 255 && 0 <= new1 && new1 <= 255 && 0 <= new2 && new2 <= 255 {
            let near = Color { red: new0 as u8, green: new1 as u8, blue: new2 as u8 };
            match assigned_colors.get(&near) {
                Some(found) => {
                    return Some(found);
                },
                None => {},
            }
        }
        i += 1;
    }
    None
}

} // verus!
