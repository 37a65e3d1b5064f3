//! Glyphs as sequences of primitives in glyph space, and the table that maps
//! characters to glyphs.
//!
//! Glyph space is the unit square `[0, 1] x [0, 1]` with `y` growing downward;
//! coordinates are written in thousandths of it, so `500` is the middle.
use vstd::prelude::*;

verus! {

/// Glyph-space units in one em: a coordinate of `UNITS_PER_EM` is `1.0`.
pub const UNITS_PER_EM: u32 = 1000;

/// One drawable shape of a glyph, in glyph-space units.
#[derive(Clone, Copy, Debug, PartialEq, Eq)]
pub enum Primitive {
    /// A straight segment from `(x1, y1)` to `(x2, y2)`.
    Segment { x1: u32, y1: u32, x2: u32, y2: u32 },
    /// A quadratic curve from `(x1, y1)` through control point `(cx, cy)` to `(x2, y2)`.
    QuadCurve { x1: u32, y1: u32, cx: u32, cy: u32, x2: u32, y2: u32 },
}

/// The vector outline of one character.
#[derive(Debug)]
pub struct Glyph {
    /// The shapes drawn for the character, in order; none renders blank space.
    pub primitives: Vec<Primitive>,
    /// The nominal advance, in glyph-space units.
    pub width: u32,
}

/// The glyph that `entries` gives for `c`: the last entry with that key.
pub open spec fn entry_lookup(entries: Seq<(char, Glyph)>, c: char) -> Option<Glyph>
    decreases entries.len(),
{
    if entries.len() == 0 {
        None
    } else if entries.last().0 == c {
        Some(entries.last().1)
    } else {
        entry_lookup(entries.drop_last(), c)
    }
}

/// No two entries share a key.
pub open spec fn keys_unique(entries: Seq<(char, Glyph)>) -> bool {
    forall|i: int, j: int| 0 <= i < j < entries.len() ==> entries[i].0 != entries[j].0
}

/// Replacing the one entry with key `c` changes what `c` gives and nothing else.
proof fn lemma_lookup_update(entries: Seq<(char, Glyph)>, k: int, c: char, g: Glyph, d: char)
    requires
        keys_unique(entries),
        0 <= k < entries.len(),
        entries[k].0 == c,
    ensures
        entry_lookup(entries.update(k, (c, g)), d) == (if d == c { Some(g) } else { entry_lookup(entries, d) }),
    decreases entries.len(),
{
    let u = entries.update(k, (c, g));
    if k == entries.len() - 1 {
        assert(u.drop_last() =~= entries.drop_last());
    } else {
        assert(u.drop_last() =~= entries.drop_last().update(k, (c, g)));
        lemma_lookup_update(entries.drop_last(), k, c, g, d);
    }
}

/// A mapping from characters to glyphs, each character at most once.
pub struct GlyphTable {
    entries: Vec<(char, Glyph)>,
}

impl View for GlyphTable {
    type V = Map<char, Glyph>;

    closed spec fn view(&self) -> Map<char, Glyph> {
        Map::new(
            |c: char| entry_lookup(self.entries@, c) is Some,
            |c: char| entry_lookup(self.entries@, c)->Some_0,
        )
    }
}

impl GlyphTable {
    /// The table's storage holds each key once.
    pub closed spec fn wf(&self) -> bool {
        keys_unique(self.entries@)
    }

    /// An empty table.
    pub fn new() -> (r: GlyphTable)
        ensures
            r.wf(),
            r@ == Map::<char, Glyph>::empty(),
    {
        let r = GlyphTable { entries: Vec::new() };
        assert(r@ =~= Map::<char, Glyph>::empty());
        r
    }

    /// Maps `c` to `g`, replacing the glyph that `c` had.
    pub fn insert(&mut self, c: char, g: Glyph)
        requires
            old(self).wf(),
        ensures
            final(self).wf(),
            final(self)@ == old(self)@.insert(c, g),
    {
        let ghost before = self.entries@;
        let mut i: usize = 0;
        while i < self.entries.len()
            invariant
                i <= self.entries.len(),
                self.entries@ == before,
                before == old(self).entries@,
                keys_unique(before),
                forall|j: int| 0 <= j < i ==> self.entries@[j].0 != c,
            decreases self.entries.len() - i,
        {
            if self.entries[i].0 == c {
                self.entries.set(i, (c, g));
                proof {
                    assert(self.entries@ == before.update(i as int, (c, g)));
                    assert(forall|j: int| 0 <= j < before.len() ==> #[trigger] self.entries@[j].0 == before[j].0);
                    assert forall|d: char| #[trigger] self@.contains_key(d) == old(self)@.insert(c, g).contains_key(d)
                        && (self@.contains_key(d) ==> self@[d] == old(self)@.insert(c, g)[d]) by {
                        lemma_lookup_update(before, i as int, c, g, d);
                    }
                    assert(self@ =~= old(self)@.insert(c, g));
                }
                return;
            }
            i = i + 1;
        }
        self.entries.push((c, g));
        proof {
            assert(self.entries@.drop_last() =~= before);
            assert(self@ =~= old(self)@.insert(c, g));
        }
    }

    /// The glyph for `c`, or `None` when the table has none.
    pub fn lookup(&self, c: char) -> (r: Option<&Glyph>)
        ensures
            match r {
                Some(g) => self@.contains_key(c) && self@[c] == *g,
                None => !self@.contains_key(c),
            },
    {
        let mut i: usize = self.entries.len();
        assert(self.entries@.take(i as int) =~= self.entries@);
        while i > 0
            invariant
                i <= self.entries.len(),
                entry_lookup(self.entries@, c) == entry_lookup(self.entries@.take(i as int), c),
            decreases i,
        {
            assert(self.entries@.take(i as int).drop_last() =~= self.entries@.take(i - 1));
            if self.entries[i - 1].0 == c {
                return Some(&self.entries[i - 1].1);
            }
            i = i - 1;
        }
        None
    }
}

} // verus!
