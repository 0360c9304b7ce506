use vstd::prelude::*;
use crate::geometry::Point;

verus! {

/// The center of key `c` in a table of keys: the first entry for `c`, if any.
pub open spec fn find_center(keys: Seq<(char, Point)>, c: char) -> Option<Point>
    decreases keys.len(),
{
    if keys.len() == 0 {
        None
    } else if keys[0].0 == c {
        Some(keys[0].1)
    } else {
        find_center(keys.drop_first(), c)
    }
}

/// The keyboard: the center of each key, in the frame that drawn paths use.
pub struct KeyLayout {
    keys: Vec<(char, Point)>,
}

impl KeyLayout {
    /// The table of keys, in the order given.
    pub closed spec fn view(&self) -> Seq<(char, Point)> {
        self.keys@
    }

    /// The center of key `c`; where `c` is listed twice the first entry counts.
    pub open spec fn center_of(&self, c: char) -> Option<Point> {
        find_center(self.view(), c)
    }

    /// A layout from a table of key centers.
    pub fn new(keys: Vec<(char, Point)>) -> (l: KeyLayout)
        ensures
            l.view() == keys@,
    {
        KeyLayout { keys }
    }

    /// True when the layout has no key.
    pub fn is_empty(&self) -> (r: bool)
        ensures
            r == (self.view().len() == 0),
    {
        self.keys.len() == 0
    }

    /// The center of the key for `c`, or `None` where no key carries it.
    pub fn center(&self, c: char) -> (r: Option<Point>)
        ensures
            r == self.center_of(c),
    {
        let ghost v = self.keys@;
        let mut i: usize = 0;
        assert(v.skip(0) =~= v);
        while i < self.keys.len()
            invariant
                i <= self.keys.len(),
                v == self.keys@,
                find_center(v, c) == find_center(v.skip(i as int), c),
            decreases self.keys.len() - i,
        {
            assert(v.skip(i as int).drop_first() =~= v.skip(i + 1));
            assert(v.skip(i as int)[0] == v[i as int]);
            if self.keys[i].0 == c {
                return Some(self.keys[i].1);
            }
            i += 1;
        }
        None
    }
}

} // verus!
