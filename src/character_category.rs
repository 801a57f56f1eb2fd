use vstd::prelude::*;

verus! {

/// Category bit of characters that no range names.
pub const DEFAULT_CATEGORY: u32 = 1;

/// The code points `low..=high` carry the category bits `categories`.
pub struct CategoryRange {
    pub low: u32,
    pub high: u32,
    pub categories: u32,
}

/// Classifies characters into sets of categories, as bits of a `u32`.
pub struct CharacterCategory {
    pub ranges: Vec<CategoryRange>,
}

/// The union of the categories of every range holding `c`.
pub open spec fn range_categories(ranges: Seq<CategoryRange>, c: u32) -> u32
    decreases ranges.len(),
{
    if ranges.len() == 0 {
        0
    } else {
        let rest = range_categories(ranges.drop_last(), c);
        let r = ranges.last();
        if r.low <= c && c <= r.high {
            rest | r.categories
        } else {
            rest
        }
    }
}

impl CharacterCategory {
    /// The categories of `c`; the default category where no range names it.
    pub open spec fn categories_spec(&self, c: char) -> u32 {
        let found = range_categories(self.ranges@, c as u32);
        if found == 0 { DEFAULT_CATEGORY } else { found }
    }

    pub fn new() -> (r: CharacterCategory)
        ensures
            r.ranges@.len() == 0,
    {
        CharacterCategory { ranges: Vec::new() }
    }

    pub fn get_category_types(&self, c: char) -> (r: u32)
        ensures
            r == self.categories_spec(c),
    {
        let code = c as u32;
        let mut found: u32 = 0;
        let mut i: usize = 0;
        while i < self.ranges.len()
            invariant
                i <= self.ranges@.len(),
                code == c as u32,
                found == range_categories(self.ranges@.subrange(0, i as int), code),
            decreases self.ranges@.len() - i,
        {
            let r = &self.ranges[i];
            if r.low <= code && code <= r.high {
                found = found | r.categories;
            }
            proof {
                let sub = self.ranges@.subrange(0, i + 1);
                assert(sub.drop_last() =~= self.ranges@.subrange(0, i as int));
                assert(sub.last() == self.ranges@[i as int]);
            }
            i += 1;
        }
        assert(self.ranges@.subrange(0, i as int) =~= self.ranges@);
        if found == 0 {
            DEFAULT_CATEGORY
        } else {
            found
        }
    }
}

} // verus!
