use vstd::prelude::*;

use crate::character_category::CharacterCategory;

verus! {

/// Part-of-speech table, connection-cost matrix, and the character
/// categories of the dictionary.
pub struct Grammar {
    pub pos_list: Vec<Vec<String>>,
    pub left_size: usize,
    pub right_size: usize,
    pub connect_costs: Vec<i16>,
    pub character_category: Option<CharacterCategory>,
}

/// The id that the beginning and end of text sentinels carry on both sides.
pub const BOS_EOS_ID: u16 = 0;

/// Two lists of strings hold the same text at every position.
pub open spec fn same_strings(a: Seq<String>, b: Seq<String>) -> bool {
    &&& a.len() == b.len()
    &&& forall|i: int| 0 <= i < a.len() ==> #[trigger] a[i]@ == b[i]@
}

/// Copies a list of strings, keeping every string.
pub fn copy_strings(v: &Vec<String>) -> (r: Vec<String>)
    ensures
        same_strings(r@, v@),
{
    let mut r: Vec<String> = Vec::new();
    let mut i: usize = 0;
    while i < v.len()
        invariant
            i <= v@.len(),
            same_strings(r@, v@.subrange(0, i as int)),
        decreases v@.len() - i,
    {
        r.push(v[i].clone());
        i += 1;
    }
    assert(v@.subrange(0, i as int) =~= v@);
    r
}

impl Grammar {
    /// The matrix is stored row-major by left id and covers every id pair,
    /// including the sentinel id.
    pub open spec fn wf(&self) -> bool {
        &&& self.connect_costs@.len() == self.left_size * self.right_size
        &&& self.left_size > 0
        &&& self.right_size > 0
        &&& self.pos_list@.len() <= i16::MAX
    }

    /// Whether the matrix covers every id pair, including the sentinel id.
    pub fn check(&self) -> (r: bool)
        ensures
            r == self.wf(),
    {
        let n = self.connect_costs.len();
        let cells = match self.left_size.checked_mul(self.right_size) {
            Some(p) => p == n,
            None => false,
        };
        cells && self.left_size > 0 && self.right_size > 0 && self.pos_list.len() <= i16::MAX as usize
    }

    pub open spec fn cost_spec(&self, left: int, right: int) -> int {
        self.connect_costs@[left * self.right_size + right] as int
    }

    /// The part-of-speech table after `add_pos_list(other)` on `old`.
    pub open spec fn extends_pos(&self, old: Grammar, other: Grammar) -> bool {
        &&& self.pos_list@.len() == old.pos_list@.len() + other.pos_list@.len()
        &&& forall|k: int| 0 <= k < old.pos_list@.len()
            ==> same_strings(#[trigger] self.pos_list@[k]@, old.pos_list@[k]@)
        &&& forall|k: int| 0 <= k < other.pos_list@.len()
            ==> same_strings(#[trigger] self.pos_list@[old.pos_list@.len() + k]@, other.pos_list@[k]@)
    }

    /// Cost of placing a word whose right id is `left` before a word whose
    /// left id is `right`.
    pub fn get_connect_cost(&self, left: usize, right: usize) -> (r: i16)
        requires
            self.wf(),
            left < self.left_size,
            right < self.right_size,
        ensures
            r as int == self.cost_spec(left as int, right as int),
    {
        proof {
            let ls = self.left_size as int;
            let rs = self.right_size as int;
            let l = left as int;
            let r = right as int;
            assert(l * rs + r < ls * rs) by (nonlinear_arith)
                requires
                    0 <= l < ls,
                    0 <= r < rs,
            ;
            assert(0 <= l * rs) by (nonlinear_arith)
                requires
                    0 <= l,
                    0 <= rs,
            ;
        }
        // The cell index is below the matrix length, itself a `usize`.
        let cells = self.connect_costs.len();
        assert(left * self.right_size + right < cells);
        let row = left * self.right_size;
        self.connect_costs[row + right]
    }

    pub fn set_character_category(&mut self, character_category: Option<CharacterCategory>)
        ensures
            final(self).character_category == character_category,
            final(self).pos_list@ == old(self).pos_list@,
            final(self).left_size == old(self).left_size,
            final(self).right_size == old(self).right_size,
            final(self).connect_costs@ == old(self).connect_costs@,
    {
        self.character_category = character_category;
    }

    pub fn get_part_of_speech_size(&self) -> (r: usize)
        ensures
            r == self.pos_list@.len(),
    {
        self.pos_list.len()
    }

    /// The subcategory strings of a part of speech; empty when the id is
    /// out of range.
    pub fn get_part_of_speech_string(&self, pos_id: usize) -> (r: Vec<String>)
        ensures
            pos_id < self.pos_list@.len() ==> same_strings(r@, self.pos_list@[pos_id as int]@),
            pos_id >= self.pos_list@.len() ==> r@.len() == 0,
    {
        if pos_id < self.pos_list.len() {
            copy_strings(&self.pos_list[pos_id])
        } else {
            Vec::new()
        }
    }

    /// Appends the part-of-speech entries of `other` and returns the id that
    /// the first of them receives.
    pub fn add_pos_list(&mut self, other: &Grammar) -> (r: usize)
        requires
            old(self).pos_list@.len() + other.pos_list@.len() <= i16::MAX,
        ensures
            r == old(self).pos_list@.len(),
            final(self).extends_pos(*old(self), *other),
            final(self).left_size == old(self).left_size,
            final(self).right_size == old(self).right_size,
            final(self).connect_costs@ == old(self).connect_costs@,
    {
        let start = self.pos_list.len();
        let mut i: usize = 0;
        while i < other.pos_list.len()
            invariant
                i <= other.pos_list@.len(),
                self.pos_list@.len() == start + i,
                self.pos_list@.len() == old(self).pos_list@.len() + i,
                forall|k: int| 0 <= k < old(self).pos_list@.len()
                    ==> same_strings(#[trigger] self.pos_list@[k]@, old(self).pos_list@[k]@),
                forall|k: int| 0 <= k < i
                    ==> same_strings(#[trigger] self.pos_list@[start + k]@, other.pos_list@[k]@),
                self.left_size == old(self).left_size,
                self.right_size == old(self).right_size,
                self.connect_costs@ == old(self).connect_costs@,
                start == old(self).pos_list@.len(),
            decreases other.pos_list@.len() - i,
        {
            let p = copy_strings(&other.pos_list[i]);
            self.pos_list.push(p);
            i += 1;
        }
        start
    }
}

} // verus!
