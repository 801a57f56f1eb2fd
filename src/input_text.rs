use vstd::prelude::*;

use crate::plugin::InputTextPluginReplaceErr;

verus! {

/// The offset map after replacing `[begin, end)` by `k` characters: the new
/// characters start where the replaced run started, and what follows keeps
/// its offsets. A deletion at the very start leaves the first position at 0,
/// so that the next character covers the deleted run.
pub open spec fn replaced_offsets(off: Seq<usize>, begin: int, end: int, k: int) -> Seq<usize> {
    let plain = off.subrange(0, begin) + Seq::new(k as nat, |j: int| off[begin]) + off.subrange(end, off.len() as int);
    if begin == 0 && k == 0 {
        plain.update(0, 0)
    } else {
        plain
    }
}

/// The text handed to the tokenizer, the text after normalization, and for
/// each position of the normalized text (and its end) the matching position
/// of the original text.
pub struct InputText {
    pub original: Vec<char>,
    pub modified: Vec<char>,
    pub offsets: Vec<usize>,
}

/// Relies on `str::chars`: the characters of `s`, in order.
#[verifier::external_body]
pub(crate) fn chars_of(s: &str) -> (r: Vec<char>)
    ensures
        r@ == s@,
{
    s.chars().collect()
}

/// Relies on collecting characters into a `String`: the text of
/// `cs[from..to]`.
#[verifier::external_body]
pub(crate) fn string_of(cs: &Vec<char>, from: usize, to: usize) -> (r: String)
    requires
        from <= to <= cs@.len(),
    ensures
        r@ == cs@.subrange(from as int, to as int),
{
    cs[from..to].iter().collect()
}

impl InputText {
    /// The offset map starts at the start of the original text, ends at its
    /// end, and never goes backwards.
    pub open spec fn wf(&self) -> bool {
        &&& self.offsets@.len() == self.modified@.len() + 1
        &&& self.offsets@[0] == 0
        &&& self.offsets@.last() == self.original@.len()
        &&& forall|a: int, b: int| 0 <= a <= b < self.offsets@.len()
            ==> (#[trigger] self.offsets@[a]) <= (#[trigger] self.offsets@[b])
    }

    /// The original characters behind the normalized span `[start, end)`.
    pub open spec fn original_span(&self, start: int, end: int) -> Seq<char> {
        self.original@.subrange(self.offsets@[start] as int, self.offsets@[end] as int)
    }

    /// An unnormalized text: every position maps to itself.
    pub fn new(text: &str) -> (r: InputText)
        ensures
            r.wf(),
            r.original@ == text@,
            r.modified@ == text@,
            forall|i: int| 0 <= i <= text@.len() ==> #[trigger] r.offsets@[i] == i,
    {
        let original = chars_of(text);
        let modified = chars_of(text);
        let mut offsets: Vec<usize> = Vec::new();
        let mut i: usize = 0;
        while i < original.len()
            invariant
                i <= original@.len(),
                offsets@.len() == i,
                forall|k: int| 0 <= k < i ==> offsets@[k] == k,
            decreases original@.len() - i,
        {
            offsets.push(i);
            i += 1;
        }
        offsets.push(i);
        assert(offsets@[0] == 0);
        InputText { original, modified, offsets }
    }

    /// Replaces the normalized character at `index`; the offset map stays.
    pub fn set_char(&mut self, index: usize, c: char)
        requires
            old(self).wf(),
            index < old(self).modified@.len(),
        ensures
            final(self).wf(),
            final(self).original@ == old(self).original@,
            final(self).offsets@ == old(self).offsets@,
            final(self).modified@ == old(self).modified@.update(index as int, c),
    {
        self.modified.set(index, c);
    }

    /// Replaces the normalized characters `[begin, end)` by `text`. Fails,
    /// changing nothing, when the span is not inside the normalized text or
    /// when the replacement would leave no character for a non-empty
    /// original.
    pub fn replace(&mut self, begin: usize, end: usize, text: &Vec<char>) -> (r: Result<(), InputTextPluginReplaceErr>)
        requires
            old(self).wf(),
        ensures
            final(self).wf(),
            final(self).original@ == old(self).original@,
            r is Ok <==> (begin <= end <= old(self).modified@.len() && !(begin == 0 && end == old(self).modified@.len()
                && text@.len() == 0 && old(self).original@.len() > 0)),
            r is Ok ==> final(self).modified@ == old(self).modified@.subrange(0, begin as int) + text@
                + old(self).modified@.subrange(end as int, old(self).modified@.len() as int),
            r is Ok ==> final(self).offsets@ == replaced_offsets(old(self).offsets@, begin as int, end as int, text@.len() as int),
            r is Err ==> *final(self) == *old(self),
    {
        let len = self.modified.len();
        if begin > end || end > len || (begin == 0 && end == len && text.len() == 0 && self.original.len() > 0) {
            return Err(InputTextPluginReplaceErr::ReplaceErr);
        }
        let ghost old_m = self.modified@;
        let ghost old_o = self.offsets@;
        let mut m: Vec<char> = Vec::new();
        let mut o: Vec<usize> = Vec::new();
        let mut i: usize = 0;
        while i < begin
            invariant
                i <= begin <= end <= len,
                len == old_m.len(),
                self.modified@ == old_m,
                self.offsets@ == old_o,
                old_o.len() == len + 1,
                m@ == old_m.subrange(0, i as int),
                o@ == old_o.subrange(0, i as int),
            decreases begin - i,
        {
            m.push(self.modified[i]);
            o.push(self.offsets[i]);
            i += 1;
            assert(m@ =~= old_m.subrange(0, i as int));
            assert(o@ =~= old_o.subrange(0, i as int));
        }
        let start_offset = self.offsets[begin];
        let mut j: usize = 0;
        while j < text.len()
            invariant
                begin <= end <= len,
                len == old_m.len(),
                old_o.len() == len + 1,
                start_offset == old_o[begin as int],
                j <= text@.len(),
                m@ == old_m.subrange(0, begin as int) + text@.subrange(0, j as int),
                o@ == old_o.subrange(0, begin as int) + Seq::new(j as nat, |x: int| old_o[begin as int]),
            decreases text@.len() - j,
        {
            m.push(text[j]);
            o.push(start_offset);
            j += 1;
            assert(m@ =~= old_m.subrange(0, begin as int) + text@.subrange(0, j as int));
            assert(o@ =~= old_o.subrange(0, begin as int) + Seq::new(j as nat, |x: int| old_o[begin as int]));
        }
        let olen = self.offsets.len();
        let mut e: usize = end;
        while e <= len
            invariant
                olen == len + 1,
                begin <= end <= e <= len + 1,
                len == old_m.len(),
                self.modified@ == old_m,
                self.offsets@ == old_o,
                old_o.len() == len + 1,
                m@ == old_m.subrange(0, begin as int) + text@ + old_m.subrange(end as int, if e <= len { e as int } else { len as int }),
                o@ == old_o.subrange(0, begin as int) + Seq::new(text@.len() as nat, |x: int| old_o[begin as int])
                    + old_o.subrange(end as int, e as int),
            decreases len + 1 - e,
        {
            o.push(self.offsets[e]);
            if e < len {
                m.push(self.modified[e]);
            }
            e += 1;
            assert(o@ =~= old_o.subrange(0, begin as int) + Seq::new(text@.len() as nat, |x: int| old_o[begin as int])
                + old_o.subrange(end as int, e as int));
            assert(m@ =~= old_m.subrange(0, begin as int) + text@ + old_m.subrange(end as int, if e <= len { e as int } else { len as int }));
        }
        assert(text@.subrange(0, text@.len() as int) =~= text@);
        if begin == 0 && text.len() == 0 {
            o.set(0, 0);
        }
        proof {
            let no = o@;
            assert(no == replaced_offsets(old_o, begin as int, end as int, text@.len() as int));
            let k = text@.len() as int;
            assert forall|a: int, b: int| 0 <= a <= b < no.len() implies (#[trigger] no[a]) <= (#[trigger] no[b]) by {
                let pa = if a < begin { a } else if a < begin + k { begin as int } else { end + (a - begin - k) };
                let pb = if b < begin { b } else if b < begin + k { begin as int } else { end + (b - begin - k) };
                assert(pa <= pb);
                assert(old_o[pa] <= old_o[pb]);
                if begin == 0 && k == 0 && a == 0 {
                } else {
                    assert(no[a] == old_o[pa]);
                }
                if begin == 0 && k == 0 && b == 0 {
                } else {
                    assert(no[b] == old_o[pb]);
                }
            }
            if !(begin == 0 && k == 0) {
                if begin > 0 {
                    assert(no[0] == old_o[0]);
                } else {
                    assert(no[0] == old_o[begin as int]);
                }
            }
            assert(no.last() == old_o[len as int]);
        }
        self.modified = m;
        self.offsets = o;
        Ok(())
    }

    /// Position in the original text of the normalized position `index`.
    pub fn get_original_index(&self, index: usize) -> (r: usize)
        requires
            self.wf(),
            index <= self.modified@.len(),
        ensures
            r == self.offsets@[index as int],
    {
        self.offsets[index]
    }

    /// The original text behind the normalized span `[start, end)`.
    pub fn original_substring(&self, start: usize, end: usize) -> (r: String)
        requires
            self.wf(),
            start <= end <= self.modified@.len(),
        ensures
            r@ == self.original_span(start as int, end as int),
    {
        let from = self.offsets[start];
        let to = self.offsets[end];
        string_of(&self.original, from, to)
    }
}

} // verus!
