//! The tag interner: stable, dense indices for language and project names in
//! first-seen order.
use crate::text::{trim, trim_of};
use vstd::prelude::*;

verus! {

/// Whether `i` is the index of the first occurrence of `t` in `tags`.
pub open spec fn first_index(tags: Seq<Seq<char>>, t: Seq<char>, i: int) -> bool {
    &&& 0 <= i < tags.len()
    &&& tags[i] == t
    &&& forall|j: int| 0 <= j < i ==> tags[j] != t
}

/// Interning `t` into `before` gives `after` and index `r`: a known tag keeps
/// its first index and the list is unchanged; a new tag is appended and gets
/// the next index.
pub open spec fn interns(before: Seq<Seq<char>>, t: Seq<char>, after: Seq<Seq<char>>, r: int) -> bool {
    if before.contains(t) {
        after == before && first_index(before, t, r)
    } else {
        after == before.push(t) && r == before.len()
    }
}

/// The dictionary that lines read from a tag file give.
pub open spec fn loaded(lines: Seq<Seq<char>>) -> Seq<Seq<char>> {
    lines.map_values(|l: Seq<char>| trim_of(l))
}

/// One dictionary of tags, in index order.
pub struct Tags {
    tags: Vec<String>,
}

impl View for Tags {
    type V = Seq<Seq<char>>;

    closed spec fn view(&self) -> Seq<Seq<char>> {
        self.tags@.map_values(|s: String| s@)
    }
}

impl Tags {
    /// An empty dictionary.
    pub fn new() -> (r: Self)
        ensures
            r@ == Seq::<Seq<char>>::empty(),
    {
        let r = Tags { tags: Vec::new() };
        assert(r@ =~= Seq::<Seq<char>>::empty());
        r
    }

    /// Number of tags.
    pub fn len(&self) -> (r: usize)
        ensures
            r == self@.len(),
    {
        self.tags.len()
    }

    /// Adds one line read from the tag file, trimmed, as the next tag.
    pub fn load_line(&mut self, line: &str)
        ensures
            final(self)@ == old(self)@.push(trim_of(line@)),
    {
        self.push_loaded(trim(line));
    }

    /// Adds `tag` as the next tag, as loading a trimmed line does.
    pub fn push_loaded(&mut self, tag: &str)
        ensures
            final(self)@ == old(self)@.push(tag@),
    {
        self.tags.push(tag.to_owned());
        assert(final(self)@ =~= old(self)@.push(tag@));
    }

    /// The index of `tag`, if it is known.
    pub fn lookup(&self, tag: &str) -> (r: Option<usize>)
        ensures
            r is None <==> !self@.contains(tag@),
            r matches Some(i) ==> first_index(self@, tag@, i as int),
    {
        let wanted = tag.to_owned();
        let mut i: usize = 0;
        while i < self.tags.len()
            invariant
                i <= self.tags@.len(),
                wanted@ == tag@,
                forall|j: int| 0 <= j < i ==> self@[j] != tag@,
            decreases self.tags@.len() - i,
        {
            if self.tags[i] == wanted {
                assert(self@[i as int] == tag@);
                return Some(i);
            }
            i = i + 1;
        }
        proof {
            if self@.contains(tag@) {
                let k = choose|k: int| 0 <= k < self@.len() && self@[k] == tag@;
                assert(self@[k] != tag@);
            }
        }
        None
    }

    /// The index of `tag`, appending it as a new tag when it is not known.
    pub fn get(&mut self, tag: &str) -> (r: usize)
        requires
            old(self)@.len() < usize::MAX,
        ensures
            interns(old(self)@, tag@, final(self)@, r as int),
    {
        match self.lookup(tag) {
            Some(i) => i,
            None => {
                let n = self.tags.len();
                self.tags.push(tag.to_owned());
                assert(final(self)@ =~= old(self)@.push(tag@));
                n
            },
        }
    }
}

/// Interning the same tag twice in a row gives the same index and leaves the
/// dictionary as the first call left it.
pub proof fn lemma_get_twice_same_index(
    tags: Seq<Seq<char>>,
    t: Seq<char>,
    mid: Seq<Seq<char>>,
    r1: int,
    after: Seq<Seq<char>>,
    r2: int,
)
    requires
        interns(tags, t, mid, r1),
        interns(mid, t, after, r2),
    ensures
        r1 == r2,
        after == mid,
{
    if !tags.contains(t) {
        assert(mid[r1] == t);
    }
    assert(mid.contains(t));
    if r1 < r2 {
        assert(mid[r1] != t);
    } else if r2 < r1 {
        assert(mid[r2] == t);
    }
}

/// Reading back a dictionary written one tag per line gives the same
/// dictionary, so every index survives a restart, provided each written line
/// trims back to its tag.
pub proof fn lemma_reload_keeps_indices(tags: Seq<Seq<char>>)
    requires
        forall|i: int| 0 <= i < tags.len() ==> trim_of(#[trigger] tags[i].push('\n')) == tags[i],
    ensures
        loaded(tags.map_values(|t: Seq<char>| t.push('\n'))) == tags,
{
    assert(loaded(tags.map_values(|t: Seq<char>| t.push('\n'))) =~= tags);
}

} // verus!
