//! Natural-order comparison of names, in which runs of digits compare as
//! numbers and case is ignored, and the rankings built on it.
use vstd::prelude::*;
use crate::order::{total_preorder, Ranking};
use crate::text::views;

verus! {

/// What `natord::compare_ignore_case` returns for two strings: -1 where the
/// left one comes first, 0 where neither does, 1 where the right one does.
pub uninterp spec fn natural_order(left: Seq<char>, right: Seq<char>) -> i8;

/// Calls `natord::compare_ignore_case`, which reads the two strings and
/// nothing else; the three outcomes are handed back as -1, 0 and 1 and named
/// by `natural_order`.
#[verifier::external_body]
fn natural_cmp(left: &str, right: &str) -> (out: i8)
    ensures
        out == natural_order(left@, right@),
        -1 <= out <= 1,
{
    match natord::compare_ignore_case(left, right) {
        std::cmp::Ordering::Less => -1,
        std::cmp::Ordering::Equal => 0,
        std::cmp::Ordering::Greater => 1,
    }
}

/// Whether `left` comes strictly before `right` in natural order.
pub fn natural_less(left: &str, right: &str) -> (b: bool)
    ensures
        b == (natural_order(left@, right@) < 0),
{
    natural_cmp(left, right) < 0
}

/// The relation on positions of `names`: the name at `i` is not after the
/// name at `j` in natural order.
pub open spec fn by_name(names: Seq<Seq<char>>) -> spec_fn(int, int) -> bool {
    |i: int, j: int| natural_order(names[i], names[j]) <= 0
}

/// The relation on positions of `keys`: ascending, or descending, by key.
pub open spec fn by_number(keys: Seq<u64>, descending: bool) -> spec_fn(int, int) -> bool {
    |i: int, j: int|
        if descending {
            keys[i] >= keys[j]
        } else {
            keys[i] <= keys[j]
        }
}

/// The relation on positions of pairs of names: by the natural order of the
/// first names, and where that ties by the natural order of the second.
pub open spec fn by_two_names(first: Seq<Seq<char>>, second: Seq<Seq<char>>) -> spec_fn(
    int,
    int,
) -> bool {
    |i: int, j: int|
        natural_order(first[i], first[j]) < 0 || (natural_order(first[i], first[j]) == 0
            && natural_order(second[i], second[j]) <= 0)
}

/// Ranks names in natural order.
pub struct ByName<'a> {
    pub names: &'a Vec<String>,
}

impl<'a> Ranking for ByName<'a> {
    open spec fn size(&self) -> nat {
        self.names@.len()
    }

    open spec fn relation(&self) -> spec_fn(int, int) -> bool {
        by_name(views(self.names@))
    }

    fn count(&self) -> (n: usize) {
        self.names.len()
    }

    fn precedes(&self, i: usize, j: usize) -> (b: bool) {
        natural_cmp(self.names[i].as_str(), self.names[j].as_str()) <= 0
    }
}

/// Ranks numeric keys, ascending or descending.
pub struct ByNumber<'a> {
    pub keys: &'a Vec<u64>,
    pub descending: bool,
}

impl<'a> Ranking for ByNumber<'a> {
    open spec fn size(&self) -> nat {
        self.keys@.len()
    }

    open spec fn relation(&self) -> spec_fn(int, int) -> bool {
        by_number(self.keys@, self.descending)
    }

    fn count(&self) -> (n: usize) {
        self.keys.len()
    }

    fn precedes(&self, i: usize, j: usize) -> (b: bool) {
        if self.descending {
            self.keys[i] >= self.keys[j]
        } else {
            self.keys[i] <= self.keys[j]
        }
    }
}

/// A ranking by number is a total preorder, whatever the keys.
pub proof fn by_number_is_total_preorder(keys: Seq<u64>, descending: bool)
    ensures
        total_preorder(by_number(keys, descending), keys.len()),
{
}

/// Two names of one item: the one compared first and the one that breaks
/// ties.
pub struct NamePair {
    pub first: String,
    pub second: String,
}

/// The first names of the pairs.
pub open spec fn firsts_of(pairs: Seq<NamePair>) -> Seq<Seq<char>> {
    pairs.map_values(|p: NamePair| p.first@)
}

/// The second names of the pairs.
pub open spec fn seconds_of(pairs: Seq<NamePair>) -> Seq<Seq<char>> {
    pairs.map_values(|p: NamePair| p.second@)
}

/// Ranks pairs of names by the first name, then by the second.
pub struct ByTwoNames<'a> {
    pub pairs: &'a Vec<NamePair>,
}

impl<'a> Ranking for ByTwoNames<'a> {
    open spec fn size(&self) -> nat {
        self.pairs@.len()
    }

    open spec fn relation(&self) -> spec_fn(int, int) -> bool {
        by_two_names(firsts_of(self.pairs@), seconds_of(self.pairs@))
    }

    fn count(&self) -> (n: usize) {
        self.pairs.len()
    }

    fn precedes(&self, i: usize, j: usize) -> (b: bool) {
        let a = &self.pairs[i];
        let b = &self.pairs[j];
        let c = natural_cmp(a.first.as_str(), b.first.as_str());
        c < 0 || (c == 0 && natural_cmp(a.second.as_str(), b.second.as_str()) <= 0)
    }
}

} // verus!
