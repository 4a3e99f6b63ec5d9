//! Texts in order, and sets of them.

use crate::text::{characters, texts};
use vstd::prelude::*;
use vstd::string::*;

verus! {

/// `a` comes before `b`: character by character, a text before its extensions.
pub open spec fn text_less(a: Seq<char>, b: Seq<char>) -> bool
    decreases a.len(),
{
    if b.len() == 0 {
        false
    } else if a.len() == 0 {
        true
    } else if a[0] != b[0] {
        a[0] < b[0]
    } else {
        text_less(a.drop_first(), b.drop_first())
    }
}

/// No text comes before itself, of two different texts one comes before the
/// other but not both ways, and the order is transitive.
pub proof fn law_texts_are_totally_ordered(a: Seq<char>, b: Seq<char>, c: Seq<char>)
    ensures
        !text_less(a, a),
        a != b ==> (text_less(a, b) <==> !text_less(b, a)),
        text_less(a, b) && text_less(b, c) ==> text_less(a, c),
{
    lemma_not_before_itself(a);
    lemma_one_before_the_other(a, b);
    lemma_before_is_transitive(a, b, c);
}

proof fn lemma_not_before_itself(a: Seq<char>)
    ensures
        !text_less(a, a),
    decreases a.len(),
{
    if a.len() > 0 {
        lemma_not_before_itself(a.drop_first());
    }
}

proof fn lemma_one_before_the_other(a: Seq<char>, b: Seq<char>)
    ensures
        a != b ==> (text_less(a, b) <==> !text_less(b, a)),
    decreases a.len(),
{
    if a.len() == 0 && b.len() == 0 {
        assert(a =~= b);
    }
    if a.len() > 0 && b.len() > 0 && a[0] == b[0] {
        lemma_one_before_the_other(a.drop_first(), b.drop_first());
        assert(a =~= seq![a[0]] + a.drop_first());
        assert(b =~= seq![b[0]] + b.drop_first());
    }
}

proof fn lemma_before_is_transitive(a: Seq<char>, b: Seq<char>, c: Seq<char>)
    ensures
        text_less(a, b) && text_less(b, c) ==> text_less(a, c),
    decreases a.len(),
{
    if a.len() > 0 && b.len() > 0 && c.len() > 0 && a[0] == b[0] && b[0] == c[0] {
        lemma_before_is_transitive(a.drop_first(), b.drop_first(), c.drop_first());
    }
}

/// How one text stands to another.
#[derive(Debug, Clone, Copy, PartialEq, Eq, Structural)]
pub enum Rank {
    Before,
    Same,
    After,
}

/// The rank of `a` relative to `b`.
pub open spec fn rank(a: Seq<char>, b: Seq<char>) -> Rank {
    if a == b {
        Rank::Same
    } else if text_less(a, b) {
        Rank::Before
    } else {
        Rank::After
    }
}

proof fn lemma_common_start(a: Seq<char>, b: Seq<char>, k: int)
    requires
        0 <= k <= a.len(),
        k <= b.len(),
        forall|i: int| 0 <= i < k ==> a[i] == b[i],
    ensures
        text_less(a, b) == text_less(a.skip(k), b.skip(k)),
    decreases k,
{
    if k == 0 {
        assert(a.skip(0) =~= a);
        assert(b.skip(0) =~= b);
    } else {
        lemma_common_start(a.drop_first(), b.drop_first(), k - 1);
        assert(a.drop_first().skip(k - 1) =~= a.skip(k));
        assert(b.drop_first().skip(k - 1) =~= b.skip(k));
    }
}

/// The rank of `a` relative to `b`.
pub fn rank_texts(a: &str, b: &str) -> (r: Rank)
    ensures
        r == rank(a@, b@),
{
    let left: Vec<char> = characters(a);
    let right: Vec<char> = characters(b);
    let mut k: usize = 0;
    while k < left.len() && k < right.len() && left[k] == right[k]
        invariant
            left@ == a@,
            right@ == b@,
            k <= left@.len(),
            k <= right@.len(),
            forall|i: int| 0 <= i < k ==> a@[i] == b@[i],
        decreases left@.len() - k,
    {
        k += 1;
    }
    proof {
        lemma_common_start(a@, b@, k as int);
    }
    if k == left.len() && k == right.len() {
        proof {
            assert(a@ =~= b@);
        }
        return Rank::Same;
    }
    if k == left.len() {
        return Rank::Before;
    }
    if k == right.len() {
        return Rank::After;
    }
    if left[k] < right[k] {
        Rank::Before
    } else {
        Rank::After
    }
}

/// Each text comes before all later ones.
pub open spec fn ascending_texts(list: Seq<Seq<char>>) -> bool {
    forall|i: int, j: int| 0 <= i < j < list.len() ==> text_less(#[trigger] list[i], #[trigger] list[j])
}

/// A set of texts, kept in order, each once.
#[derive(Debug)]
pub struct TextSet {
    pub(crate) items: Vec<String>,
}

impl TextSet {
    /// The texts in order.
    pub open(crate) spec fn listed(self) -> Seq<Seq<char>> {
        texts(self.items@)
    }

    /// The texts are in order, each once.
    pub open spec fn wf(self) -> bool {
        ascending_texts(self.listed())
    }

    /// The texts.
    pub open spec fn set(self) -> Set<Seq<char>> {
        self.listed().to_set()
    }

    /// The empty set.
    pub fn new() -> (empty: TextSet)
        ensures
            empty.wf(),
            empty.set() == Set::<Seq<char>>::empty(),
    {
        let empty = TextSet { items: Vec::new() };
        proof {
            assert(empty.listed() =~= Seq::empty());
            assert(empty.set() =~= Set::<Seq<char>>::empty());
        }
        empty
    }

    /// The texts in order.
    pub fn items(&self) -> (items: &Vec<String>)
        ensures
            texts(items@) == self.listed(),
    {
        &self.items
    }

    /// The number of texts.
    pub fn len(&self) -> (len: usize)
        requires
            self.wf(),
        ensures
            len == self.set().len(),
    {
        proof {
            assert(self.listed().no_duplicates()) by {
                assert forall|i: int, j: int|
                    0 <= i < self.listed().len() && 0 <= j < self.listed().len() && i
                        != j implies self.listed()[i] != self.listed()[j] by {
                    law_texts_are_totally_ordered(
                        self.listed()[i],
                        self.listed()[j],
                        Seq::empty(),
                    );
                }
            }
            self.listed().unique_seq_to_set();
        }
        self.items.len()
    }

    /// Adds a text, unless it is there.
    pub fn insert(&mut self, text: &str)
        requires
            old(self).wf(),
        ensures
            final(self).wf(),
            final(self).set() == old(self).set().insert(text@),
    {
        let mut p: usize = 0;
        let ghost list = self.listed();
        while p < self.items.len() && rank_texts(self.items[p].as_str(), text) == Rank::Before
            invariant
                list == self.listed(),
                p <= self.items@.len(),
                forall|i: int| 0 <= i < p ==> text_less(#[trigger] list[i], text@),
            decreases self.items@.len() - p,
        {
            proof {
                assert(list[p as int] == self.items@[p as int]@);
            }
            p += 1;
        }
        if p < self.items.len() && rank_texts(self.items[p].as_str(), text) == Rank::Same {
            proof {
                assert(list[p as int] == self.items@[p as int]@);
                assert(list.contains(text@));
                assert(self.set() =~= old(self).set().insert(text@));
            }
            return;
        }
        self.items.insert(p, text.to_owned());
        proof {
            lemma_insert_in_order(list, text@, p as int);
            assert(self.listed() =~= list.insert(p as int, text@));
        }
    }
}

/// A text put where it belongs keeps a list in order and is all that is added.
pub proof fn lemma_insert_in_order(list: Seq<Seq<char>>, text: Seq<char>, p: int)
    requires
        ascending_texts(list),
        0 <= p <= list.len(),
        forall|i: int| 0 <= i < p ==> text_less(#[trigger] list[i], text),
        p < list.len() ==> list[p] != text && !text_less(list[p], text),
    ensures
        ascending_texts(list.insert(p, text)),
        list.insert(p, text).to_set() == list.to_set().insert(text),
{
    let longer = list.insert(p, text);
    assert forall|i: int| p <= i < list.len() implies text_less(text, #[trigger] list[i]) by {
        law_texts_are_totally_ordered(text, list[p], list[i]);
    }
    assert forall|i: int, j: int| 0 <= i < j < longer.len() implies text_less(
        #[trigger] longer[i],
        #[trigger] longer[j],
    ) by {
        let a = if i < p {
            i
        } else {
            i - 1
        };
        let b = if j < p {
            j
        } else {
            j - 1
        };
        if i != p && j != p {
            assert(text_less(list[a], list[b]));
        } else if i == p {
            assert(longer[j] == list[b]);
        } else {
            assert(longer[i] == list[a]);
        }
    }
    assert forall|x: Seq<char>| longer.to_set().contains(x) <==> list.to_set().insert(text).contains(
        x,
    ) by {
        if list.contains(x) {
            let i = choose|i: int| 0 <= i < list.len() && list[i] == x;
            if i < p {
                assert(longer[i] == x);
            } else {
                assert(longer[i + 1] == x);
            }
        }
        if x == text {
            assert(longer[p] == x);
        }
        if longer.contains(x) && x != text {
            let i = choose|i: int| 0 <= i < longer.len() && longer[i] == x;
            if i < p {
                assert(list[i] == x);
            } else {
                assert(list[i - 1] == x);
            }
        }
    }
    assert(longer.to_set() =~= list.to_set().insert(text));
}

/// The first difference decides which of two texts comes first, and a text comes before
/// its extensions.
pub proof fn law_first_difference_decides(
    common: Seq<char>,
    a: char,
    b: char,
    rest: Seq<char>,
    other: Seq<char>,
)
    ensures
        a < b ==> text_less(common.push(a) + rest, common.push(b) + other),
        a < b ==> !text_less(common.push(b) + other, common.push(a) + rest),
        text_less(common, common.push(a) + rest),
        !text_less(common.push(a) + rest, common),
{
    let left = common.push(a) + rest;
    let right = common.push(b) + other;
    let k = common.len() as int;
    lemma_common_start(left, right, k);
    lemma_common_start(right, left, k);
    lemma_common_start(common, left, k);
    lemma_common_start(left, common, k);
    assert(left.skip(k)[0] == a);
    assert(right.skip(k)[0] == b);
    assert(common.skip(k).len() == 0);
}

/// The texts of a set are listed in order and each once, and they are all that it holds.
pub proof fn law_texts_are_listed_in_order(set: TextSet, i: int, j: int)
    requires
        set.wf(),
        0 <= i < j < set.listed().len(),
    ensures
        text_less(set.listed()[i], set.listed()[j]),
        set.set().contains(set.listed()[i]),
        forall|text: Seq<char>| #[trigger]
            set.set().contains(text) ==> exists|k: int|
                0 <= k < set.listed().len() && #[trigger] set.listed()[k] == text,
{
    assert(set.listed().contains(set.listed()[i]));
}

} // verus!
