//! Cutting a slice into a fixed number of runs of nearly equal length.

use vstd::arithmetic::div_mod::{lemma_fundamental_div_mod, lemma_mod_bound};
use vstd::prelude::*;

verus! {

/// Where the `k`-th of `n` runs over `total` items begins: every run holds
/// `total / n` items, and the first `total % n` runs hold one more.
pub open spec fn chunk_start(total: nat, n: nat, k: nat) -> int {
    k * (total / n) + if k < total % n {
        k as int
    } else {
        (total % n) as int
    }
}

/// The number of runs that hold anything.
pub open spec fn chunk_count(total: nat, n: nat) -> nat {
    if total < n {
        total
    } else {
        n
    }
}

/// The `k`-th of `n` runs over `s`.
pub open spec fn chunk<T>(s: Seq<T>, n: nat, k: nat) -> Seq<T> {
    s.subrange(chunk_start(s.len(), n, k), chunk_start(s.len(), n, k + 1))
}

/// The first `k` of `n` runs over `s`.
pub open spec fn chunks<T>(s: Seq<T>, n: nat, k: nat) -> Seq<Seq<T>> {
    Seq::new(k, |i: int| chunk(s, n, i as nat))
}

/// A slice that is being cut from the front into `parts` more runs: `len` items
/// each, with one item more in the first `rem`.
pub open spec fn cuts_evenly(total: nat, len: nat, rem: nat, parts: nat) -> bool {
    &&& total == parts * len + rem
    &&& rem <= parts
    &&& len == 0 ==> parts == rem
}

/// Iteration state of [`split`].
pub struct Split<'a, T> {
    slice: &'a [T],
    len: usize,
    rem: usize,
}

impl<'a, T> Split<'a, T> {
    /// The items that have not been handed out.
    pub closed spec fn rest(self) -> Seq<T> {
        self.slice@
    }

    /// The length of a run without the extra item.
    pub closed spec fn run_len(self) -> nat {
        self.len as nat
    }

    /// How many of the coming runs carry one item more.
    pub closed spec fn longer_runs(self) -> nat {
        self.rem as nat
    }

    /// The items left make up exactly `parts` more runs.
    pub open spec fn wf(self, parts: nat) -> bool {
        cuts_evenly(self.rest().len(), self.run_len(), self.longer_runs(), parts)
    }

    /// Some number of runs makes up the items left.
    pub open spec fn valid(self) -> bool {
        exists|parts: nat| self.wf(parts)
    }

    /// Hands out the next run, or `None` when every item has been handed out.
    pub fn next(&mut self) -> (run: Option<&'a [T]>)
        requires
            old(self).valid(),
        ensures
            final(self).run_len() == old(self).run_len(),
            old(self).rest().len() == 0 ==> run is None && *final(self) == *old(self),
            old(self).rest().len() > 0 ==> {
                let extra: nat = if old(self).longer_runs() > 0 {
                    1
                } else {
                    0
                };
                let taken = old(self).run_len() + extra;
                &&& run matches Some(r)
                &&& 0 < taken <= old(self).rest().len()
                &&& r@ == old(self).rest().take(taken as int)
                &&& final(self).rest() == old(self).rest().skip(taken as int)
                &&& final(self).longer_runs() == old(self).longer_runs() - extra
                &&& forall|parts: nat|
                    old(self).wf(parts) ==> parts > 0 && #[trigger] final(self).wf(
                        (parts - 1) as nat,
                    )
            },
            final(self).valid(),
    {
        if self.slice.len() == 0 {
            return None;
        }
        let mut len: usize = self.len;
        proof {
            let parts = choose|parts: nat| self.wf(parts);
            assert(parts * self.len >= 0) by (nonlinear_arith)
                requires
                    parts >= 0,
                    self.len >= 0,
            ;
            if parts > 0 {
                assert(parts * self.len == (parts - 1) * self.len + self.len) by (nonlinear_arith);
                assert((parts - 1) * self.len >= 0) by (nonlinear_arith)
                    requires
                        parts >= 1,
                        self.len >= 0,
                ;
            }
        }
        let ghost before = *self;
        if self.rem > 0 {
            len += 1;
            self.rem -= 1;
        }
        let (run, rest) = self.slice.split_at(len);
        self.slice = rest;
        proof {
            assert forall|parts: nat| before.wf(parts) implies parts > 0 && #[trigger] self.wf(
                (parts - 1) as nat,
            ) by {
                if parts == 0 {
                    assert(0 * before.len == 0);
                }
                assert(parts * before.len == (parts - 1) * before.len + before.len)
                    by (nonlinear_arith);
            }
            let parts = choose|parts: nat| before.wf(parts);
            assert(self.wf((parts - 1) as nat));
            assert(run@ =~= before.rest().take(len as int));
            assert(self.rest() =~= before.rest().skip(len as int));
        }
        Some(run)
    }
}

/// A run begins where the one before it ends, holds its share of the items, and
/// the last one ends with the last item.
pub proof fn lemma_chunk_bounds(total: nat, n: nat, k: nat)
    requires
        n > 0,
        k <= chunk_count(total, n),
    ensures
        0 <= chunk_start(total, n, k) <= total,
        k < chunk_count(total, n) ==> chunk_start(total, n, k) < chunk_start(total, n, k + 1),
        k < chunk_count(total, n) ==> chunk_start(total, n, k + 1) - chunk_start(total, n, k)
            == total / n + if k < total % n {
            1int
        } else {
            0
        },
        k == chunk_count(total, n) ==> chunk_start(total, n, k) == total,
{
    let len = total / n;
    let rem = total % n;
    lemma_fundamental_div_mod(total as int, n as int);
    lemma_mod_bound(total as int, n as int);
    assert((k + 1) * len == k * len + len) by (nonlinear_arith);
    assert(k * len >= 0) by (nonlinear_arith)
        requires
            k >= 0,
            len >= 0,
    ;
    assert(k * len <= n * len) by (nonlinear_arith)
        requires
            k <= n,
            len >= 0,
    ;
    if total < n {
        assert(len == 0) by {
            vstd::arithmetic::div_mod::lemma_basic_div(total as int, n as int);
        }
        assert(k * len == 0) by (nonlinear_arith)
            requires
                len == 0,
        ;
        assert(n * len == 0) by (nonlinear_arith)
            requires
                len == 0,
        ;
    } else {
        assert(len > 0) by {
            vstd::arithmetic::div_mod::lemma_div_non_zero(total as int, n as int);
        }
    }
}

/// Cuts `slice` into `n` runs of nearly equal length, in order. Runs that would
/// be empty are left out.
pub fn split<T>(slice: &[T], n: usize) -> (runs: Vec<&[T]>)
    requires
        n > 0,
    ensures
        runs@.len() == chunk_count(slice@.len(), n as nat),
        forall|k: int|
            0 <= k < runs@.len() ==> (#[trigger] runs@[k])@ == chunk(slice@, n as nat, k as nat),
{
    let len: usize = slice.len() / n;
    let rem: usize = slice.len() % n;
    let mut cutter: Split<'_, T> = Split { slice, len, rem };
    let mut runs: Vec<&[T]> = Vec::new();
    let ghost count = chunk_count(slice@.len(), n as nat);
    proof {
        lemma_fundamental_div_mod(slice@.len() as int, n as int);
        lemma_mod_bound(slice@.len() as int, n as int);
        if slice@.len() < n {
            vstd::arithmetic::div_mod::lemma_basic_div(slice@.len() as int, n as int);
            assert(n * 0 == 0);
            assert(count * 0 == 0);
        }
        assert(cutter.wf(count));
        lemma_chunk_bounds(slice@.len(), n as nat, 0);
        assert(0 * (slice@.len() / n as nat) == 0);
        assert(slice@.skip(0) =~= slice@);
    }
    while cutter.slice.len() > 0
        invariant
            n > 0,
            count == chunk_count(slice@.len(), n as nat),
            runs@.len() <= count,
            cutter.wf((count - runs@.len()) as nat),
            cutter.run_len() == slice@.len() / n as nat,
            cutter.longer_runs() == if runs@.len() < slice@.len() % n as nat {
                slice@.len() % n as nat - runs@.len()
            } else {
                0
            },
            cutter.rest() == slice@.skip(chunk_start(slice@.len(), n as nat, runs@.len())),
            forall|k: int|
                0 <= k < runs@.len() ==> (#[trigger] runs@[k])@ == chunk(slice@, n as nat, k as nat),
        decreases cutter.slice@.len(),
    {
        let ghost k = runs@.len();
        let ghost before = cutter;
        proof {
            if k == count {
                assert(0 * before.run_len() == 0);
                lemma_chunk_bounds(slice@.len(), n as nat, k);
            }
            lemma_chunk_bounds(slice@.len(), n as nat, k);
            lemma_chunk_bounds(slice@.len(), n as nat, k + 1);
        }
        match cutter.next() {
            Some(run) => {
                proof {
                    let parts = (count - k) as nat;
                    assert(before.wf(parts));
                    assert(cutter.wf((parts - 1) as nat));
                    assert(run@ =~= chunk(slice@, n as nat, k));
                    assert(cutter.rest() =~= slice@.skip(
                        chunk_start(slice@.len(), n as nat, k + 1),
                    ));
                }
                runs.push(run);
            },
            None => {},
        }
    }
    proof {
        lemma_chunk_bounds(slice@.len(), n as nat, runs@.len());
        if runs@.len() < count {
            lemma_chunk_bounds(slice@.len(), n as nat, runs@.len() + 1);
        }
    }
    runs
}

/// Every run is non-empty, runs are in order and adjacent, and together they
/// make up the whole slice.
pub proof fn law_runs_cover_in_order<T>(s: Seq<T>, n: nat)
    requires
        n > 0,
    ensures
        chunks(s, n, chunk_count(s.len(), n)).flatten() == s,
        forall|k: nat| k < chunk_count(s.len(), n) ==> (#[trigger] chunk(s, n, k)).len() > 0,
{
    let count = chunk_count(s.len(), n);
    lemma_prefix_of_runs(s, n, count);
    lemma_chunk_bounds(s.len(), n, count);
    assert(s.take(s.len() as int) =~= s);
    assert forall|k: nat| k < count implies (#[trigger] chunk(s, n, k)).len() > 0 by {
        lemma_chunk_bounds(s.len(), n, k);
        lemma_chunk_bounds(s.len(), n, k + 1);
    }
}

proof fn lemma_prefix_of_runs<T>(s: Seq<T>, n: nat, k: nat)
    requires
        n > 0,
        k <= chunk_count(s.len(), n),
    ensures
        chunks(s, n, k).flatten() == s.take(chunk_start(s.len(), n, k)),
    decreases k,
{
    lemma_chunk_bounds(s.len(), n, k);
    if k == 0 {
        assert(0 * (s.len() / n) == 0);
        assert(chunks(s, n, k) =~= Seq::empty());
        assert(chunks(s, n, k).flatten() =~= s.take(0));
    } else {
        let prev = (k - 1) as nat;
        lemma_prefix_of_runs(s, n, prev);
        lemma_chunk_bounds(s.len(), n, prev);
        let all = chunks(s, n, k);
        assert(all.drop_last() =~= chunks(s, n, prev));
        assert(all.last() == chunk(s, n, prev));
        all.lemma_flatten_and_flatten_alt_are_equivalent();
        chunks(s, n, prev).lemma_flatten_and_flatten_alt_are_equivalent();
        assert(all.flatten_alt() == all.drop_last().flatten_alt() + all.last());
        assert(s.take(chunk_start(s.len(), n, prev)) + chunk(s, n, prev) =~= s.take(
            chunk_start(s.len(), n, k),
        ));
    }
}

/// Runs differ in length by at most one item, and the longer ones come first.
pub proof fn law_runs_are_balanced<T>(s: Seq<T>, n: nat, i: nat, j: nat)
    requires
        n > 0,
        i <= j < chunk_count(s.len(), n),
    ensures
        chunk(s, n, j).len() <= chunk(s, n, i).len() <= chunk(s, n, j).len() + 1,
{
    lemma_chunk_bounds(s.len(), n, i);
    lemma_chunk_bounds(s.len(), n, i + 1);
    lemma_chunk_bounds(s.len(), n, j);
    lemma_chunk_bounds(s.len(), n, j + 1);
}

/// There are as many runs as were asked for, or one for each item if there are fewer
/// items. A run holds its share of the items, rounded up in the first ones and down in the
/// others.
pub proof fn law_as_many_runs_as_asked_for<T>(s: Seq<T>, n: nat, k: nat)
    requires
        n > 0,
        k < chunk_count(s.len(), n),
    ensures
        chunk_count(s.len(), n) <= n,
        chunk_count(s.len(), n) <= s.len(),
        chunk_count(s.len(), n) == n || chunk_count(s.len(), n) == s.len(),
        chunk(s, n, k).len() == if k < s.len() % n {
            s.len() / n + 1
        } else {
            s.len() / n
        },
{
    lemma_chunk_bounds(s.len(), n, k);
    lemma_chunk_bounds(s.len(), n, k + 1);
}

} // verus!
