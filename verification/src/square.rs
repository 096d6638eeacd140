//! A square table of values stored row by row, with the counting facts that
//! the termination arguments of the maze algorithms rest on.

use vstd::prelude::*;

verus! {

/// How many entries of `s` equal `v`.
pub open spec fn count_in<T>(s: Seq<T>, v: T) -> nat
    decreases s.len(),
{
    if s.len() == 0 {
        0
    } else {
        count_in(s.drop_last(), v) + if s.last() == v {
            1nat
        } else {
            0nat
        }
    }
}

pub proof fn lemma_count_bound<T>(s: Seq<T>, v: T)
    ensures
        count_in(s, v) <= s.len(),
    decreases s.len(),
{
    if s.len() > 0 {
        lemma_count_bound(s.drop_last(), v);
    }
}

/// Replacing one entry moves each count by at most one: down for the value
/// that left, up for the value that came.
pub proof fn lemma_count_update<T>(s: Seq<T>, i: int, v: T, w: T)
    requires
        0 <= i < s.len(),
    ensures
        count_in(s.update(i, v), w) + (if s[i] == w {
            1nat
        } else {
            0nat
        }) == count_in(s, w) + (if v == w {
            1nat
        } else {
            0nat
        }),
    decreases s.len(),
{
    let t = s.update(i, v);
    if i == s.len() - 1 {
        assert(t.drop_last() =~= s.drop_last());
    } else {
        assert(t.drop_last() =~= s.drop_last().update(i, v));
        lemma_count_update(s.drop_last(), i, v, w);
    }
}

/// An entry equal to `v` counts at least once.
pub proof fn lemma_count_one<T>(s: Seq<T>, i: int, v: T)
    requires
        0 <= i < s.len(),
        s[i] == v,
    ensures
        count_in(s, v) >= 1,
    decreases s.len(),
{
    if i < s.len() - 1 {
        lemma_count_one(s.drop_last(), i, v);
    }
}

/// Two entries equal to `v` count at least twice.
pub proof fn lemma_count_two<T>(s: Seq<T>, i: int, j: int, v: T)
    requires
        0 <= i < j < s.len(),
        s[i] == v,
        s[j] == v,
    ensures
        count_in(s, v) >= 2,
    decreases s.len(),
{
    if j < s.len() - 1 {
        lemma_count_two(s.drop_last(), i, j, v);
    } else {
        lemma_count_one(s.drop_last(), i, v);
    }
}

pub proof fn lemma_flat_in_range(n: int, r: int, c: int)
    requires
        0 <= r < n,
        0 <= c < n,
    ensures
        0 <= r * n + c < n * n,
{
    assert(r * n + c < n * n) by (nonlinear_arith)
        requires
            0 <= r < n,
            0 <= c < n,
    ;
    assert(0 <= r * n) by (nonlinear_arith)
        requires
            0 <= r,
            0 < n,
    ;
}

pub proof fn lemma_flat_injective(n: int, r1: int, c1: int, r2: int, c2: int)
    requires
        0 <= r1 < n,
        0 <= c1 < n,
        0 <= r2 < n,
        0 <= c2 < n,
        r1 * n + c1 == r2 * n + c2,
    ensures
        r1 == r2,
        c1 == c2,
{
    assert(r1 == r2) by (nonlinear_arith)
        requires
            0 <= c1 < n,
            0 <= c2 < n,
            r1 * n + c1 == r2 * n + c2,
    ;
}

/// An `n` by `n` table.
#[derive(Debug)]
pub struct Square<T> {
    n: usize,
    data: Vec<T>,
}

impl<T: Copy> Square<T> {
    /// The side length.
    pub closed spec fn dim(&self) -> int {
        self.n as int
    }

    /// The table holds exactly `dim * dim` entries and every coordinate fits
    /// a signed 32-bit integer.
    pub closed spec fn wf(&self) -> bool {
        &&& self.data.len() == self.n * self.n
        &&& self.n <= i32::MAX
    }

    pub open spec fn has(&self, r: int, c: int) -> bool {
        0 <= r < self.dim() && 0 <= c < self.dim()
    }

    /// The entry in row `r`, column `c`.
    pub closed spec fn at(&self, r: int, c: int) -> T {
        self.data@[r * self.n + c]
    }

    /// How many entries equal `v`.
    pub closed spec fn count(&self, v: T) -> nat {
        count_in(self.data@, v)
    }

    /// The entries row by row.
    pub closed spec fn flat(&self) -> Seq<T> {
        self.data@
    }

    pub proof fn lemma_flat(&self)
        requires
            self.wf(),
        ensures
            self.flat().len() == self.dim() * self.dim(),
            forall|v: T| #[trigger] self.count(v) == count_in(self.flat(), v),
            forall|r: int, c: int|
                self.has(r, c) ==> #[trigger] self.at(r, c) == self.flat()[r * self.dim() + c],
    {
    }

    /// Tables of one side that agree entry by entry hold the same entries
    /// row by row, and so count alike.
    pub proof fn lemma_same_entries(&self, other: &Self)
        requires
            self.wf(),
            other.wf(),
            self.dim() == other.dim(),
            forall|r: int, c: int| self.has(r, c) ==> #[trigger] self.at(r, c) == other.at(r, c),
        ensures
            self.flat() == other.flat(),
            forall|v: T| #[trigger] self.count(v) == other.count(v),
    {
        let n = self.dim();
        assert forall|i: int| 0 <= i < self.data@.len() implies self.data@[i] == other.data@[i] by {
            let r = i / n;
            let c = i % n;
            assert(n > 0) by (nonlinear_arith)
                requires
                    0 <= i < n * n,
                    0 <= n,
            ;
            vstd::arithmetic::div_mod::lemma_fundamental_div_mod(i, n);
            vstd::arithmetic::div_mod::lemma_mod_pos_bound(i, n);
            assert(i == r * n + c && 0 <= r < n) by (nonlinear_arith)
                requires
                    i == n * r + c,
                    0 <= c < n,
                    0 <= i < n * n,
            ;
            assert(self.at(r, c) == other.at(r, c));
        }
        assert(self.data@ =~= other.data@);
    }

    /// A value that occurs once occurs in one place.
    pub proof fn lemma_unique(&self, v: T, r1: int, c1: int, r2: int, c2: int)
        requires
            self.wf(),
            self.count(v) == 1,
            self.has(r1, c1),
            self.has(r2, c2),
            self.at(r1, c1) == v,
            self.at(r2, c2) == v,
        ensures
            r1 == r2,
            c1 == c2,
    {
        let n = self.dim();
        let i = r1 * n + c1;
        let j = r2 * n + c2;
        lemma_flat_in_range(n, r1, c1);
        lemma_flat_in_range(n, r2, c2);
        if i < j {
            lemma_count_two(self.data@, i, j, v);
        } else if j < i {
            lemma_count_two(self.data@, j, i, v);
        } else {
            lemma_flat_injective(n, r1, c1, r2, c2);
        }
    }

    /// A table with the same entries.
    pub fn duplicate(&self) -> (res: Self)
        requires
            self.wf(),
        ensures
            res.wf(),
            res.dim() == self.dim(),
            res.flat() == self.flat(),
            forall|r: int, c: int| self.has(r, c) ==> #[trigger] res.at(r, c) == self.at(r, c),
            forall|v: T| #[trigger] res.count(v) == self.count(v),
    {
        let mut data: Vec<T> = Vec::new();
        let mut i: usize = 0;
        while i < self.data.len()
            invariant
                i <= self.data.len(),
                data@ == self.data@.take(i as int),
            decreases self.data.len() - i,
        {
            data.push(self.data[i]);
            proof {
                assert(data@ =~= self.data@.take(i + 1));
            }
            i += 1;
        }
        proof {
            assert(data@ =~= self.data@);
        }
        Square { n: self.n, data }
    }

    pub proof fn lemma_count_le_area(&self, v: T)
        requires
            self.wf(),
        ensures
            self.count(v) <= self.dim() * self.dim(),
            self.dim() * self.dim() <= usize::MAX,
            0 <= self.dim() <= i32::MAX,
    {
        lemma_count_bound(self.data@, v);
    }

    /// A table whose every entry is `v`; `None` when the side is too large
    /// for the machine.
    pub fn filled(n: usize, v: T) -> (res: Option<Self>)
        ensures
            res.is_some() <==> n <= i32::MAX && n * n <= usize::MAX,
            res matches Some(sq) ==> {
                &&& sq.wf()
                &&& sq.dim() == n
                &&& forall|r: int, c: int| sq.has(r, c) ==> #[trigger] sq.at(r, c) == v
                &&& sq.count(v) == n * n
                &&& forall|w: T| w != v ==> #[trigger] sq.count(w) == 0
            },
    {
        if n > 0x7fff_ffff {
            return None;
        }
        let total: usize = match n.checked_mul(n) {
            Some(t) => t,
            None => {
                return None;
            },
        };
        let mut data: Vec<T> = Vec::new();
        let mut i: usize = 0;
        while i < total
            invariant
                i <= total,
                data.len() == i,
                forall|j: int| 0 <= j < i ==> data@[j] == v,
                count_in(data@, v) == i,
                forall|w: T| w != v ==> #[trigger] count_in(data@, w) == 0,
            decreases total - i,
        {
            proof {
                assert(data@.push(v).drop_last() =~= data@);
                assert(data@.push(v).last() == v);
                assert forall|w: T| w != v implies #[trigger] count_in(data@.push(v), w) == 0 by {
                    assert(count_in(data@, w) == 0);
                }
            }
            data.push(v);
            i += 1;
        }
        let sq = Square { n, data };
        proof {
            assert forall|r: int, c: int| sq.has(r, c) implies #[trigger] sq.at(r, c) == v by {
                lemma_flat_in_range(n as int, r, c);
            }
        }
        Some(sq)
    }

    pub fn side(&self) -> (n: usize)
        ensures
            n == self.dim(),
    {
        self.n
    }

    pub fn get(&self, r: usize, c: usize) -> (v: T)
        requires
            self.wf(),
            self.has(r as int, c as int),
        ensures
            v == self.at(r as int, c as int),
    {
        proof {
            lemma_flat_in_range(self.n as int, r as int, c as int);
        }
        self.data[r * self.n + c]
    }

    /// The entry at signed coordinates, or `None` outside the table.
    pub fn peek(&self, r: i32, c: i32) -> (o: Option<T>)
        requires
            self.wf(),
        ensures
            o == (if self.has(r as int, c as int) {
                Some(self.at(r as int, c as int))
            } else {
                None
            }),
    {
        if r < 0 || c < 0 {
            return None;
        }
        let ru: usize = r as usize;
        let cu: usize = c as usize;
        if ru >= self.n || cu >= self.n {
            return None;
        }
        Some(self.get(ru, cu))
    }

    pub fn set(&mut self, r: usize, c: usize, v: T)
        requires
            old(self).wf(),
            old(self).has(r as int, c as int),
        ensures
            final(self).wf(),
            final(self).dim() == old(self).dim(),
            final(self).at(r as int, c as int) == v,
            forall|r2: int, c2: int|
                old(self).has(r2, c2) && !(r2 == r && c2 == c) ==> #[trigger] final(self).at(
                    r2,
                    c2,
                ) == old(self).at(r2, c2),
            forall|w: T| #[trigger]
                final(self).count(w) + (if old(self).at(r as int, c as int) == w {
                    1nat
                } else {
                    0nat
                }) == old(self).count(w) + (if v == w {
                    1nat
                } else {
                    0nat
                }),
    {
        proof {
            lemma_flat_in_range(self.n as int, r as int, c as int);
        }
        let i: usize = r * self.n + c;
        let ghost before = self.data@;
        self.data.set(i, v);
        proof {
            assert forall|w: T| #[trigger]
                count_in(self.data@, w) + (if before[i as int] == w {
                    1nat
                } else {
                    0nat
                }) == count_in(before, w) + (if v == w {
                    1nat
                } else {
                    0nat
                }) by {
                lemma_count_update(before, i as int, v, w);
            }
            assert forall|r2: int, c2: int|
                old(self).has(r2, c2) && !(r2 == r && c2 == c) implies #[trigger] self.at(r2, c2)
                == old(self).at(r2, c2) by {
                lemma_flat_in_range(self.n as int, r2, c2);
                if r2 * self.n + c2 == r * self.n + c {
                    lemma_flat_injective(self.n as int, r2, c2, r as int, c as int);
                }
            }
        }
    }
}

} // verus!
