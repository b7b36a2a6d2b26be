use vstd::prelude::*;

verus! {

/// A source of values that are computed one at a time, on demand.
///
/// `at(k)` is the value that the `k`-th call of `next` from now returns;
/// `None` means the source is exhausted there, and it stays exhausted.
pub trait LazySequence: Sized {
    type Item;

    spec fn wf(&self) -> bool;

    spec fn at(&self, k: nat) -> Option<Self::Item>;

    /// Once exhausted, always exhausted.
    proof fn lemma_fused(&self, k: nat)
        requires
            self.wf(),
            self.at(k) is None,
        ensures
            self.at(k + 1) is None,
    ;

    /// Hands out the next value, or `None` when the source is exhausted.
    fn next(&mut self) -> (r: Option<Self::Item>)
        requires
            old(self).wf(),
        ensures
            final(self).wf(),
            r == old(self).at(0),
            forall|k: nat| #[trigger] final(self).at(k) == old(self).at(k + 1),
    ;
}

/// An exhausted source stays exhausted at every later position.
pub proof fn lemma_exhausted_after<S: LazySequence>(s: &S, i: nat, j: nat)
    requires
        s.wf(),
        i <= j,
        s.at(i) is None,
    ensures
        s.at(j) is None,
    decreases j - i,
{
    if i < j {
        s.lemma_fused(i);
        lemma_exhausted_after(s, i + 1, j);
    }
}

/// The values of a source at positions `0, step, 2 * step, ...`.
pub struct StepBy<S> {
    src: S,
    step: usize,
}

impl<S: LazySequence> StepBy<S> {
    /// Takes every `step`-th value of `src`, starting with its first.
    pub fn new(src: S, step: usize) -> (r: Self)
        requires
            src.wf(),
            step >= 1,
        ensures
            r.wf(),
            forall|k: nat| #[trigger] r.at(k) == src.at((k * step) as nat),
    {
        StepBy { src, step }
    }
}

impl<S: LazySequence> LazySequence for StepBy<S> {
    type Item = S::Item;

    closed spec fn wf(&self) -> bool {
        self.src.wf() && self.step >= 1
    }

    closed spec fn at(&self, k: nat) -> Option<S::Item> {
        self.src.at((k * self.step) as nat)
    }

    proof fn lemma_fused(&self, k: nat) {
        assert(k * self.step <= (k + 1) * self.step) by (nonlinear_arith);
        lemma_exhausted_after(&self.src, (k * self.step) as nat, ((k + 1) * self.step) as nat);
    }

    fn next(&mut self) -> (r: Option<S::Item>) {
        let ghost s0 = self.src;
        let r = self.src.next();
        let mut j: usize = 1;
        while j < self.step
            invariant
                self.src.wf(),
                1 <= j <= self.step,
                self.step == old(self).step,
                s0 == old(self).src,
                forall|m: nat| #[trigger] self.src.at(m) == s0.at((m + j) as nat),
            decreases self.step - j,
        {
            let _ = self.src.next();
            j = j + 1;
        }
        proof {
            assert forall|k: nat| #[trigger] self.at(k) == old(self).at(k + 1) by {
                assert((k + 1) * self.step == k * self.step + self.step) by (nonlinear_arith);
            }
        }
        r
    }
}

/// A source without its first `n` values.
pub struct Skip<S> {
    src: S,
    n: usize,
}

impl<S: LazySequence> Skip<S> {
    /// Drops the first `n` values of `src`, when the first value is asked for.
    pub fn new(src: S, n: usize) -> (r: Self)
        requires
            src.wf(),
        ensures
            r.wf(),
            forall|k: nat| #[trigger] r.at(k) == src.at((k + n) as nat),
    {
        Skip { src, n }
    }
}

impl<S: LazySequence> LazySequence for Skip<S> {
    type Item = S::Item;

    closed spec fn wf(&self) -> bool {
        self.src.wf()
    }

    closed spec fn at(&self, k: nat) -> Option<S::Item> {
        self.src.at((k + self.n) as nat)
    }

    proof fn lemma_fused(&self, k: nat) {
        self.src.lemma_fused((k + self.n) as nat);
    }

    fn next(&mut self) -> (r: Option<S::Item>) {
        let ghost s0 = self.src;
        let ghost n0 = self.n;
        while self.n > 0
            invariant
                self.src.wf(),
                self.n <= n0,
                forall|m: nat| #[trigger] self.src.at(m) == s0.at((m + (n0 - self.n)) as nat),
            decreases self.n,
        {
            let _ = self.src.next();
            self.n = self.n - 1;
        }
        let r = self.src.next();
        proof {
            assert forall|k: nat| #[trigger] self.at(k) == old(self).at(k + 1) by {
                assert(self.src.at(k) == s0.at((k + 1 + n0) as nat));
            }
        }
        r
    }
}

/// Pairs of the values of two sources, taken in step.
pub struct Zip<A, B> {
    a: A,
    b: B,
}

/// The pair of two values when both are there.
pub open spec fn pair_of<X, Y>(x: Option<X>, y: Option<Y>) -> Option<(X, Y)> {
    match (x, y) {
        (Some(u), Some(v)) => Some((u, v)),
        _ => None,
    }
}

impl<A: LazySequence, B: LazySequence> Zip<A, B> {
    /// Pairs the `k`-th value of `a` with the `k`-th value of `b`.
    pub fn new(a: A, b: B) -> (r: Self)
        requires
            a.wf(),
            b.wf(),
        ensures
            r.wf(),
            forall|k: nat| #[trigger] r.at(k) == pair_of(a.at(k), b.at(k)),
    {
        Zip { a, b }
    }
}

impl<A: LazySequence, B: LazySequence> LazySequence for Zip<A, B> {
    type Item = (A::Item, B::Item);

    closed spec fn wf(&self) -> bool {
        self.a.wf() && self.b.wf()
    }

    closed spec fn at(&self, k: nat) -> Option<(A::Item, B::Item)> {
        pair_of(self.a.at(k), self.b.at(k))
    }

    proof fn lemma_fused(&self, k: nat) {
        if self.a.at(k) is None {
            self.a.lemma_fused(k);
        } else {
            self.b.lemma_fused(k);
        }
    }

    fn next(&mut self) -> (r: Option<(A::Item, B::Item)>) {
        let x = self.a.next();
        let y = self.b.next();
        match (x, y) {
            (Some(u), Some(v)) => Some((u, v)),
            _ => None,
        }
    }
}

/// A source with a separator between each two of its values.
pub struct Intersperse<S: LazySequence> {
    src: S,
    sep: S::Item,
    started: bool,
    pending: Option<S::Item>,
}

impl<S: LazySequence> Intersperse<S> where S::Item: Copy {
    /// Puts `sep` between each two values of `src`, never before the first
    /// nor after the last.
    pub fn new(src: S, sep: S::Item) -> (r: Self)
        requires
            src.wf(),
        ensures
            r.wf(),
            forall|k: nat| #[trigger] r.at(k) == interspersed(src, sep, k),
    {
        Intersperse { src, sep, started: false, pending: None }
    }
}

/// Position `k` of the values of `s` with `sep` between each two of them.
pub open spec fn interspersed<S: LazySequence>(s: S, sep: S::Item, k: nat) -> Option<S::Item> {
    if k % 2 == 0 {
        s.at(k / 2)
    } else if s.at(k / 2 + 1) is Some {
        Some(sep)
    } else {
        None
    }
}

/// Position `k` of what follows a value of `s` once the separators are put
/// in: a separator before each remaining value of `s`.
pub open spec fn separated<S: LazySequence>(s: S, sep: S::Item, k: nat) -> Option<S::Item> {
    if k % 2 == 1 {
        s.at(k / 2)
    } else if s.at(k / 2) is Some {
        Some(sep)
    } else {
        None
    }
}

impl<S: LazySequence> LazySequence for Intersperse<S> where S::Item: Copy {
    type Item = S::Item;

    closed spec fn wf(&self) -> bool {
        &&& self.src.wf()
        &&& !self.started ==> self.pending is None
    }

    closed spec fn at(&self, k: nat) -> Option<S::Item> {
        if !self.started {
            interspersed(self.src, self.sep, k)
        } else {
            match self.pending {
                Some(v) => if k == 0 {
                    Some(v)
                } else {
                    separated(self.src, self.sep, (k - 1) as nat)
                },
                None => separated(self.src, self.sep, k),
            }
        }
    }

    proof fn lemma_fused(&self, k: nat) {
        if !self.started {
            if k % 2 == 0 {
                self.src.lemma_fused(k / 2);
            }
        } else {
            let j: nat = match self.pending {
                Some(_) => (k - 1) as nat,
                None => k,
            };
            if j % 2 == 1 {
                self.src.lemma_fused(j / 2);
            }
        }
    }

    fn next(&mut self) -> (r: Option<S::Item>) {
        if !self.started {
            self.started = true;
            let r = self.src.next();
            proof {
                assert forall|k: nat| #[trigger] self.at(k) == old(self).at(k + 1) by {
                    if k % 2 == 1 {
                        assert((k + 1) / 2 == k / 2 + 1);
                    } else {
                        assert((k + 1) / 2 == k / 2);
                    }
                }
            }
            r
        } else {
            match self.pending {
                Some(v) => {
                    self.pending = None;
                    Some(v)
                },
                None => {
                    let nx = self.src.next();
                    match nx {
                        Some(v) => {
                            self.pending = Some(v);
                            proof {
                                assert forall|k: nat| #[trigger]
                                    self.at(k) == old(self).at(k + 1) by {
                                    if k > 0 {
                                        let j = (k - 1) as nat;
                                        assert((j + 2) / 2 == j / 2 + 1);
                                    }
                                }
                            }
                            Some(self.sep)
                        },
                        None => {
                            proof {
                                old(self).src.lemma_fused(0);
                                assert forall|k: nat| #[trigger]
                                    self.at(k) == old(self).at(k + 1) by {
                                    lemma_exhausted_after(&old(self).src, 0, k / 2 + 1);
                                    lemma_exhausted_after(&old(self).src, 0, (k + 1) / 2);
                                }
                            }
                            None
                        },
                    }
                },
            }
        }
    }
}

/// One value, then the values of a source.
pub struct Prepend<S: LazySequence> {
    first: Option<S::Item>,
    src: S,
}

impl<S: LazySequence> Prepend<S> {
    /// Hands out `v` first, then the values of `src`.
    pub fn new(v: S::Item, src: S) -> (r: Self)
        requires
            src.wf(),
        ensures
            r.wf(),
            r.at(0) == Some(v),
            forall|k: nat| #[trigger] r.at(k + 1) == src.at(k),
    {
        Prepend { first: Some(v), src }
    }
}

impl<S: LazySequence> LazySequence for Prepend<S> {
    type Item = S::Item;

    closed spec fn wf(&self) -> bool {
        self.src.wf()
    }

    closed spec fn at(&self, k: nat) -> Option<S::Item> {
        match self.first {
            Some(v) => if k == 0 {
                Some(v)
            } else {
                self.src.at((k - 1) as nat)
            },
            None => self.src.at(k),
        }
    }

    proof fn lemma_fused(&self, k: nat) {
        match self.first {
            Some(_) => {
                if k > 0 {
                    self.src.lemma_fused((k - 1) as nat);
                }
            },
            None => {
                self.src.lemma_fused(k);
            },
        }
    }

    fn next(&mut self) -> (r: Option<S::Item>) {
        match self.first.take() {
            Some(v) => Some(v),
            None => self.src.next(),
        }
    }
}

/// The first `n` values of a source.
pub struct Take<S> {
    src: S,
    n: usize,
}

impl<S: LazySequence> Take<S> {
    /// Hands out the first `n` values of `src`, then nothing.
    pub fn new(src: S, n: usize) -> (r: Self)
        requires
            src.wf(),
        ensures
            r.wf(),
            forall|k: nat| #[trigger] r.at(k) == if k < n {
                src.at(k)
            } else {
                None
            },
    {
        Take { src, n }
    }
}

impl<S: LazySequence> LazySequence for Take<S> {
    type Item = S::Item;

    closed spec fn wf(&self) -> bool {
        self.src.wf()
    }

    closed spec fn at(&self, k: nat) -> Option<S::Item> {
        if k < self.n {
            self.src.at(k)
        } else {
            None
        }
    }

    proof fn lemma_fused(&self, k: nat) {
        if k + 1 < self.n {
            self.src.lemma_fused(k);
        }
    }

    fn next(&mut self) -> (r: Option<S::Item>) {
        if self.n == 0 {
            None
        } else {
            self.n = self.n - 1;
            self.src.next()
        }
    }
}

/// The values of a source, each with its position.
pub struct Enumerate<S> {
    src: S,
    count: usize,
}

impl<S: LazySequence> Enumerate<S> {
    /// Pairs each value of `src` with its position, counted from zero; stops
    /// before a position that a `usize` cannot hold.
    pub fn new(src: S) -> (r: Self)
        requires
            src.wf(),
        ensures
            r.wf(),
            forall|k: nat| #[trigger] r.at(k) == numbered(src.at(k), k as int),
    {
        Enumerate { src, count: 0 }
    }
}

/// A value with its position `i`, when `i` is below `usize::MAX`.
pub open spec fn numbered<X>(x: Option<X>, i: int) -> Option<(usize, X)> {
    match x {
        Some(v) => if i < usize::MAX {
            Some((i as usize, v))
        } else {
            None
        },
        None => None,
    }
}

impl<S: LazySequence> LazySequence for Enumerate<S> {
    type Item = (usize, S::Item);

    closed spec fn wf(&self) -> bool {
        self.src.wf()
    }

    closed spec fn at(&self, k: nat) -> Option<(usize, S::Item)> {
        numbered(self.src.at(k), self.count + k)
    }

    proof fn lemma_fused(&self, k: nat) {
        if self.src.at(k) is None {
            self.src.lemma_fused(k);
        }
    }

    fn next(&mut self) -> (r: Option<(usize, S::Item)>) {
        if self.count == usize::MAX {
            return None;
        }
        let i = self.count;
        self.count = i + 1;
        match self.src.next() {
            Some(v) => Some((i, v)),
            None => None,
        }
    }
}

/// `r` holds the values of `s` from its start, as many as `n` or up to where
/// `s` is exhausted.
pub open spec fn pulled<S: LazySequence>(s: S, r: Seq<S::Item>, n: nat) -> bool {
    &&& r.len() <= n
    &&& forall|i: int| 0 <= i < r.len() ==> #[trigger] s.at(i as nat) == Some(r[i])
    &&& r.len() < n ==> s.at(r.len()) is None
}

/// Pulls up to `n` values out of `s`, stopping early where `s` is exhausted.
pub fn pull<S: LazySequence>(s: &mut S, n: usize) -> (r: Vec<S::Item>)
    requires
        old(s).wf(),
    ensures
        final(s).wf(),
        pulled(*old(s), r@, n as nat),
        r@.len() == n ==> forall|k: nat| #[trigger]
            final(s).at(k) == old(s).at((k + n) as nat),
{
    let mut r: Vec<S::Item> = Vec::new();
    let mut i: usize = 0;
    while i < n
        invariant
            s.wf(),
            i <= n,
            r@.len() == i,
            forall|j: int| 0 <= j < i ==> #[trigger] old(s).at(j as nat) == Some(r@[j]),
            forall|k: nat| #[trigger] s.at(k) == old(s).at((k + i) as nat),
        decreases n - i,
    {
        match s.next() {
            Some(v) => {
                r.push(v);
                i = i + 1;
                proof {
                    assert forall|k: nat| #[trigger] s.at(k) == old(s).at((k + i) as nat) by {
                        assert((k + 1 + (i - 1)) as nat == (k + i) as nat);
                    }
                }
            },
            None => {
                return r;
            },
        }
    }
    r
}

/// Two sources that agree at every position, such as two fresh sources from
/// one factory, give the same values when each is pulled `n` times.
pub proof fn lemma_pulls_agree<S: LazySequence>(
    a: S,
    b: S,
    ra: Seq<S::Item>,
    rb: Seq<S::Item>,
    n: nat,
)
    requires
        forall|k: nat| #[trigger] a.at(k) == b.at(k),
        pulled(a, ra, n),
        pulled(b, rb, n),
    ensures
        ra == rb,
{
    if ra.len() < rb.len() {
        let i: int = ra.len() as int;
        assert(b.at(i as nat) == Some(rb[i]));
    } else if rb.len() < ra.len() {
        let i: int = rb.len() as int;
        assert(a.at(i as nat) == Some(ra[i]));
    }
    assert forall|i: int| 0 <= i < ra.len() implies ra[i] == rb[i] by {
        assert(a.at(i as nat) == Some(ra[i]));
        assert(b.at(i as nat) == Some(rb[i]));
    }
    assert(ra =~= rb);
}

} // verus!
