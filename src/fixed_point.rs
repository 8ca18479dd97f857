//! A worklist solver for gen/kill dataflow problems over bit rows. The
//! direction is the caller's: a forward analysis lists each location's
//! predecessors as what feeds it, a backward one its successors.
use vstd::prelude::*;

verus! {

/// Number of set entries in a bit row.
pub open spec fn count(b: Seq<bool>) -> nat
    decreases b.len(),
{
    if b.len() == 0 {
        0
    } else {
        count(b.drop_last()) + if b.last() { 1nat } else { 0nat }
    }
}

/// Number of set entries over all rows of a state table.
pub open spec fn total(s: Seq<Seq<bool>>) -> nat
    decreases s.len(),
{
    if s.len() == 0 {
        0
    } else {
        total(s.drop_last()) + count(s.last())
    }
}

/// The rows of a table of bit vectors.
pub open spec fn rows(s: Seq<Vec<bool>>) -> Seq<Seq<bool>> {
    s.map_values(|r: Vec<bool>| r@)
}

/// Row `i` of `rows(s)` is the view of `s[i]`.
pub proof fn lemma_rows(s: Seq<Vec<bool>>)
    ensures
        rows(s).len() == s.len(),
        forall|i: int| #![trigger rows(s)[i]] #![trigger s[i]] 0 <= i < s.len() ==> rows(s)[i] == s[i]@,
{
}

/// Every entry set in `s` is set in `t` too.
pub open spec fn below(s: Seq<Seq<bool>>, t: Seq<Seq<bool>>) -> bool {
    forall|l: int, j: int|
        0 <= l < s.len() && 0 <= j < s[l].len() && #[trigger] s[l][j] ==> t[l][j]
}

/// A dataflow problem over locations `0..flow.len()` and facts `0..facts`.
/// `flow[l]` lists the locations whose states feed location `l`; at `l` the
/// facts in `generate[l]` are added and those in `kill[l]` removed.
pub struct GenKill {
    pub flow: Vec<Vec<usize>>,
    pub generate: Vec<Vec<bool>>,
    pub kill: Vec<Vec<bool>>,
    pub facts: usize,
}

impl GenKill {
    /// The number of locations.
    pub open spec fn size(&self) -> int {
        self.flow@.len() as int
    }

    /// One gen and one kill row of `facts` entries per location, and every
    /// location that feeds another is one of the problem's.
    pub open spec fn wf(&self) -> bool {
        &&& self.generate@.len() == self.size()
        &&& self.kill@.len() == self.size()
        &&& forall|l: int| 0 <= l < self.size() ==> (#[trigger] self.generate@[l])@.len() == self.facts
        &&& forall|l: int| 0 <= l < self.size() ==> (#[trigger] self.kill@[l])@.len() == self.facts
        &&& forall|l: int, k: int|
            0 <= l < self.size() && 0 <= k < self.flow@[l]@.len() ==> #[trigger] self.flow@[l]@[k]
                < self.size()
    }

    /// Fact `j` reaches location `l` from one of the locations feeding it.
    pub open spec fn incoming(&self, s: Seq<Seq<bool>>, l: int, j: int) -> bool {
        exists|k: int|
            0 <= k < self.flow@[l]@.len() && #[trigger] s[self.flow@[l]@[k] as int][j]
    }

    /// Fact `j` holds after location `l` when the table stands at `s`.
    pub open spec fn out(&self, s: Seq<Seq<bool>>, l: int, j: int) -> bool {
        self.generate@[l]@[j] || (!self.kill@[l]@[j] && self.incoming(s, l, j))
    }

    /// A table of the right shape in which every entry equals what flows out
    /// of its location.
    pub open spec fn is_solution(&self, s: Seq<Seq<bool>>) -> bool {
        &&& s.len() == self.size()
        &&& forall|l: int| 0 <= l < self.size() ==> #[trigger] s[l].len() == self.facts
        &&& forall|l: int, j: int|
            0 <= l < self.size() && 0 <= j < self.facts ==> #[trigger] s[l][j] == self.out(s, l, j)
    }

    /// A table of the right shape that holds every entry flowing out of it.
    /// Every solution is closed.
    pub open spec fn is_closed(&self, t: Seq<Seq<bool>>) -> bool {
        &&& t.len() == self.size()
        &&& forall|l: int| 0 <= l < self.size() ==> #[trigger] t[l].len() == self.facts
        &&& forall|l: int, j: int|
            0 <= l < self.size() && 0 <= j < self.facts && #[trigger] self.out(t, l, j) ==> t[l][j]
    }

    /// The least solution: a solution below every closed table, and so below
    /// every other solution.
    pub open spec fn is_least_solution(&self, s: Seq<Seq<bool>>) -> bool {
        &&& self.is_solution(s)
        &&& forall|t: Seq<Seq<bool>>| #[trigger] self.is_closed(t) ==> below(s, t)
    }

    /// A table with a row of `facts` entries for each location.
    pub open spec fn shaped(&self, s: Seq<Seq<bool>>) -> bool {
        &&& s.len() == self.size()
        &&& forall|l: int| 0 <= l < self.size() ==> (#[trigger] s[l]).len() == self.facts
    }

    /// The row of `q` equals what flows out of `q`.
    pub open spec fn stable(&self, s: Seq<Seq<bool>>, q: int) -> bool {
        forall|j: int| 0 <= j < self.facts ==> #[trigger] s[q][j] == self.out(s, q, j)
    }

    /// Every entry set in the table is owed to what flows into it.
    pub open spec fn sound(&self, s: Seq<Seq<bool>>) -> bool {
        forall|q: int, j: int|
            0 <= q < self.size() && 0 <= j < self.facts && #[trigger] s[q][j] ==> self.out(s, q, j)
    }

    /// The table lies below every closed table.
    pub open spec fn under_closed(&self, s: Seq<Seq<bool>>) -> bool {
        forall|t: Seq<Seq<bool>>| #[trigger] self.is_closed(t) ==> below(s, t)
    }
}

proof fn lemma_count_bound(b: Seq<bool>)
    ensures
        count(b) <= b.len(),
    decreases b.len(),
{
    if b.len() > 0 {
        lemma_count_bound(b.drop_last());
    }
}

/// Growing a row pointwise does not lower its count, and a new entry raises it.
proof fn lemma_count_mono(a: Seq<bool>, b: Seq<bool>)
    requires
        a.len() == b.len(),
        forall|i: int| 0 <= i < a.len() && #[trigger] a[i] ==> b[i],
    ensures
        count(a) <= count(b),
        (exists|i: int| 0 <= i < a.len() && !a[i] && #[trigger] b[i]) ==> count(a) < count(b),
    decreases a.len(),
{
    if a.len() > 0 {
        let (a0, b0) = (a.drop_last(), b.drop_last());
        assert forall|i: int| 0 <= i < a0.len() && #[trigger] a0[i] implies b0[i] by {
            assert(a[i]);
        }
        lemma_count_mono(a0, b0);
        if exists|i: int| 0 <= i < a.len() && !a[i] && #[trigger] b[i] {
            let i = choose|i: int| 0 <= i < a.len() && !a[i] && #[trigger] b[i];
            if i < a.len() - 1 {
                assert(!a0[i] && b0[i]);
            }
        }
    }
}

proof fn lemma_total_update(s: Seq<Seq<bool>>, l: int, r: Seq<bool>)
    requires
        0 <= l < s.len(),
    ensures
        total(s.update(l, r)) as int == total(s) - count(s[l]) + count(r),
    decreases s.len(),
{
    let u = s.update(l, r);
    if l == s.len() - 1 {
        assert(u.drop_last() =~= s.drop_last());
    } else {
        assert(u.drop_last() =~= s.drop_last().update(l, r));
        lemma_total_update(s.drop_last(), l, r);
    }
}

proof fn lemma_total_bound(s: Seq<Seq<bool>>, m: int)
    requires
        forall|l: int| 0 <= l < s.len() ==> #[trigger] s[l].len() == m,
    ensures
        total(s) <= s.len() * m,
    decreases s.len(),
{
    if s.len() > 0 {
        lemma_total_bound(s.drop_last(), m);
        lemma_count_bound(s.last());
        assert((s.len() - 1) * m + m == s.len() * m) by (nonlinear_arith);
    }
}

/// What flows out of a location only grows as the table grows.
proof fn lemma_out_mono(p: &GenKill, s: Seq<Seq<bool>>, t: Seq<Seq<bool>>, l: int, j: int)
    requires
        p.wf(),
        0 <= l < p.size(),
        s.len() == p.size(),
        t.len() == p.size(),
        forall|q: int| 0 <= q < p.size() ==> #[trigger] s[q].len() == p.facts,
        0 <= j < p.facts,
        below(s, t),
        p.out(s, l, j),
    ensures
        p.out(t, l, j),
{
    if !p.generate@[l]@[j] {
        let k = choose|k: int| 0 <= k < p.flow@[l]@.len() && #[trigger] s[p.flow@[l]@[k] as int][j];
        let q = p.flow@[l]@[k] as int;
        assert(s[q][j]);
        assert(t[q][j]);
    }
}

/// Set union of two rows of equal length: `acc` grown by the entries of `other`.
pub fn join(acc: Vec<bool>, other: &Vec<bool>) -> (r: Vec<bool>)
    requires
        acc@.len() == other@.len(),
    ensures
        r@.len() == acc@.len(),
        forall|j: int| 0 <= j < r@.len() ==> #[trigger] r@[j] == (acc@[j] || other@[j]),
{
    let mut r = acc;
    let mut j: usize = 0;
    while j < other.len()
        invariant
            r@.len() == acc@.len(),
            acc@.len() == other@.len(),
            j <= r@.len(),
            forall|i: int| 0 <= i < j ==> #[trigger] r@[i] == (acc@[i] || other@[i]),
            forall|i: int| j <= i < r@.len() ==> #[trigger] r@[i] == acc@[i],
        decreases other@.len() - j,
    {
        if other[j] {
            r.set(j, true);
        }
        j = j + 1;
    }
    r
}

/// Whether two rows hold the same entries.
fn same_row(a: &Vec<bool>, b: &Vec<bool>) -> (r: bool)
    requires
        a@.len() == b@.len(),
    ensures
        r == (a@ == b@),
{
    let mut j: usize = 0;
    while j < a.len()
        invariant
            a@.len() == b@.len(),
            j <= a@.len(),
            forall|i: int| 0 <= i < j ==> a@[i] == b@[i],
        decreases a@.len() - j,
    {
        if a[j] != b[j] {
            return false;
        }
        j = j + 1;
    }
    assert(a@ =~= b@);
    true
}

/// For every location, the locations that it feeds.
fn successors(flow: &Vec<Vec<usize>>) -> (succs: Vec<Vec<usize>>)
    requires
        forall|l: int, k: int|
            0 <= l < flow@.len() && 0 <= k < flow@[l]@.len() ==> #[trigger] flow@[l]@[k] < flow@.len(),
    ensures
        succs@.len() == flow@.len(),
        forall|l: int, k: int|
            0 <= l < flow@.len() && 0 <= k < flow@[l]@.len() ==> succs@[#[trigger] flow@[l]@[k] as int]@.contains(
                l as usize,
            ),
        forall|q: int, i: int|
            0 <= q < succs@.len() && 0 <= i < succs@[q]@.len() ==> #[trigger] succs@[q]@[i] < flow@.len(),
{
    let n = flow.len();
    let mut succs: Vec<Vec<usize>> = Vec::new();
    let mut q: usize = 0;
    while q < n
        invariant
            n == flow@.len(),
            q <= n,
            succs@.len() == q,
            forall|x: int| 0 <= x < q ==> (#[trigger] succs@[x])@.len() == 0,
        decreases n - q,
    {
        succs.push(Vec::new());
        q = q + 1;
    }
    let mut l: usize = 0;
    while l < n
        invariant
            n == flow@.len(),
            l <= n,
            succs@.len() == n,
            forall|x: int, k: int|
                0 <= x < n && 0 <= k < flow@[x]@.len() ==> #[trigger] flow@[x]@[k] < n,
            forall|x: int, k: int|
                0 <= x < l && 0 <= k < flow@[x]@.len() ==> succs@[#[trigger] flow@[x]@[k] as int]@.contains(
                    x as usize,
                ),
            forall|y: int, i: int| 0 <= y < n && 0 <= i < succs@[y]@.len() ==> #[trigger] succs@[y]@[i] < n,
        decreases n - l,
    {
        let preds = &flow[l];
        let mut k: usize = 0;
        while k < preds.len()
            invariant
                n == flow@.len(),
                l < n,
                preds@ == flow@[l as int]@,
                k <= preds@.len(),
                succs@.len() == n,
                forall|x: int, k2: int|
                    0 <= x < n && 0 <= k2 < flow@[x]@.len() ==> #[trigger] flow@[x]@[k2] < n,
                forall|x: int, k2: int|
                    0 <= x < l && 0 <= k2 < flow@[x]@.len() ==> succs@[#[trigger] flow@[x]@[k2] as int]@.contains(
                        x as usize,
                    ),
                forall|k2: int|
                    0 <= k2 < k ==> succs@[#[trigger] preds@[k2] as int]@.contains(l),
                forall|y: int, i: int| 0 <= y < n && 0 <= i < succs@[y]@.len() ==> #[trigger] succs@[y]@[i] < n,
            decreases preds@.len() - k,
        {
            let q = preds[k];
            assert(flow@[l as int]@[k as int] < n);
            let ghost before = succs@;
            succs[q].push(l);
            proof {
                assert forall|y: int, i: int| 0 <= y < n && 0 <= i < succs@[y]@.len() implies #[trigger] succs@[y]@[i] < n by {
                    if y == q {
                        if i < before[y]@.len() {
                            assert(succs@[y]@[i] == before[y]@[i]);
                        }
                    }
                }
                assert forall|x: int, k2: int|
                    0 <= x < l && 0 <= k2 < flow@[x]@.len() implies succs@[#[trigger] flow@[x]@[k2] as int]@.contains(
                        x as usize,
                    ) by {
                    let y = flow@[x]@[k2] as int;
                    let i = choose|i: int| 0 <= i < before[y]@.len() && before[y]@[i] == x as usize;
                    assert(succs@[y]@[i] == x as usize);
                }
                assert forall|k2: int| 0 <= k2 <= k implies succs@[#[trigger] preds@[k2] as int]@.contains(l) by {
                    let y = preds@[k2] as int;
                    if k2 == k {
                        assert(succs@[y]@[succs@[y]@.len() - 1] == l);
                    } else {
                        let i = choose|i: int| 0 <= i < before[y]@.len() && before[y]@[i] == l;
                        assert(succs@[y]@[i] == l);
                    }
                }
            }
            k = k + 1;
        }
        l = l + 1;
    }
    succs
}

/// A row of `m` unset entries.
fn empty_row(m: usize) -> (r: Vec<bool>)
    ensures
        r@.len() == m,
        forall|j: int| 0 <= j < m ==> !(#[trigger] r@[j]),
{
    let mut r: Vec<bool> = Vec::new();
    let mut j: usize = 0;
    while j < m
        invariant
            j <= m,
            r@.len() == j,
            forall|i: int| 0 <= i < j ==> !(#[trigger] r@[i]),
        decreases m - j,
    {
        r.push(false);
        j = j + 1;
    }
    r
}

/// The state after location `l`: the join of the states that feed it, less
/// the facts in `kill[l]`, with the facts in `generate[l]` added.
pub fn transfer(p: &GenKill, states: &Vec<Vec<bool>>, l: usize) -> (r: Vec<bool>)
    requires
        p.wf(),
        l < p.size(),
        rows(states@).len() == p.size(),
        forall|q: int| 0 <= q < p.size() ==> #[trigger] rows(states@)[q].len() == p.facts,
    ensures
        r@.len() == p.facts,
        forall|j: int| 0 <= j < p.facts ==> #[trigger] r@[j] == p.out(rows(states@), l as int, j),
{
    let m = p.facts;
    let preds = &p.flow[l];
    proof {
        lemma_rows(states@);
    }
    let mut incoming = empty_row(m);
    let mut k: usize = 0;
    while k < preds.len()
        invariant
            p.wf(),
            l < p.size(),
            m == p.facts,
            preds@ == p.flow@[l as int]@,
            rows(states@).len() == p.size(),
            forall|q: int| 0 <= q < p.size() ==> #[trigger] rows(states@)[q].len() == p.facts,
            k <= preds@.len(),
            incoming@.len() == m,
            forall|j: int|
                0 <= j < m ==> #[trigger] incoming@[j] == exists|k2: int|
                    0 <= k2 < k && #[trigger] rows(states@)[preds@[k2] as int][j],
        decreases preds@.len() - k,
    {
        let q = preds[k];
        proof {
            lemma_rows(states@);
        }
        assert(p.flow@[l as int]@[k as int] < p.size());
        let ghost before = incoming@;
        incoming = join(incoming, &states[q]);
        assert forall|j: int| 0 <= j < m implies #[trigger] incoming@[j] == exists|k2: int|
            0 <= k2 < k + 1 && #[trigger] rows(states@)[preds@[k2] as int][j] by {
            if rows(states@)[q as int][j] {
                assert(rows(states@)[preds@[k as int] as int][j]);
            }
            if exists|k2: int| 0 <= k2 < k + 1 && #[trigger] rows(states@)[preds@[k2] as int][j] {
                let k2 = choose|k2: int| 0 <= k2 < k + 1 && #[trigger] rows(states@)[preds@[k2] as int][j];
                if k2 < k {
                    assert(before[j]);
                }
            }
        }
        k = k + 1;
    }
    let generate = &p.generate[l];
    let kill = &p.kill[l];
    assert(generate@.len() == m && kill@.len() == m);
    let mut r: Vec<bool> = Vec::new();
    let mut j: usize = 0;
    while j < m
        invariant
            p.wf(),
            l < p.size(),
            m == p.facts,
            preds@ == p.flow@[l as int]@,
            generate@ == p.generate@[l as int]@,
            kill@ == p.kill@[l as int]@,
            generate@.len() == m,
            kill@.len() == m,
            incoming@.len() == m,
            forall|i: int|
                0 <= i < m ==> #[trigger] incoming@[i] == p.incoming(rows(states@), l as int, i),
            j <= m,
            r@.len() == j,
            forall|i: int| 0 <= i < j ==> #[trigger] r@[i] == p.out(rows(states@), l as int, i),
        decreases m - j,
    {
        r.push(generate[j] || (!kill[j] && incoming[j]));
        j = j + 1;
    }
    r
}

/// Replacing the row of a location that does not feed `q` leaves what flows
/// out of `q` as it was.
proof fn lemma_out_frame(p: &GenKill, s: Seq<Seq<bool>>, l: int, r: Seq<bool>, q: int, j: int)
    requires
        p.wf(),
        0 <= q < p.size(),
        0 <= l < p.size(),
        s.len() == p.size(),
        forall|k: int| 0 <= k < p.flow@[q]@.len() ==> #[trigger] p.flow@[q]@[k] != l,
    ensures
        p.out(s.update(l, r), q, j) == p.out(s, q, j),
{
    let u = s.update(l, r);
    if p.incoming(u, q, j) {
        let k = choose|k: int| 0 <= k < p.flow@[q]@.len() && #[trigger] u[p.flow@[q]@[k] as int][j];
        assert(s[p.flow@[q]@[k] as int][j]);
    }
    if p.incoming(s, q, j) {
        let k = choose|k: int| 0 <= k < p.flow@[q]@.len() && #[trigger] s[p.flow@[q]@[k] as int][j];
        assert(u[p.flow@[q]@[k] as int][j]);
    }
}

/// Location `q` waits on the worklist at or after position `head`.
pub open spec fn pending(worklist: Seq<usize>, head: int, q: int) -> bool {
    exists|i: int| head <= i < worklist.len() && worklist[i] == q
}


/// Solves `p` by worklist iteration from the empty table. Every location starts
/// on the worklist, in order; a location is taken from the front, its new state
/// is computed from the states that feed it, and if that state was not recorded
/// before, or differs from the recorded one, it is recorded and the locations
/// it feeds go back on the worklist. The result is the least solution.
pub fn fixed_point(p: &GenKill) -> (r: Vec<Vec<bool>>)
    requires
        p.wf(),
    ensures
        p.is_least_solution(rows(r@)),
{
    let n = p.flow.len();
    let m = p.facts;
    let succs = successors(&p.flow);
    let mut states: Vec<Vec<bool>> = Vec::new();
    let mut visited: Vec<bool> = Vec::new();
    let mut queued: Vec<bool> = Vec::new();
    let mut worklist: Vec<usize> = Vec::new();
    let mut l: usize = 0;
    while l < n
        invariant
            n == p.size(),
            m == p.facts,
            l <= n,
            rows(states@).len() == l,
            visited@.len() == l,
            queued@.len() == l,
            worklist@.len() == l,
            forall|q: int| 0 <= q < l ==> (#[trigger] states@[q])@.len() == m,
            forall|q: int, j: int| 0 <= q < l && 0 <= j < m ==> !(#[trigger] states@[q]@[j]),
            forall|q: int| 0 <= q < l ==> #[trigger] queued@[q],
            forall|q: int| 0 <= q < l ==> #[trigger] worklist@[q] == q,
        decreases n - l,
    {
        states.push(empty_row(m));
        proof {
            lemma_rows(states@);
        }
        visited.push(false);
        queued.push(true);
        worklist.push(l);
        l = l + 1;
    }
    proof {
        lemma_rows(states@);
    }
    assert forall|t: Seq<Seq<bool>>| #[trigger] p.is_closed(t) implies below(rows(states@), t) by {}
    assert forall|q: int| 0 <= q < n && #[trigger] queued@[q] implies pending(worklist@, 0, q) by {
        assert(worklist@[q] == q);
    }
    let mut head: usize = 0;
    while head < worklist.len()
        invariant
            p.wf(),
            n == p.size(),
            m == p.facts,
            succs@.len() == n,
            forall|x: int, k: int|
                0 <= x < n && 0 <= k < p.flow@[x]@.len() ==> succs@[#[trigger] p.flow@[x]@[k] as int]@.contains(
                    x as usize,
                ),
            forall|y: int, i: int| 0 <= y < n && 0 <= i < succs@[y]@.len() ==> #[trigger] succs@[y]@[i] < n,
            rows(states@).len() == n,
            forall|q: int| 0 <= q < n ==> (#[trigger] states@[q])@.len() == m,
            visited@.len() == n,
            queued@.len() == n,
            head <= worklist@.len(),
            forall|i: int| 0 <= i < worklist@.len() ==> #[trigger] worklist@[i] < n,
            forall|q: int| 0 <= q < n && #[trigger] queued@[q] ==> pending(worklist@, head as int, q),
            forall|q: int| 0 <= q < n && !(#[trigger] queued@[q]) ==> p.stable(rows(states@), q),
            p.sound(rows(states@)),
            p.under_closed(rows(states@)),
        decreases n * m - total(rows(states@)) + n - count(visited@), worklist@.len() - head,
    {
        let l = worklist[head];
        head = head + 1;
        queued.set(l, false);
        assert forall|q: int| 0 <= q < n && #[trigger] queued@[q] implies pending(worklist@, head as int, q) by {
            let i = choose|i: int| head - 1 <= i < worklist@.len() && worklist@[i] == q;
            assert(i != head - 1);
        }
        let row = transfer(p, &states, l);
        let changed = if visited[l] {
            !same_row(&row, &states[l])
        } else {
            true
        };
        let ghost s0 = rows(states@);
        proof {
            lemma_rows(states@);
        }
        let ghost v0 = visited@;
        if changed {
            proof {
                lemma_total_bound(s0, m as int);
                lemma_count_bound(v0);
                assert forall|j: int| 0 <= j < m && #[trigger] s0[l as int][j] implies row@[j] by {}
                lemma_count_mono(s0[l as int], row@);
                lemma_count_mono(v0, v0.update(l as int, true));
                if v0[l as int] {
                    if forall|j: int| 0 <= j < m ==> row@[j] == s0[l as int][j] {
                        assert(row@ =~= s0[l as int]);
                    }
                    let j = choose|j: int| 0 <= j < m && row@[j] != s0[l as int][j];
                    assert(!s0[l as int][j] && row@[j]);
                } else {
                    assert(!v0[l as int] && v0.update(l as int, true)[l as int]);
                }
            }
            states.set(l, row);
            visited.set(l, true);
            proof {
                lemma_rows(states@);
                let s1 = rows(states@);
                assert(s1 =~= s0.update(l as int, row@));
                lemma_total_update(s0, l as int, row@);
                lemma_total_bound(s1, m as int);
                lemma_count_bound(visited@);
                assert(below(s0, s1));
                assert forall|q: int, j: int|
                    0 <= q < n && 0 <= j < m && #[trigger] s1[q][j] implies p.out(s1, q, j) by {
                    lemma_out_mono(p, s0, s1, q, j);
                }
                assert forall|t: Seq<Seq<bool>>| #[trigger] p.is_closed(t) implies below(s1, t) by {
                    assert forall|q: int, j: int|
                        0 <= q < s1.len() && 0 <= j < s1[q].len() && #[trigger] s1[q][j] implies t[q][j] by {
                        if q == l {
                            lemma_out_mono(p, s0, t, q, j);
                        }
                    }
                }
                assert forall|q: int| 0 <= q < n && !(#[trigger] queued@[q]) && !succs@[l as int]@.contains(
                    q as usize,
                ) implies p.stable(s1, q) by {
                    assert forall|k: int| 0 <= k < p.flow@[q]@.len() implies #[trigger] p.flow@[q]@[k] != l by {
                        if p.flow@[q]@[k] == l {
                            assert(succs@[p.flow@[q]@[k] as int]@.contains(q as usize));
                        }
                    }
                    assert forall|j: int| 0 <= j < m implies #[trigger] s1[q][j] == p.out(s1, q, j) by {
                        lemma_out_frame(p, s0, l as int, row@, q, j);
                    }
                }
            }
            let ls = &succs[l];
            let mut i: usize = 0;
            while i < ls.len()
                invariant
                    n == p.size(),
                    queued@.len() == n,
                    ls@ == succs@[l as int]@,
                    forall|i2: int| 0 <= i2 < ls@.len() ==> #[trigger] ls@[i2] < n,
                    i <= ls@.len(),
                    head <= worklist@.len(),
                    forall|i2: int| 0 <= i2 < worklist@.len() ==> #[trigger] worklist@[i2] < n,
                    forall|q: int| 0 <= q < n && #[trigger] queued@[q] ==> pending(worklist@, head as int, q),
                    forall|q: int|
                        0 <= q < n && !(#[trigger] queued@[q]) && !ls@.contains(q as usize) ==> p.stable(
                            rows(states@),
                            q,
                        ),
                    forall|i2: int| 0 <= i2 < i ==> queued@[#[trigger] ls@[i2] as int],
                decreases ls@.len() - i,
            {
                let q = ls[i];
                if !queued[q] {
                    let ghost w0 = worklist@;
                    worklist.push(q);
                    queued.set(q, true);
                    assert forall|x: int| 0 <= x < n && #[trigger] queued@[x] implies pending(worklist@, head as int, x) by {
                        if x == q {
                            assert(worklist@[worklist@.len() - 1] == q);
                        } else {
                            let i2 = choose|i2: int| head <= i2 < w0.len() && w0[i2] == x;
                            assert(worklist@[i2] == x);
                        }
                    }
                }
                i = i + 1;
            }
            assert forall|q: int| 0 <= q < n && !(#[trigger] queued@[q]) implies p.stable(rows(states@), q) by {
                if ls@.contains(q as usize) {
                    let i2 = choose|i2: int| 0 <= i2 < ls@.len() && ls@[i2] == q as usize;
                    assert(queued@[ls@[i2] as int]);
                }
            }
        } else {
            assert(row@ =~= rows(states@)[l as int]);
        }
    }
    assert forall|q: int| 0 <= q < n implies p.stable(rows(states@), q) by {
        if queued@[q] {
            assert(pending(worklist@, head as int, q));
        }
    }
    assert forall|q: int, j: int| 0 <= q < n && 0 <= j < m implies #[trigger] rows(states@)[q][j] == p.out(
        rows(states@),
        q,
        j,
    ) by {
        assert(p.stable(rows(states@), q));
    }
    states
}


/// The iteration starts below the least solution: the empty table lies below
/// it, and every entry of the empty table is owed to what flows into it.
pub proof fn lemma_start_below(p: &GenKill, s: Seq<Seq<bool>>, r: Seq<Seq<bool>>)
    requires
        p.wf(),
        p.is_least_solution(r),
        p.shaped(s),
        forall|l: int, j: int| 0 <= l < p.size() && 0 <= j < p.facts ==> !(#[trigger] s[l][j]),
    ensures
        below(s, r),
        p.sound(s),
{
}

/// One step of the iteration records at `l` what flows out of `l`. From a
/// table below the least solution whose entries are all owed to what flows
/// into them, the step only adds entries, stays below the least solution, and
/// keeps every entry owed: so the states met along the iteration only grow,
/// and each lies below the final one.
pub proof fn lemma_step_grows_below(p: &GenKill, s: Seq<Seq<bool>>, l: int, row: Seq<bool>, r: Seq<Seq<bool>>)
    requires
        p.wf(),
        p.is_least_solution(r),
        p.shaped(s),
        below(s, r),
        p.sound(s),
        0 <= l < p.size(),
        row.len() == p.facts,
        forall|j: int| 0 <= j < p.facts ==> #[trigger] row[j] == p.out(s, l, j),
    ensures
        below(s, s.update(l, row)),
        below(s.update(l, row), r),
        p.sound(s.update(l, row)),
{
    let s1 = s.update(l, row);
    assert(below(s, s1));
    assert forall|q: int, j: int|
        0 <= q < s1.len() && 0 <= j < s1[q].len() && #[trigger] s1[q][j] implies r[q][j] by {
        if q == l {
            lemma_out_mono(p, s, r, q, j);
        }
    }
    assert forall|q: int, j: int|
        0 <= q < p.size() && 0 <= j < p.facts && #[trigger] s1[q][j] implies p.out(s1, q, j) by {
        lemma_out_mono(p, s, s1, q, j);
    }
}

} // verus!
