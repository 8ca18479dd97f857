//! Reaching definitions: for every location of a function, the definitions
//! (instruction locations that write a variable) whose value may still be
//! observed there.
use vstd::prelude::*;
use crate::fixed_point::{below, fixed_point, lemma_rows, rows, GenKill};
use crate::il::{location_index, Function, GraphError, ProgramLocation};

verus! {

/// `l` is a definition: an instruction that writes a variable.
pub open spec fn defines(f: Function, l: ProgramLocation) -> bool {
    f.written_at(l) is Some
}

/// A write at `l` overwrites definition `d`: both write the same storage.
pub open spec fn kills(f: Function, l: ProgramLocation, d: ProgramLocation) -> bool {
    &&& f.written_at(l) is Some
    &&& f.written_at(d) is Some
    &&& f.written_at(l).unwrap().same_storage_spec(&f.written_at(d).unwrap())
}

/// Definition `j` reaches the end of location `k` in table `s`: `k` is `j`
/// itself, or `j` reaches a location that flows into `k` and `k` does not
/// overwrite it. Rows and entries go by canonical index.
pub open spec fn reaching_step(f: Function, s: Seq<Seq<bool>>, k: int, j: int) -> bool {
    let locs = f.locations_spec();
    (j == k && defines(f, locs[k])) || (!kills(f, locs[k], locs[j]) && exists|x: int|
        0 <= x < locs.len() && f.flows_into(locs[x], locs[k]) && #[trigger] s[x][j])
}

/// A table over the function's locations that every location agrees with.
pub open spec fn is_reaching_solution(f: Function, s: Seq<Seq<bool>>) -> bool {
    let n = f.locations_spec().len();
    &&& s.len() == n
    &&& forall|k: int| 0 <= k < n ==> (#[trigger] s[k]).len() == n
    &&& forall|k: int, j: int| 0 <= k < n && 0 <= j < n ==> #[trigger] s[k][j] == reaching_step(f, s, k, j)
}

/// A table over the function's locations that holds every entry its
/// locations produce. Every solution is closed.
pub open spec fn is_reaching_closed(f: Function, t: Seq<Seq<bool>>) -> bool {
    let n = f.locations_spec().len();
    &&& t.len() == n
    &&& forall|k: int| 0 <= k < n ==> (#[trigger] t[k]).len() == n
    &&& forall|k: int, j: int| 0 <= k < n && 0 <= j < n && #[trigger] reaching_step(f, t, k, j) ==> t[k][j]
}

/// The reaching definitions of `f`: the solution below every closed table,
/// and so the least solution.
pub open spec fn is_reaching(f: Function, s: Seq<Seq<bool>>) -> bool {
    &&& is_reaching_solution(f, s)
    &&& forall|t: Seq<Seq<bool>>| #[trigger] is_reaching_closed(f, t) ==> below(s, t)
}

/// `m` lists, for every location of `f` in canonical order, the definitions
/// that reach the end of it.
pub open spec fn reaching_table(f: Function, m: Seq<(ProgramLocation, Vec<ProgramLocation>)>) -> bool {
    exists|s: Seq<Seq<bool>>| is_reaching(f, s) && #[trigger] represents(f, m, s)
}

/// Entry `e` stands for row `k` of table `s`: its location is the `k`-th, and
/// it lists the locations whose entries are set in that row.
pub open spec fn row_represents(
    locs: Seq<ProgramLocation>,
    e: (ProgramLocation, Vec<ProgramLocation>),
    k: int,
    s: Seq<Seq<bool>>,
) -> bool {
    &&& e.0 == locs[k]
    &&& forall|q: ProgramLocation|
        e.1@.contains(q) <==> exists|j: int| 0 <= j < locs.len() && s[k][j] && #[trigger] locs[j] == q
}

/// `m` lists the rows of `s`, one entry per location of `f` in canonical order.
pub open spec fn represents(f: Function, m: Seq<(ProgramLocation, Vec<ProgramLocation>)>, s: Seq<Seq<bool>>) -> bool {
    &&& m.len() == f.locations_spec().len()
    &&& forall|k: int| 0 <= k < m.len() ==> #[trigger] row_represents(f.locations_spec(), m[k], k, s)
}

/// `p` states the reaching-definitions problem of `f`.
pub open spec fn models(f: Function, p: GenKill) -> bool {
    let locs = f.locations_spec();
    let n = locs.len();
    &&& p.wf()
    &&& p.size() == n
    &&& p.facts == n
    &&& forall|k: int| 0 <= k < n ==> f.flow_row(locs[k], #[trigger] p.flow@[k]@)
    &&& forall|k: int, j: int|
        0 <= k < n && 0 <= j < n ==> #[trigger] p.generate@[k]@[j] == (j == k && defines(f, locs[k]))
    &&& forall|k: int, j: int|
        0 <= k < n && 0 <= j < n ==> #[trigger] p.kill@[k]@[j] == kills(f, locs[k], locs[j])
}

proof fn lemma_out_is_step(f: Function, p: GenKill, t: Seq<Seq<bool>>)
    requires
        models(f, p),
        t.len() == f.locations_spec().len(),
        forall|k: int| 0 <= k < t.len() ==> (#[trigger] t[k]).len() == t.len(),
    ensures
        forall|k: int, j: int|
            0 <= k < t.len() && 0 <= j < t.len() ==> #[trigger] p.out(t, k, j) == reaching_step(f, t, k, j),
{
    let locs = f.locations_spec();
    let n = locs.len();
    assert forall|k: int, j: int| 0 <= k < n && 0 <= j < n implies #[trigger] p.out(t, k, j)
        == reaching_step(f, t, k, j) by {
        let row = p.flow@[k]@;
        assert(f.flow_row(locs[k], row));
        if p.incoming(t, k, j) {
            let i = choose|i: int| 0 <= i < row.len() && #[trigger] t[row[i] as int][j];
            let x = row[i] as int;
            assert(row.contains(x as usize));
            assert(f.flows_into(locs[x], locs[k]));
        }
        if exists|x: int| 0 <= x < n && f.flows_into(locs[x], locs[k]) && #[trigger] t[x][j] {
            let x = choose|x: int| 0 <= x < n && f.flows_into(locs[x], locs[k]) && #[trigger] t[x][j];
            assert(row.contains(x as usize));
            let i = choose|i: int| 0 <= i < row.len() && row[i] == x as usize;
            assert(t[row[i] as int][j]);
        }
    }
}

proof fn lemma_models(f: Function, p: GenKill)
    requires
        models(f, p),
    ensures
        forall|t: Seq<Seq<bool>>| #[trigger] p.is_solution(t) <==> is_reaching_solution(f, t),
        forall|t: Seq<Seq<bool>>| #[trigger] p.is_closed(t) <==> is_reaching_closed(f, t),
{
    let n = f.locations_spec().len();
    assert forall|t: Seq<Seq<bool>>| #[trigger] p.is_solution(t) <==> is_reaching_solution(f, t) by {
        if t.len() == n && forall|k: int| 0 <= k < n ==> (#[trigger] t[k]).len() == n {
            lemma_out_is_step(f, p, t);
        }
    }
    assert forall|t: Seq<Seq<bool>>| #[trigger] p.is_closed(t) <==> is_reaching_closed(f, t) by {
        if t.len() == n && forall|k: int| 0 <= k < n ==> (#[trigger] t[k]).len() == n {
            lemma_out_is_step(f, p, t);
            if p.is_closed(t) {
                assert forall|k: int, j: int|
                    0 <= k < n && 0 <= j < n && #[trigger] reaching_step(f, t, k, j) implies t[k][j] by {
                    assert(p.out(t, k, j));
                }
            }
            if is_reaching_closed(f, t) {
                assert forall|k: int, j: int|
                    0 <= k < p.size() && 0 <= j < p.facts && #[trigger] p.out(t, k, j) implies t[k][j] by {
                    assert(reaching_step(f, t, k, j));
                }
            }
        }
    }
}

/// The definitions that location `k` generates: `k` itself, where it writes a
/// variable.
fn generate_row(f: &Function, locs: &Vec<ProgramLocation>, k: usize) -> (r: Vec<bool>)
    requires
        locs@ == f.locations_spec(),
        k < locs@.len(),
    ensures
        r@.len() == locs@.len(),
        forall|j: int| 0 <= j < locs@.len() ==> #[trigger] r@[j] == (j == k && defines(*f, locs@[k as int])),
{
    proof {
        f.lemma_locations();
    }
    let writes = f.written(locs[k]).is_some();
    let mut r: Vec<bool> = Vec::new();
    let mut j: usize = 0;
    while j < locs.len()
        invariant
            j <= locs@.len(),
            r@.len() == j,
            writes == defines(*f, locs@[k as int]),
            forall|i: int| 0 <= i < j ==> #[trigger] r@[i] == (i == k && writes),
        decreases locs@.len() - j,
    {
        r.push(j == k && writes);
        j = j + 1;
    }
    r
}

/// The definitions that location `k` overwrites: those that write the same
/// storage as `k`.
fn kill_row(f: &Function, locs: &Vec<ProgramLocation>, k: usize) -> (r: Vec<bool>)
    requires
        locs@ == f.locations_spec(),
        k < locs@.len(),
    ensures
        r@.len() == locs@.len(),
        forall|j: int| 0 <= j < locs@.len() ==> #[trigger] r@[j] == kills(*f, locs@[k as int], locs@[j]),
{
    proof {
        f.lemma_locations();
    }
    let target = f.written(locs[k]);
    let mut r: Vec<bool> = Vec::new();
    let mut j: usize = 0;
    while j < locs.len()
        invariant
            locs@ == f.locations_spec(),
            k < locs@.len(),
            forall|i: int| 0 <= i < locs@.len() ==> f.has_location(#[trigger] locs@[i]),
            match target {
                Some(v) => f.written_at(locs@[k as int]) == Some(*v),
                None => f.written_at(locs@[k as int]) is None,
            },
            j <= locs@.len(),
            r@.len() == j,
            forall|i: int| 0 <= i < j ==> #[trigger] r@[i] == kills(*f, locs@[k as int], locs@[i]),
        decreases locs@.len() - j,
    {
        let overwritten = match target {
            Some(v) => match f.written(locs[j]) {
                Some(w) => v.same_storage(w),
                None => false,
            },
            None => false,
        };
        r.push(overwritten);
        j = j + 1;
    }
    r
}

/// The reaching-definitions problem of `f` over its canonical locations.
pub fn problem(f: &Function, locs: &Vec<ProgramLocation>) -> (p: GenKill)
    requires
        f.wf(),
        locs@ == f.locations_spec(),
    ensures
        models(*f, p),
{
    let n = locs.len();
    let flow = f.flow(locs);
    let mut generate: Vec<Vec<bool>> = Vec::new();
    let mut kill: Vec<Vec<bool>> = Vec::new();
    let mut k: usize = 0;
    while k < n
        invariant
            n == locs@.len(),
            locs@ == f.locations_spec(),
            k <= n,
            generate@.len() == k,
            kill@.len() == k,
            forall|x: int| 0 <= x < k ==> (#[trigger] generate@[x])@.len() == n,
            forall|x: int| 0 <= x < k ==> (#[trigger] kill@[x])@.len() == n,
            forall|x: int, j: int|
                0 <= x < k && 0 <= j < n ==> #[trigger] generate@[x]@[j] == (j == x && defines(*f, locs@[x])),
            forall|x: int, j: int|
                0 <= x < k && 0 <= j < n ==> #[trigger] kill@[x]@[j] == kills(*f, locs@[x], locs@[j]),
        decreases n - k,
    {
        generate.push(generate_row(f, locs, k));
        kill.push(kill_row(f, locs, k));
        k = k + 1;
    }
    let p = GenKill { flow, generate, kill, facts: n };
    assert forall|l: int, i: int| 0 <= l < p.size() && 0 <= i < p.flow@[l]@.len() implies #[trigger] p.flow@[l]@[i]
        < p.size() by {
        assert(f.flow_row(locs@[l], p.flow@[l]@));
    }
    p
}

/// The locations whose entry is set in `row`, in canonical order.
fn members(locs: &Vec<ProgramLocation>, row: &Vec<bool>) -> (r: Vec<ProgramLocation>)
    requires
        row@.len() == locs@.len(),
    ensures
        forall|q: ProgramLocation|
            r@.contains(q) <==> exists|j: int| 0 <= j < locs@.len() && row@[j] && #[trigger] locs@[j] == q,
{
    let mut r: Vec<ProgramLocation> = Vec::new();
    let ghost mut from: Seq<int> = Seq::empty();
    let mut j: usize = 0;
    while j < locs.len()
        invariant
            row@.len() == locs@.len(),
            j <= locs@.len(),
            from.len() == r@.len(),
            forall|i: int|
                0 <= i < r@.len() ==> 0 <= #[trigger] from[i] < j && row@[from[i]] && locs@[from[i]] == r@[i],
            forall|x: int| 0 <= x < j && row@[x] ==> r@.contains(#[trigger] locs@[x]),
        decreases locs@.len() - j,
    {
        let ghost r0 = r@;
        if row[j] {
            r.push(locs[j]);
            proof {
                from = from.push(j as int);
            }
            assert(r@[r@.len() - 1] == locs@[j as int]);
        }
        assert forall|x: int| 0 <= x < j + 1 && row@[x] implies r@.contains(#[trigger] locs@[x]) by {
            if x < j {
                let i = choose|i: int| 0 <= i < r0.len() && r0[i] == locs@[x];
                assert(r@[i] == r0[i]);
            } else {
                assert(r@[r@.len() - 1] == locs@[j as int]);
            }
        }
        j = j + 1;
    }
    assert forall|q: ProgramLocation| r@.contains(q) implies exists|j: int|
        0 <= j < locs@.len() && row@[j] && #[trigger] locs@[j] == q by {
        let i = choose|i: int| 0 <= i < r@.len() && r@[i] == q;
        assert(locs@[from[i]] == q);
    }
    r
}

/// Computes the reaching definitions of `f`: every location in canonical
/// order, each with the definitions that reach the end of it. Fails where an
/// edge names a block that does not exist.
pub fn reaching_definitions(f: &Function) -> (r: Result<Vec<(ProgramLocation, Vec<ProgramLocation>)>, GraphError>)
    ensures
        r is Ok <==> f.wf(),
        r matches Err(GraphError::MissingBlock { edge }) ==> edge < f.edges@.len() && (
        f.edges@[edge as int].head >= f.blocks@.len() || f.edges@[edge as int].tail >= f.blocks@.len()),
        r matches Ok(m) ==> reaching_table(*f, m@),
{
    match f.check() {
        Err(e) => Err(e),
        Ok(()) => {
            let locs = f.locations();
            let p = problem(f, &locs);
            let states = fixed_point(&p);
            proof {
                lemma_rows(states@);
                lemma_least(*f, p, rows(states@));
            }
            let m = entries(&locs, &states);
            assert(is_reaching(*f, rows(states@)) && represents(*f, m@, rows(states@)));
            assert(reaching_table(*f, m@));
            Ok(m)
        },
    }
}

proof fn lemma_least(f: Function, p: GenKill, s: Seq<Seq<bool>>)
    requires
        models(f, p),
        p.is_least_solution(s),
    ensures
        is_reaching(f, s),
{
    lemma_models(f, p);
    assert forall|t: Seq<Seq<bool>>| #[trigger] is_reaching_closed(f, t) implies below(s, t) by {
        assert(p.is_closed(t));
    }
}

/// One entry per row of `states`: the row's location and the locations whose
/// entries are set in it.
fn entries(locs: &Vec<ProgramLocation>, states: &Vec<Vec<bool>>) -> (m: Vec<(ProgramLocation, Vec<ProgramLocation>)>)
    requires
        states@.len() == locs@.len(),
        forall|x: int| 0 <= x < locs@.len() ==> (#[trigger] states@[x])@.len() == locs@.len(),
    ensures
        m@.len() == locs@.len(),
        forall|x: int| 0 <= x < locs@.len() ==> #[trigger] row_represents(locs@, m@[x], x, rows(states@)),
{
    proof {
        lemma_rows(states@);
    }
    let mut m: Vec<(ProgramLocation, Vec<ProgramLocation>)> = Vec::new();
    let mut k: usize = 0;
    while k < locs.len()
        invariant
            states@.len() == locs@.len(),
            forall|x: int| 0 <= x < locs@.len() ==> (#[trigger] states@[x])@.len() == locs@.len(),
            k <= locs@.len(),
            m@.len() == k,
            forall|x: int| 0 <= x < k ==> #[trigger] row_represents(locs@, m@[x], x, rows(states@)),
        decreases locs@.len() - k,
    {
        m.push((locs[k], members(locs, &states[k])));
        k = k + 1;
    }
    m
}

/// The table lists every location of the function exactly once, in canonical
/// order.
pub proof fn lemma_covers_each_location_once(f: Function, m: Seq<(ProgramLocation, Vec<ProgramLocation>)>)
    requires
        reaching_table(f, m),
    ensures
        m.len() == f.locations_spec().len(),
        forall|k: int| 0 <= k < m.len() ==> f.has_location(#[trigger] m[k].0),
        forall|l: ProgramLocation|
            #[trigger] f.has_location(l) ==> 0 <= location_index(f, l) < m.len() && m[location_index(f, l)].0 == l,
        forall|k1: int, k2: int|
            0 <= k1 < m.len() && 0 <= k2 < m.len() && #[trigger] m[k1].0 == #[trigger] m[k2].0 ==> k1 == k2,
{
    let s = choose|s: Seq<Seq<bool>>| is_reaching(f, s) && #[trigger] represents(f, m, s);
    let locs = f.locations_spec();
    f.lemma_locations();
    assert forall|k: int| 0 <= k < m.len() implies f.has_location(#[trigger] m[k].0) by {
        assert(row_represents(locs, m[k], k, s));
    }
    assert forall|l: ProgramLocation| #[trigger] f.has_location(l) implies 0 <= location_index(f, l) < m.len()
        && m[location_index(f, l)].0 == l by {
        assert(row_represents(locs, m[location_index(f, l)], location_index(f, l), s));
    }
    assert forall|k1: int, k2: int|
        0 <= k1 < m.len() && 0 <= k2 < m.len() && #[trigger] m[k1].0 == #[trigger] m[k2].0 implies k1 == k2 by {
        assert(row_represents(locs, m[k1], k1, s));
        assert(row_represents(locs, m[k2], k2, s));
        assert(location_index(f, locs[k1]) == k1);
        assert(location_index(f, locs[k2]) == k2);
    }
}

proof fn lemma_solution_is_closed(f: Function, s: Seq<Seq<bool>>)
    requires
        is_reaching_solution(f, s),
    ensures
        is_reaching_closed(f, s),
{
    let n = f.locations_spec().len();
    assert forall|k: int, j: int| 0 <= k < n && 0 <= j < n && #[trigger] reaching_step(f, s, k, j) implies s[k][j] by {}
}

/// Two tables of reaching definitions of the same function agree: the same
/// location at each position, with the same definitions.
pub proof fn lemma_deterministic(
    f: Function,
    m1: Seq<(ProgramLocation, Vec<ProgramLocation>)>,
    m2: Seq<(ProgramLocation, Vec<ProgramLocation>)>,
)
    requires
        reaching_table(f, m1),
        reaching_table(f, m2),
    ensures
        m1.len() == m2.len(),
        forall|k: int| 0 <= k < m1.len() ==> #[trigger] m1[k].0 == m2[k].0,
        forall|k: int, q: ProgramLocation|
            0 <= k < m1.len() ==> (#[trigger] m1[k].1@.contains(q) <==> m2[k].1@.contains(q)),
{
    let s1 = choose|s: Seq<Seq<bool>>| is_reaching(f, s) && #[trigger] represents(f, m1, s);
    let s2 = choose|s: Seq<Seq<bool>>| is_reaching(f, s) && #[trigger] represents(f, m2, s);
    let locs = f.locations_spec();
    lemma_solution_is_closed(f, s1);
    lemma_solution_is_closed(f, s2);
    assert(below(s1, s2));
    assert(below(s2, s1));
    assert forall|k: int| 0 <= k < m1.len() implies #[trigger] m1[k].0 == m2[k].0 by {
        assert(row_represents(locs, m1[k], k, s1));
        assert(row_represents(locs, m2[k], k, s2));
    }
    assert forall|k: int, q: ProgramLocation|
        0 <= k < m1.len() implies (#[trigger] m1[k].1@.contains(q) <==> m2[k].1@.contains(q)) by {
        assert(row_represents(locs, m1[k], k, s1));
        assert(row_represents(locs, m2[k], k, s2));
        if m1[k].1@.contains(q) {
            let j = choose|j: int| 0 <= j < locs.len() && s1[k][j] && #[trigger] locs[j] == q;
            assert(s2[k][j]);
        }
        if m2[k].1@.contains(q) {
            let j = choose|j: int| 0 <= j < locs.len() && s2[k][j] && #[trigger] locs[j] == q;
            assert(s1[k][j]);
        }
    }
}

/// The definitions present at a location are the union of those present at
/// the locations flowing into it, less those it overwrites, plus itself where
/// it writes a variable. At a location that writes nothing this is the union
/// alone.
pub proof fn lemma_join_is_union(f: Function, m: Seq<(ProgramLocation, Vec<ProgramLocation>)>, k: int)
    requires
        reaching_table(f, m),
        0 <= k < m.len(),
    ensures
        forall|q: ProgramLocation|
            #[trigger] m[k].1@.contains(q) <==> ((q == m[k].0 && defines(f, q)) || (!kills(f, m[k].0, q)
                && exists|x: int|
                0 <= x < m.len() && f.flows_into(m[x].0, m[k].0) && #[trigger] m[x].1@.contains(q))),
        !defines(f, m[k].0) ==> forall|q: ProgramLocation|
            #[trigger] m[k].1@.contains(q) <==> exists|x: int|
                0 <= x < m.len() && f.flows_into(m[x].0, m[k].0) && #[trigger] m[x].1@.contains(q),
{
    let s = choose|s: Seq<Seq<bool>>| is_reaching(f, s) && #[trigger] represents(f, m, s);
    let locs = f.locations_spec();
    f.lemma_locations();
    assert(row_represents(locs, m[k], k, s));
    assert forall|q: ProgramLocation|
        #[trigger] m[k].1@.contains(q) <==> ((q == m[k].0 && defines(f, q)) || (!kills(f, m[k].0, q)
            && exists|x: int|
            0 <= x < m.len() && f.flows_into(m[x].0, m[k].0) && #[trigger] m[x].1@.contains(q))) by {
        if m[k].1@.contains(q) {
            let j = choose|j: int| 0 <= j < locs.len() && s[k][j] && #[trigger] locs[j] == q;
            assert(reaching_step(f, s, k, j));
            if !(j == k && defines(f, locs[k])) {
                let x = choose|x: int| 0 <= x < locs.len() && f.flows_into(locs[x], locs[k]) && #[trigger] s[x][j];
                assert(row_represents(locs, m[x], x, s));
                assert(m[x].1@.contains(q));
            }
        }
        if q == m[k].0 && defines(f, q) {
            assert(reaching_step(f, s, k, k));
            assert(s[k][k]);
        }
        if !kills(f, m[k].0, q) && exists|x: int|
            0 <= x < m.len() && f.flows_into(m[x].0, m[k].0) && #[trigger] m[x].1@.contains(q) {
            let x = choose|x: int| 0 <= x < m.len() && f.flows_into(m[x].0, m[k].0) && #[trigger] m[x].1@.contains(q);
            assert(row_represents(locs, m[x], x, s));
            let j = choose|j: int| 0 <= j < locs.len() && s[x][j] && #[trigger] locs[j] == q;
            assert(reaching_step(f, s, k, j));
        }
    }
}

/// At a location that writes a variable, the location itself is present and
/// every other write to the same storage is gone.
pub proof fn lemma_definition_kills(f: Function, m: Seq<(ProgramLocation, Vec<ProgramLocation>)>, k: int)
    requires
        reaching_table(f, m),
        0 <= k < m.len(),
        defines(f, m[k].0),
    ensures
        m[k].1@.contains(m[k].0),
        forall|q: ProgramLocation| #[trigger] m[k].1@.contains(q) && kills(f, m[k].0, q) ==> q == m[k].0,
{
    let s = choose|s: Seq<Seq<bool>>| is_reaching(f, s) && #[trigger] represents(f, m, s);
    let locs = f.locations_spec();
    assert(row_represents(locs, m[k], k, s));
    assert(s[k][k] == reaching_step(f, s, k, k));
    assert(locs[k] == m[k].0);
    assert forall|q: ProgramLocation| #[trigger] m[k].1@.contains(q) && kills(f, m[k].0, q) implies q == m[k].0 by {
        let j = choose|j: int| 0 <= j < locs.len() && s[k][j] && #[trigger] locs[j] == q;
        assert(reaching_step(f, s, k, j));
    }
}

/// `z` is a region guarded by definition `d`: `d` is a location of the
/// function that writes a variable and lies outside the region, no location
/// of the region writes the storage `d` writes, and whatever flows into a
/// location of the region is `d` or another location of the region. Every
/// path into the region thus passes through `d` with no later write to that
/// storage: `d` dominates the region.
pub open spec fn guarded_by(f: Function, d: ProgramLocation, z: Set<ProgramLocation>) -> bool {
    &&& f.has_location(d)
    &&& defines(f, d)
    &&& !z.contains(d)
    &&& forall|l: ProgramLocation| #[trigger] z.contains(l) ==> !kills(f, d, l)
    &&& forall|p: ProgramLocation, l: ProgramLocation|
        #[trigger] z.contains(l) && #[trigger] f.flows_into(p, l) && f.has_location(p) ==> p == d || z.contains(p)
}

/// At every location of a region that definition `d` guards, `d` is the only
/// write to its storage among the definitions present.
pub proof fn lemma_dominating_definition(
    f: Function,
    m: Seq<(ProgramLocation, Vec<ProgramLocation>)>,
    d: ProgramLocation,
    z: Set<ProgramLocation>,
    k: int,
)
    requires
        reaching_table(f, m),
        guarded_by(f, d, z),
        0 <= k < m.len(),
        z.contains(m[k].0),
    ensures
        forall|q: ProgramLocation| #[trigger] m[k].1@.contains(q) && kills(f, d, q) ==> q == d,
{
    let s = choose|s: Seq<Seq<bool>>| is_reaching(f, s) && #[trigger] represents(f, m, s);
    let locs = f.locations_spec();
    let n = locs.len();
    f.lemma_locations();
    let t = Seq::new(
        n,
        |a: int|
            Seq::new(
                n,
                |b: int| s[a][b] && !(z.contains(locs[a]) && kills(f, d, locs[b]) && locs[b] != d),
            ),
    );
    assert forall|a: int, b: int| 0 <= a < n && 0 <= b < n && #[trigger] reaching_step(f, t, a, b) implies t[a][b] by {
        if !(b == a && defines(f, locs[a])) {
            let x = choose|x: int| 0 <= x < n && f.flows_into(locs[x], locs[a]) && #[trigger] t[x][b];
            assert(s[x][b]);
            assert(reaching_step(f, s, a, b));
            if z.contains(locs[a]) && kills(f, d, locs[b]) && locs[b] != d {
                assert(f.has_location(locs[x]));
                if locs[x] == d {
                    assert(s[x][b] == reaching_step(f, s, x, b));
                } else {
                    assert(z.contains(locs[x]));
                }
            }
        } else {
            assert(s[a][b] == reaching_step(f, s, a, b));
        }
    }
    assert(is_reaching_closed(f, t));
    assert(below(s, t));
    assert(row_represents(locs, m[k], k, s));
    assert forall|q: ProgramLocation| #[trigger] m[k].1@.contains(q) && kills(f, d, q) implies q == d by {
        let j = choose|j: int| 0 <= j < n && s[k][j] && #[trigger] locs[j] == q;
        assert(t[k][j]);
    }
}

} // verus!
