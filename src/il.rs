//! The function model that the analyses read: blocks of instructions in an
//! arena, edges between blocks by index, and the program locations of a function.
use vstd::prelude::*;

verus! {

/// A named storage location. `ssa` is a per-occurrence subscript that plays no
/// part in deciding whether two writes target the same storage.
pub struct Variable {
    pub name: String,
    pub bits: u64,
    pub ssa: Option<u64>,
}

impl Variable {
    pub fn new(name: String, bits: u64) -> (r: Variable)
        ensures
            r.name@ == name@,
            r.bits == bits,
            r.ssa is None,
    {
        Variable { name, bits, ssa: None }
    }

    /// Two variables name the same storage: same name and same width.
    pub open spec fn same_storage_spec(&self, other: &Variable) -> bool {
        self.name@ == other.name@ && self.bits == other.bits
    }

    pub fn same_storage(&self, other: &Variable) -> (r: bool)
        ensures
            r == self.same_storage_spec(other),
    {
        self.bits == other.bits && self.name == other.name
    }
}

/// An instruction, as far as the analyses see it: the variable it writes, if any.
pub struct Instruction {
    pub written: Option<Variable>,
}

impl Instruction {
    /// An instruction that writes `variable` (an assignment, a load).
    pub fn writing(variable: Variable) -> (r: Instruction)
        ensures
            r.written == Some(variable),
    {
        Instruction { written: Some(variable) }
    }

    /// An instruction that writes no variable (a branch).
    pub fn silent() -> (r: Instruction)
        ensures
            r.written is None,
    {
        Instruction { written: None }
    }
}

pub struct Block {
    pub instructions: Vec<Instruction>,
}

/// A directed edge from block `head` to block `tail`.
pub struct Edge {
    pub head: usize,
    pub tail: usize,
}

pub struct Function {
    pub index: u64,
    pub blocks: Vec<Block>,
    pub edges: Vec<Edge>,
}

/// A point in a function: inside an instruction, an empty block, or an edge.
#[derive(PartialEq, Eq, Structural, Clone, Copy, Debug)]
pub enum ProgramLocation {
    Instruction { block: usize, index: usize },
    EmptyBlock { block: usize },
    Edge { edge: usize },
}

/// A structural fault in a function's graph.
#[derive(PartialEq, Eq, Structural, Clone, Copy, Debug)]
pub enum GraphError {
    /// The edge at this index names a block that does not exist.
    MissingBlock { edge: usize },
}

/// The locations of block `b`, in order: one per instruction, or the block
/// itself when it has none.
pub open spec fn block_locations(blocks: Seq<Block>, b: int) -> Seq<ProgramLocation> {
    let len = blocks[b].instructions@.len();
    if len == 0 {
        seq![ProgramLocation::EmptyBlock { block: b as usize }]
    } else {
        Seq::new(len, |i: int| ProgramLocation::Instruction { block: b as usize, index: i as usize })
    }
}

/// The locations of the first `c` blocks, block by block.
pub open spec fn prefix_locations(blocks: Seq<Block>, c: nat) -> Seq<ProgramLocation>
    decreases c,
{
    if c == 0 {
        Seq::empty()
    } else {
        prefix_locations(blocks, (c - 1) as nat) + block_locations(blocks, c - 1)
    }
}

/// Where location `l` stands in the canonical order.
pub open spec fn location_index(f: Function, l: ProgramLocation) -> int {
    match l {
        ProgramLocation::Instruction { block, index } => prefix_locations(
            f.blocks@,
            block as nat,
        ).len() + index,
        ProgramLocation::EmptyBlock { block } => prefix_locations(f.blocks@, block as nat).len() as int,
        ProgramLocation::Edge { edge } => prefix_locations(f.blocks@, f.blocks@.len()).len() + edge,
    }
}

impl Function {
    /// Every edge joins two blocks of the function.
    pub open spec fn wf(&self) -> bool {
        forall|e: int|
            0 <= e < self.edges@.len() ==> (#[trigger] self.edges@[e]).head < self.blocks@.len()
                && self.edges@[e].tail < self.blocks@.len()
    }

    /// All locations of the function in canonical order: the blocks' locations
    /// block by block, then the edges in order.
    pub open spec fn locations_spec(&self) -> Seq<ProgramLocation> {
        prefix_locations(self.blocks@, self.blocks@.len()) + Seq::new(
            self.edges@.len(),
            |e: int| ProgramLocation::Edge { edge: e as usize },
        )
    }

    /// `l` is a location of this function.
    pub open spec fn has_location(&self, l: ProgramLocation) -> bool {
        match l {
            ProgramLocation::Instruction { block, index } => block < self.blocks@.len()
                && index < self.blocks@[block as int].instructions@.len(),
            ProgramLocation::EmptyBlock { block } => block < self.blocks@.len()
                && self.blocks@[block as int].instructions@.len() == 0,
            ProgramLocation::Edge { edge } => edge < self.edges@.len(),
        }
    }

    /// The variable written at `l`, if `l` is an instruction that writes one.
    pub open spec fn written_at(&self, l: ProgramLocation) -> Option<Variable> {
        match l {
            ProgramLocation::Instruction { block, index } => self.blocks@[block as int].instructions@[index as int].written,
            _ => None,
        }
    }

    /// The last location of block `b`.
    pub open spec fn exit_location(&self, b: int) -> ProgramLocation {
        block_locations(self.blocks@, b).last()
    }

    /// Control passes from `p` straight to `l`: from one instruction to the
    /// next in a block, from an edge into the block it enters, and from the end
    /// of a block onto an edge that leaves it.
    pub open spec fn flows_into(&self, p: ProgramLocation, l: ProgramLocation) -> bool {
        match l {
            ProgramLocation::Instruction { block, index } => if index > 0 {
                p == ProgramLocation::Instruction { block, index: (index - 1) as usize }
            } else {
                self.enters(p, block as int)
            },
            ProgramLocation::EmptyBlock { block } => self.enters(p, block as int),
            ProgramLocation::Edge { edge } => p == self.exit_location(self.edges@[edge as int].head as int),
        }
    }

    /// `p` is an edge of the function that enters block `b`.
    pub open spec fn enters(&self, p: ProgramLocation, b: int) -> bool {
        match p {
            ProgramLocation::Edge { edge } => edge < self.edges@.len() && self.edges@[edge as int].tail == b,
            _ => false,
        }
    }
}

proof fn lemma_prefix_extends(blocks: Seq<Block>, c: nat, d: nat)
    requires
        c <= d,
    ensures
        prefix_locations(blocks, c).len() <= prefix_locations(blocks, d).len(),
        forall|k: int|
            0 <= k < prefix_locations(blocks, c).len() ==> #[trigger] prefix_locations(blocks, d)[k]
                == prefix_locations(blocks, c)[k],
    decreases d - c,
{
    if c < d {
        lemma_prefix_extends(blocks, c, (d - 1) as nat);
    }
}

/// Each location among the first `c` blocks' names one of them and stands at
/// its own index.
proof fn lemma_prefix_index(f: Function, c: nat)
    requires
        c <= f.blocks@.len(),
    ensures
        forall|k: int|
            0 <= k < prefix_locations(f.blocks@, c).len() ==> f.has_location(
                #[trigger] prefix_locations(f.blocks@, c)[k],
            ) && location_index(f, prefix_locations(f.blocks@, c)[k]) == k && match prefix_locations(
                f.blocks@,
                c,
            )[k] {
                ProgramLocation::Instruction { block, index } => block < c,
                ProgramLocation::EmptyBlock { block } => block < c,
                ProgramLocation::Edge { edge } => false,
            },
    decreases c,
{
    if c > 0 {
        let b = (c - 1) as nat;
        lemma_prefix_index(f, b);
        let pre = prefix_locations(f.blocks@, b);
        let all = prefix_locations(f.blocks@, c);
        assert forall|k: int| 0 <= k < all.len() implies f.has_location(#[trigger] all[k])
            && location_index(f, all[k]) == k && match all[k] {
            ProgramLocation::Instruction { block, index } => block < c,
            ProgramLocation::EmptyBlock { block } => block < c,
            ProgramLocation::Edge { edge } => false,
        } by {
            if k < pre.len() {
                assert(all[k] == pre[k]);
            } else {
                assert(f.blocks.len() == f.blocks@.len());
                let ins = f.blocks@[b as int].instructions;
                assert(ins.len() == ins@.len());
                assert(all[k] == block_locations(f.blocks@, b as int)[k - pre.len()]);
                assert(f.has_location(all[k]));
                assert(location_index(f, all[k]) == k);
            }
        }
    }
}

impl Function {
    /// The canonical order lists each location of the function once, and a
    /// location's index there is `location_index`.
    pub proof fn lemma_locations(&self)
        ensures
            forall|k: int|
                0 <= k < self.locations_spec().len() ==> self.has_location(
                    #[trigger] self.locations_spec()[k],
                ) && location_index(*self, self.locations_spec()[k]) == k,
            forall|l: ProgramLocation|
                #[trigger] self.has_location(l) ==> 0 <= location_index(*self, l)
                    < self.locations_spec().len() && self.locations_spec()[location_index(*self, l)] == l,
    {
        let f = *self;
        let nb = f.blocks@.len();
        let all = prefix_locations(f.blocks@, nb);
        let locs = self.locations_spec();
        assert(f.edges.len() == f.edges@.len());
        lemma_prefix_index(f, nb);
        assert forall|k: int| 0 <= k < locs.len() implies self.has_location(#[trigger] locs[k])
            && location_index(f, locs[k]) == k by {
            if k < all.len() {
                assert(locs[k] == all[k]);
            }
        }
        assert forall|l: ProgramLocation| #[trigger] self.has_location(l) implies 0 <= location_index(f, l)
            < locs.len() && locs[location_index(f, l)] == l by {
            match l {
                ProgramLocation::Instruction { block, index } => {
                    let b = block as nat;
                    lemma_prefix_extends(f.blocks@, b + 1, nb);
                    let pre = prefix_locations(f.blocks@, b);
                    let k = pre.len() + index;
                    assert(prefix_locations(f.blocks@, b + 1)[k] == l);
                    assert(locs[k] == all[k]);
                },
                ProgramLocation::EmptyBlock { block } => {
                    let b = block as nat;
                    lemma_prefix_extends(f.blocks@, b + 1, nb);
                    let pre = prefix_locations(f.blocks@, b);
                    let k = pre.len() as int;
                    assert(prefix_locations(f.blocks@, b + 1)[k] == l);
                    assert(locs[k] == all[k]);
                },
                ProgramLocation::Edge { edge } => {},
            }
        }
    }
}

impl Function {
    /// Checks that every edge joins two blocks of the function.
    pub fn check(&self) -> (r: Result<(), GraphError>)
        ensures
            r is Ok <==> self.wf(),
            r matches Err(GraphError::MissingBlock { edge }) ==> edge < self.edges@.len() && (
            self.edges@[edge as int].head >= self.blocks@.len() || self.edges@[edge as int].tail
                >= self.blocks@.len()),
    {
        let mut e: usize = 0;
        while e < self.edges.len()
            invariant
                e <= self.edges@.len(),
                forall|x: int|
                    0 <= x < e ==> (#[trigger] self.edges@[x]).head < self.blocks@.len()
                        && self.edges@[x].tail < self.blocks@.len(),
            decreases self.edges@.len() - e,
        {
            let edge = &self.edges[e];
            if edge.head >= self.blocks.len() || edge.tail >= self.blocks.len() {
                return Err(GraphError::MissingBlock { edge: e });
            }
            e = e + 1;
        }
        Ok(())
    }

    /// All locations of the function in canonical order.
    pub fn locations(&self) -> (r: Vec<ProgramLocation>)
        ensures
            r@ == self.locations_spec(),
    {
        let mut r: Vec<ProgramLocation> = Vec::new();
        let mut b: usize = 0;
        while b < self.blocks.len()
            invariant
                b <= self.blocks@.len(),
                r@ == prefix_locations(self.blocks@, b as nat),
            decreases self.blocks@.len() - b,
        {
            let n = self.blocks[b].instructions.len();
            if n == 0 {
                r.push(ProgramLocation::EmptyBlock { block: b });
            } else {
                let ghost pre = r@;
                let mut i: usize = 0;
                while i < n
                    invariant
                        b < self.blocks@.len(),
                        n == self.blocks@[b as int].instructions@.len(),
                        i <= n,
                        pre == prefix_locations(self.blocks@, b as nat),
                        r@ == pre + Seq::new(
                            i as nat,
                            |x: int| ProgramLocation::Instruction { block: b, index: x as usize },
                        ),
                    decreases n - i,
                {
                    r.push(ProgramLocation::Instruction { block: b, index: i });
                    i = i + 1;
                    assert(r@ =~= pre + Seq::new(
                        i as nat,
                        |x: int| ProgramLocation::Instruction { block: b, index: x as usize },
                    ));
                }
            }
            assert(r@ =~= prefix_locations(self.blocks@, (b + 1) as nat));
            b = b + 1;
        }
        let ghost pre = r@;
        let mut e: usize = 0;
        while e < self.edges.len()
            invariant
                e <= self.edges@.len(),
                pre == prefix_locations(self.blocks@, self.blocks@.len()),
                r@ == pre + Seq::new(e as nat, |x: int| ProgramLocation::Edge { edge: x as usize }),
            decreases self.edges@.len() - e,
        {
            r.push(ProgramLocation::Edge { edge: e });
            e = e + 1;
            assert(r@ =~= pre + Seq::new(e as nat, |x: int| ProgramLocation::Edge { edge: x as usize }));
        }
        assert(r@ =~= self.locations_spec());
        r
    }
}

impl Function {
    /// `row` lists, by canonical index, exactly the locations that flow into `l`.
    pub open spec fn flow_row(&self, l: ProgramLocation, row: Seq<usize>) -> bool {
        let locs = self.locations_spec();
        &&& forall|i: int| 0 <= i < row.len() ==> #[trigger] row[i] < locs.len()
        &&& forall|x: int|
            0 <= x < locs.len() ==> (row.contains(x as usize) <==> self.flows_into(
                #[trigger] locs[x],
                l,
            ))
    }

    /// A location with exactly one location flowing into it.
    proof fn lemma_single_row(&self, l: ProgramLocation, p: ProgramLocation)
        requires
            self.has_location(p),
            self.locations_spec().len() <= usize::MAX,
            forall|q: ProgramLocation| #[trigger] self.flows_into(q, l) <==> q == p,
        ensures
            self.flow_row(l, seq![location_index(*self, p) as usize]),
    {
        let locs = self.locations_spec();
        self.lemma_locations();
        let row = seq![location_index(*self, p) as usize];
        assert forall|x: int| 0 <= x < locs.len() implies (row.contains(x as usize) <==> self.flows_into(
            #[trigger] locs[x],
            l,
        )) by {
            let k = location_index(*self, p);
            if row.contains(x as usize) {
                assert(row[0] == x as usize);
                assert(k == x);
            }
            if self.flows_into(locs[x], l) {
                assert(locs[x] == p);
                assert(k == x);
                assert(row[0] == x as usize);
            }
        }
    }

    /// Where each block's locations begin in the canonical order; the entry
    /// after the last block is where the edges begin.
    fn block_starts(&self, n: usize) -> (r: Vec<usize>)
        requires
            n == self.locations_spec().len(),
        ensures
            r@.len() == self.blocks@.len() + 1,
            forall|b: int|
                0 <= b <= self.blocks@.len() ==> #[trigger] r@[b] == prefix_locations(
                    self.blocks@,
                    b as nat,
                ).len(),
    {
        let mut r: Vec<usize> = Vec::new();
        let mut start: usize = 0;
        let mut b: usize = 0;
        while b < self.blocks.len()
            invariant
                n == self.locations_spec().len(),
                b <= self.blocks@.len(),
                r@.len() == b,
                start == prefix_locations(self.blocks@, b as nat).len(),
                forall|c: int| 0 <= c < b ==> #[trigger] r@[c] == prefix_locations(self.blocks@, c as nat).len(),
            decreases self.blocks@.len() - b,
        {
            proof {
                lemma_prefix_extends(self.blocks@, (b + 1) as nat, self.blocks@.len());
            }
            r.push(start);
            let len = self.blocks[b].instructions.len();
            start = if len == 0 {
                start + 1
            } else {
                start + len
            };
            b = b + 1;
        }
        r.push(start);
        r
    }

    /// The canonical indices of the edges that enter block `b`.
    fn entering(&self, b: usize, edges_start: usize, n: usize) -> (r: Vec<usize>)
        requires
            n == self.locations_spec().len(),
            edges_start == prefix_locations(self.blocks@, self.blocks@.len()).len(),
        ensures
            self.flow_row(ProgramLocation::EmptyBlock { block: b }, r@),
    {
        let ghost locs = self.locations_spec();
        proof {
            self.lemma_locations();
        }
        let mut r: Vec<usize> = Vec::new();
        let mut e: usize = 0;
        while e < self.edges.len()
            invariant
                n == locs.len(),
                locs == self.locations_spec(),
                edges_start + self.edges@.len() == n,
                e <= self.edges@.len(),
                forall|i: int|
                    0 <= i < r@.len() ==> #[trigger] r@[i] >= edges_start && r@[i] < edges_start + e
                        && self.edges@[r@[i] - edges_start].tail == b,
                forall|x: int|
                    0 <= x < e && (#[trigger] self.edges@[x]).tail == b ==> r@.contains(
                        (edges_start + x) as usize,
                    ),
            decreases self.edges@.len() - e,
        {
            let ghost r0 = r@;
            if self.edges[e].tail == b {
                r.push(edges_start + e);
                assert(r@[r@.len() - 1] == edges_start + e);
            }
            assert forall|x: int|
                0 <= x < e + 1 && (#[trigger] self.edges@[x]).tail == b implies r@.contains(
                (edges_start + x) as usize,
            ) by {
                if x < e {
                    let i = choose|i: int| 0 <= i < r0.len() && r0[i] == (edges_start + x) as usize;
                    assert(r@[i] == r0[i]);
                } else {
                    assert(r@[r@.len() - 1] == edges_start + e);
                }
            }
            e = e + 1;
        }
        assert forall|x: int| 0 <= x < locs.len() implies (r@.contains(x as usize) <==> self.flows_into(
            #[trigger] locs[x],
            ProgramLocation::EmptyBlock { block: b },
        )) by {
            if r@.contains(x as usize) {
                let i = choose|i: int| 0 <= i < r@.len() && r@[i] == x as usize;
                let edge = ProgramLocation::Edge { edge: (x - edges_start) as usize };
                assert(self.has_location(edge));
                assert(location_index(*self, edge) == x);
            }
            if self.flows_into(locs[x], ProgramLocation::EmptyBlock { block: b }) {
                assert(self.has_location(locs[x]));
                assert(location_index(*self, locs[x]) == x);
                assert(self.edges@[x - edges_start].tail == b);
            }
        }
        r
    }
}

impl Function {
    /// For every location in canonical order, the canonical indices of the
    /// locations that flow into it.
    pub fn flow(&self, locs: &Vec<ProgramLocation>) -> (r: Vec<Vec<usize>>)
        requires
            self.wf(),
            locs@ == self.locations_spec(),
        ensures
            r@.len() == locs@.len(),
            forall|k: int| 0 <= k < locs@.len() ==> self.flow_row(locs@[k], #[trigger] r@[k]@),
    {
        let n = locs.len();
        proof {
            self.lemma_locations();
        }
        let starts = self.block_starts(n);
        let nb = self.blocks.len();
        let edges_start = starts[nb];
        let mut r: Vec<Vec<usize>> = Vec::new();
        let mut b: usize = 0;
        while b < nb
            invariant
                self.wf(),
                locs@ == self.locations_spec(),
                n == locs@.len(),
                nb == self.blocks@.len(),
                starts@.len() == nb + 1,
                forall|c: int|
                    0 <= c <= nb ==> #[trigger] starts@[c] == prefix_locations(self.blocks@, c as nat).len(),
                edges_start == starts@[nb as int],
                b <= nb,
                r@.len() == starts@[b as int],
                forall|k: int| 0 <= k < r@.len() ==> self.flow_row(locs@[k], #[trigger] r@[k]@),
            decreases nb - b,
        {
            proof {
                self.lemma_locations();
                lemma_prefix_extends(self.blocks@, (b + 1) as nat, self.blocks@.len());
            }
            let len = self.blocks[b].instructions.len();
            let into = self.entering(b, edges_start, n);
            if len == 0 {
                let l = ProgramLocation::EmptyBlock { block: b };
                assert(self.has_location(l) && location_index(*self, l) == r@.len());
                r.push(into);
            } else {
                let l = ProgramLocation::Instruction { block: b, index: 0 };
                assert(self.has_location(l) && location_index(*self, l) == r@.len());
                assert forall|x: int| 0 <= x < n implies self.flows_into(#[trigger] locs@[x], l)
                    == self.flows_into(locs@[x], ProgramLocation::EmptyBlock { block: b }) by {}
                r.push(into);
                let mut i: usize = 1;
                while i < len
                    invariant
                        self.wf(),
                        locs@ == self.locations_spec(),
                        n == locs@.len(),
                        b < nb,
                        nb == self.blocks@.len(),
                        len == self.blocks@[b as int].instructions@.len(),
                        starts@.len() == nb + 1,
                        starts@[b as int] == prefix_locations(self.blocks@, b as nat).len(),
                        starts@[b + 1] == prefix_locations(self.blocks@, (b + 1) as nat).len(),
                        starts@[b as int] + len == starts@[b + 1],
                        starts@[b + 1] <= n,
                        1 <= i <= len,
                        r@.len() == starts@[b as int] + i,
                        forall|k: int| 0 <= k < r@.len() ==> self.flow_row(locs@[k], #[trigger] r@[k]@),
                    decreases len - i,
                {
                    let l = ProgramLocation::Instruction { block: b, index: i };
                    let p = ProgramLocation::Instruction { block: b, index: i - 1 };
                    proof {
                        self.lemma_locations();
                        assert(self.has_location(l) && location_index(*self, l) == r@.len());
                        assert(self.has_location(p));
                        self.lemma_single_row(l, p);
                    }
                    let row = vec![starts[b] + i - 1];
                    assert(row@ =~= seq![location_index(*self, p) as usize]);
                    r.push(row);
                    i = i + 1;
                }
            }
            b = b + 1;
        }
        let mut e: usize = 0;
        while e < self.edges.len()
            invariant
                self.wf(),
                locs@ == self.locations_spec(),
                n == locs@.len(),
                nb == self.blocks@.len(),
                starts@.len() == nb + 1,
                forall|c: int|
                    0 <= c <= nb ==> #[trigger] starts@[c] == prefix_locations(self.blocks@, c as nat).len(),
                edges_start == starts@[nb as int],
                e <= self.edges@.len(),
                r@.len() == edges_start + e,
                forall|k: int| 0 <= k < r@.len() ==> self.flow_row(locs@[k], #[trigger] r@[k]@),
            decreases self.edges@.len() - e,
        {
            let h = self.edges[e].head;
            let len = self.blocks[h].instructions.len();
            proof {
                lemma_prefix_extends(self.blocks@, (h + 1) as nat, self.blocks@.len());
            }
            let q = if len == 0 {
                starts[h]
            } else {
                starts[h] + len - 1
            };
            let l = ProgramLocation::Edge { edge: e };
            proof {
                self.lemma_locations();
                let p = self.exit_location(h as int);
                assert(self.has_location(l) && location_index(*self, l) == r@.len());
                assert(self.has_location(p));
                assert(location_index(*self, p) == q);
                self.lemma_single_row(l, p);
            }
            let row = vec![q];
            assert(row@ =~= seq![location_index(*self, self.exit_location(h as int)) as usize]);
            r.push(row);
            e = e + 1;
        }
        r
    }
}

impl Function {
    /// The variable written at `l`, for a location of the function.
    pub fn written(&self, l: ProgramLocation) -> (r: Option<&Variable>)
        requires
            self.has_location(l),
        ensures
            match r {
                Some(v) => self.written_at(l) == Some(*v),
                None => self.written_at(l) is None,
            },
    {
        match l {
            ProgramLocation::Instruction { block, index } => match &self.blocks[block].instructions[index].written {
                Some(v) => Some(v),
                None => None,
            },
            _ => None,
        }
    }
}

} // verus!
