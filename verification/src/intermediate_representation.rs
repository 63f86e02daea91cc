//! The intermediate representation of a disassembled binary: programs made of
//! subroutines (`Sub`), which are made of basic blocks (`Blk`), which end in
//! jumps (`Jmp`); every term carries a term identifier (`Tid`).
//!
//! The maps of the program (subroutines and external symbols, each keyed by its
//! term identifier) are held as sequences in increasing order of their keys,
//! which is the order in which the analyses visit them.

use crate::order::{str_order, then, Order};
use vstd::prelude::*;
use vstd::std_specs::cmp::PartialEqSpecImpl;

verus! {

/// A term identifier consisting of an ID string (which is required to be
/// unique) and an address to indicate where the term is located.
#[derive(Debug, Clone, Hash)]
pub struct Tid {
    /// The unique ID of the term.
    pub id: String,
    /// The address where the term is located.
    pub address: String,
}

/// The contents of a [`Tid`].
pub struct TidView {
    pub id: Seq<char>,
    pub address: Seq<char>,
}

impl View for Tid {
    type V = TidView;

    open spec fn view(&self) -> TidView {
        TidView { id: self.id@, address: self.address@ }
    }
}

impl PartialEq for Tid {
    fn eq(&self, other: &Self) -> (r: bool) {
        self.id == other.id && self.address == other.address
    }
}

impl PartialEqSpecImpl for Tid {
    open spec fn obeys_eq_spec() -> bool {
        true
    }

    open spec fn eq_spec(&self, other: &Self) -> bool {
        self@ == other@
    }
}

impl Eq for Tid {
}

impl Tid {
    /// A copy of the term identifier.
    pub fn copy_tid(&self) -> (r: Tid)
        ensures
            r@ == self@,
    {
        Tid { id: self.id.clone(), address: self.address.clone() }
    }
}

/// A term is an object inside a binary with an address and a unique ID.
#[derive(Debug, Clone)]
pub struct Term<T> {
    /// The term identifier, which also contains the address of the term
    pub tid: Tid,
    /// The object
    pub term: T,
}

/// A jump instruction: the transfer of control flow to another place.
/// Only the jump targets that are term identifiers are held; computed targets
/// and return values are not part of this representation.
#[derive(Debug, Clone)]
pub enum Jmp {
    /// A direct intraprocedural jump to the targeted `Blk` term identifier.
    Branch(Tid),
    /// An indirect intraprocedural jump.
    BranchInd,
    /// A direct intraprocedural jump that is only taken if a condition holds.
    CBranch {
        /// The term identifier of the target block of the jump.
        target: Tid,
    },
    /// A direct interprocedural jump representing a subroutine call.
    Call {
        /// The term identifier of the target subroutine (`Sub`) or extern symbol of the call.
        target: Tid,
        /// The term identifier of the block where the call returns to.
        return_: Option<Tid>,
    },
    /// An indirect interprocedural jump representing a subroutine call.
    CallInd {
        /// The term identifier of the block where the call returns to.
        return_: Option<Tid>,
    },
    /// A special type of call which cannot be described by the other call types.
    CallOther {
        /// A description of the call.
        description: String,
        /// The term identifier of the block where the call returns to.
        return_: Option<Tid>,
    },
    /// An indirect interprocedural jump indicating a return from a subroutine.
    Return,
}

/// A basic block: the jumps at its end and the targets of an indirect jump
/// if they are known.
#[derive(Debug, Clone)]
pub struct Blk {
    /// The jumps at the end of the basic block.
    pub jmps: Vec<Term<Jmp>>,
    /// The known targets of an indirect jump at the end of the block.
    pub indirect_jmp_targets: Vec<Tid>,
}

/// A subroutine (function) of the program.
#[derive(Debug, Clone)]
pub struct Sub {
    /// The name of the subroutine.
    pub name: String,
    /// The basic blocks belonging to the subroutine. The first block is the entry point.
    pub blocks: Vec<Term<Blk>>,
    /// The calling convention used to call this function, if known.
    pub calling_convention: Option<String>,
}

/// A symbol of a function that is not contained in the binary itself but
/// linked to it, e.g. a function of a shared library.
#[derive(Debug, Clone)]
pub struct ExternSymbol {
    /// The term identifier of the extern symbol.
    pub tid: Tid,
    /// Addresses of possibly multiple locations of the same extern symbol.
    pub addresses: Vec<String>,
    /// The name of the extern symbol.
    pub name: String,
    /// The calling convention used for the extern symbol if known.
    pub calling_convention: Option<String>,
    /// If set to `true`, the function does not return.
    pub no_return: bool,
    /// If the function has a variable number of parameters.
    pub has_var_args: bool,
}

/// The `Program` structure represents a disassembled binary.
#[derive(Debug, Clone)]
pub struct Program {
    /// All user functions of the program, in increasing order of their term
    /// identifiers (see [`Program::wf`]).
    pub subs: Vec<Term<Sub>>,
    /// The linked library function symbols, in increasing order of their term
    /// identifiers.
    pub extern_symbols: Vec<ExternSymbol>,
    /// All places through which the program may be entered, including external
    /// jumps, in increasing order.
    pub entry_points: Vec<Tid>,
    /// An offset that has been added to all addresses in the program compared to the addresses
    /// as specified in the binary file.
    ///
    /// In certain cases, e.g. if the binary specifies a segment to be loaded at address 0,
    /// the Ghidra backend may shift the whole binary image by a constant value in memory.
    /// Thus addresses as specified by the binary and addresses as reported by Ghidra may differ by a constant offset,
    /// which is stored in this value.
    pub address_base_offset: u64,
}

/// The order of term identifiers: by their IDs, then by their addresses.
pub open spec fn tid_order(a: TidView, b: TidView) -> Order {
    then(str_order(a.id, b.id), str_order(a.address, b.address))
}

/// The term identifiers are in strictly increasing order, so none occurs twice.
pub open spec fn tids_increasing(tids: Seq<TidView>) -> bool {
    forall|i: int, j: int|
        0 <= i < j < tids.len() ==> tid_order(#[trigger] tids[i], #[trigger] tids[j]) == Order::Less
}

impl Program {
    /// The subroutines, the extern symbols and the entry points are each in
    /// strictly increasing order of their term identifiers, as the maps and
    /// the set that they stand for keep them.
    pub open spec fn wf(&self) -> bool {
        &&& tids_increasing(self.subs@.map_values(|s: Term<Sub>| s.tid@))
        &&& tids_increasing(self.extern_symbols@.map_values(|s: ExternSymbol| s.tid@))
        &&& tids_increasing(self.entry_points@.map_values(|t: Tid| t@))
    }
}

/// Block `j` of subroutine `i` has the term identifier `tid`.
pub open spec fn block_has_tid(subs: Seq<Term<Sub>>, i: int, j: int, tid: TidView) -> bool {
    &&& 0 <= i < subs.len()
    &&& 0 <= j < subs[i].term.blocks@.len()
    &&& subs[i].term.blocks@[j].tid@ == tid
}

/// Subroutine `i` contains a jump with the term identifier `tid`.
pub open spec fn sub_contains_jump(sub: Term<Sub>, tid: TidView) -> bool {
    exists|j: int, k: int|
        0 <= j < sub.term.blocks@.len() && 0 <= k < sub.term.blocks@[j].term.jmps@.len()
            && (#[trigger] sub.term.blocks@[j].term.jmps@[k]).tid@ == tid
}

/// Every block of every subroutine is searched: a block at any position `j`
/// of any subroutine `i` whose term identifier is `tid` is a block with that
/// identifier in the sense of [`block_has_tid`], and every such block has the
/// identifier.
pub proof fn lemma_every_block_searched(subs: Seq<Term<Sub>>, i: int, j: int, tid: TidView)
    ensures
        (0 <= i < subs.len() && 0 <= j < subs[i].term.blocks@.len()
            && subs[i].term.blocks@[j].tid@ == tid) <==> block_has_tid(subs, i, j, tid),
{
}

/// Every jump of every block of a subroutine is searched: a jump at any
/// position `k` of any block `j` whose term identifier is `tid` makes the
/// subroutine one that contains a jump with that identifier, and a subroutine
/// contains such a jump only where one of its blocks holds it.
pub proof fn lemma_every_jump_searched(sub: Term<Sub>, j: int, k: int, tid: TidView)
    ensures
        0 <= j < sub.term.blocks@.len() && 0 <= k < sub.term.blocks@[j].term.jmps@.len()
            && sub.term.blocks@[j].term.jmps@[k].tid@ == tid ==> sub_contains_jump(sub, tid),
        sub_contains_jump(sub, tid) ==> exists|j2: int, k2: int|
            0 <= j2 < sub.term.blocks@.len() && 0 <= k2 < sub.term.blocks@[j2].term.jmps@.len()
                && #[trigger] sub.term.blocks@[j2].term.jmps@[k2].tid@ == tid,
{
    if 0 <= j < sub.term.blocks@.len() && 0 <= k < sub.term.blocks@[j].term.jmps@.len()
        && sub.term.blocks@[j].term.jmps@[k].tid@ == tid {
        assert(sub.term.blocks@[j].term.jmps@[k].tid@ == tid);
    }
}

impl Program {
    /// Find a block term by its term identifier: the first block with that
    /// identifier, going through the subroutines and then their blocks in order.
    /// WARNING: The function simply iterates through all blocks,
    /// i.e. it is very inefficient for large projects!
    pub fn find_block(&self, tid: &Tid) -> (r: Option<&Term<Blk>>)
        ensures
            match r {
                Some(block) => exists|i: int, j: int|
                    {
                        &&& #[trigger] block_has_tid(self.subs@, i, j, tid@)
                        &&& *block == self.subs@[i].term.blocks@[j]
                        &&& forall|i2: int, j2: int|
                            (i2 < i || (i2 == i && j2 < j)) ==> !#[trigger] block_has_tid(
                                self.subs@,
                                i2,
                                j2,
                                tid@,
                            )
                    },
                None => forall|i: int, j: int| !#[trigger] block_has_tid(self.subs@, i, j, tid@),
            },
            r is Some <==> exists|i: int, j: int|
                0 <= i < self.subs@.len() && 0 <= j < self.subs@[i].term.blocks@.len()
                    && (#[trigger] self.subs@[i].term.blocks@[j]).tid@ == tid@,
            r matches Some(block) ==> block.tid@ == tid@,
    {
        let n = self.subs.len();
        for i in 0..n
            invariant
                n == self.subs@.len(),
                forall|i2: int, j2: int| i2 < i ==> !#[trigger] block_has_tid(self.subs@, i2, j2, tid@),
        {
            let blocks = &self.subs[i].term.blocks;
            let m = blocks.len();
            for j in 0..m
                invariant
                    n == self.subs@.len(),
                    i < n,
                    *blocks == self.subs@[i as int].term.blocks,
                    m == blocks@.len(),
                    forall|i2: int, j2: int|
                        (i2 < i || (i2 == i && j2 < j)) ==> !#[trigger] block_has_tid(
                            self.subs@,
                            i2,
                            j2,
                            tid@,
                        ),
            {
                let block = &blocks[j];
                if block.tid == *tid {
                    assert(block_has_tid(self.subs@, i as int, j as int, tid@));
                    assert(self.subs@[i as int].term.blocks@[j as int] == *block);
                    return Some(block);
                }
            }
        }
        proof {
            assert forall|i: int, j: int|
                0 <= i < self.subs@.len() && 0 <= j < self.subs@[i].term.blocks@.len() implies (
            #[trigger] self.subs@[i].term.blocks@[j]).tid@ != tid@ by {
                lemma_every_block_searched(self.subs@, i, j, tid@);
            }
        }
        None
    }

    /// Find the sub containing a specific jump instruction (including call
    /// instructions): the term identifier of the first subroutine that
    /// contains a jump with that identifier.
    /// WARNING: The function simply iterates though all blocks,
    /// i.e. it is very inefficient for large projects!
    pub fn find_sub_containing_jump(&self, jmp_tid: &Tid) -> (r: Option<Tid>)
        ensures
            match r {
                Some(sub_tid) => exists|i: int|
                    {
                        &&& 0 <= i < self.subs@.len()
                        &&& #[trigger] sub_contains_jump(self.subs@[i], jmp_tid@)
                        &&& sub_tid@ == self.subs@[i].tid@
                        &&& forall|i2: int|
                            0 <= i2 < i ==> !#[trigger] sub_contains_jump(self.subs@[i2], jmp_tid@)
                    },
                None => forall|i: int|
                    0 <= i < self.subs@.len() ==> !#[trigger] sub_contains_jump(
                        self.subs@[i],
                        jmp_tid@,
                    ),
            },
            r is Some <==> exists|i: int, j: int, k: int|
                0 <= i < self.subs@.len() && 0 <= j < self.subs@[i].term.blocks@.len() && 0 <= k
                    < self.subs@[i].term.blocks@[j].term.jmps@.len()
                    && (#[trigger] self.subs@[i].term.blocks@[j].term.jmps@[k]).tid@ == jmp_tid@,
            r matches Some(sub_tid) ==> exists|i: int, j: int, k: int|
                0 <= i < self.subs@.len() && 0 <= j < self.subs@[i].term.blocks@.len() && 0 <= k
                    < self.subs@[i].term.blocks@[j].term.jmps@.len()
                    && (#[trigger] self.subs@[i].term.blocks@[j].term.jmps@[k]).tid@ == jmp_tid@
                    && sub_tid@ == self.subs@[i].tid@,
    {
        let n = self.subs.len();
        for i in 0..n
            invariant
                n == self.subs@.len(),
                forall|i2: int|
                    0 <= i2 < i ==> !#[trigger] sub_contains_jump(self.subs@[i2], jmp_tid@),
        {
            let sub = &self.subs[i];
            let m = sub.term.blocks.len();
            for j in 0..m
                invariant
                    n == self.subs@.len(),
                    i < n,
                    *sub == self.subs@[i as int],
                    m == sub.term.blocks@.len(),
                    forall|i2: int|
                        0 <= i2 < i ==> !#[trigger] sub_contains_jump(self.subs@[i2], jmp_tid@),
                    forall|j2: int, k2: int|
                        0 <= j2 < j && 0 <= k2 < sub.term.blocks@[j2].term.jmps@.len() ==> (
                        #[trigger] sub.term.blocks@[j2].term.jmps@[k2]).tid@ != jmp_tid@,
            {
                let jmps = &sub.term.blocks[j].term.jmps;
                let l = jmps.len();
                for k in 0..l
                    invariant
                        n == self.subs@.len(),
                        i < n,
                        *sub == self.subs@[i as int],
                        forall|i2: int|
                            0 <= i2 < i ==> !#[trigger] sub_contains_jump(self.subs@[i2], jmp_tid@),
                        j < m,
                        m == sub.term.blocks@.len(),
                        *jmps == sub.term.blocks@[j as int].term.jmps,
                        l == jmps@.len(),
                        forall|j2: int, k2: int|
                            (0 <= j2 < j && 0 <= k2 < sub.term.blocks@[j2].term.jmps@.len()) || (
                            j2 == j && 0 <= k2 < k) ==> (
                            #[trigger] sub.term.blocks@[j2].term.jmps@[k2]).tid@ != jmp_tid@,
                {
                    if jmps[k].tid == *jmp_tid {
                        assert(sub.term.blocks@[j as int].term.jmps@[k as int].tid@ == jmp_tid@);
                        assert(sub_contains_jump(self.subs@[i as int], jmp_tid@));
                        assert(self.subs@[i as int].term.blocks@[j as int].term.jmps@[k as int].tid@
                            == jmp_tid@);
                        return Some(sub.tid.copy_tid());
                    }
                }
            }
            assert(!sub_contains_jump(self.subs@[i as int], jmp_tid@));
        }
        proof {
            assert forall|i: int, j: int, k: int|
                0 <= i < self.subs@.len() && 0 <= j < self.subs@[i].term.blocks@.len() && 0 <= k
                    < self.subs@[i].term.blocks@[j].term.jmps@.len() implies (
            #[trigger] self.subs@[i].term.blocks@[j].term.jmps@[k]).tid@ != jmp_tid@ by {
                lemma_every_jump_searched(self.subs@[i], j, k, jmp_tid@);
            }
        }
        None
    }
}

} // verus!
