//! A backward scan over a straight run of instructions that tells, at each
//! instruction, which registers are dead: written in full before they are next read.
//!
//! The scan holds one state per register: what the nearest instruction at or after the
//! current point that touches the register does to it. It knows nothing of any
//! instruction set: an instruction is the list of its touches.

use vstd::prelude::*;

verus! {

/// What the nearest instruction that touches a register does to it.
#[derive(Clone, Copy, Debug, PartialEq, Eq, Structural)]
pub enum Last {
    /// No instruction from here on touches the register.
    Untouched,
    /// The register is read, so its value is live.
    Read,
    /// The register is written in full and not read, so its value is dead.
    Written,
}

/// One use of a register by an instruction: a write of the whole register, or a read.
/// A use that is both is given as a read.
#[derive(Clone, Copy, Debug)]
pub struct Touch {
    pub reg: usize,
    pub write: bool,
}

/// Whether one of the first `upto` touches is a use of `reg` of the kind `write`.
pub open spec fn has(touches: Seq<Touch>, upto: int, reg: int, write: bool) -> bool
    decreases upto,
{
    if upto <= 0 {
        false
    } else {
        has(touches, upto - 1, reg, write) || (touches[upto - 1].reg == reg && touches[upto
            - 1].write == write)
    }
}

/// What an instruction with these touches does to `reg`: a read wins over a write.
pub open spec fn touched(touches: Seq<Touch>, reg: int) -> Last {
    if has(touches, touches.len() as int, reg, false) {
        Last::Read
    } else if has(touches, touches.len() as int, reg, true) {
        Last::Written
    } else {
        Last::Untouched
    }
}

/// The states before an instruction with these touches, given the states after it.
pub open spec fn apply(state: Seq<Last>, touches: Seq<Touch>) -> Seq<Last> {
    Seq::new(
        state.len(),
        |reg: int|
            match touched(touches, reg) {
                Last::Untouched => state[reg],
                last => last,
            },
    )
}

/// The states before instruction `i` of `prog`, given the states `end` after its last
/// instruction.
pub open spec fn before(prog: Seq<Seq<Touch>>, end: Seq<Last>, i: int) -> Seq<Last>
    decreases prog.len() - i,
{
    if i >= prog.len() {
        end
    } else {
        apply(before(prog, end, i + 1), prog[i])
    }
}

/// The lowest register below `upto` that is dead in `state`.
pub open spec fn first_written(state: Seq<Last>, upto: int) -> Option<int>
    decreases upto,
{
    if upto <= 0 {
        None
    } else {
        match first_written(state, upto - 1) {
            Some(reg) => Some(reg),
            None => if state[upto - 1] == Last::Written {
                Some(upto - 1)
            } else {
                None
            },
        }
    }
}

/// The states of a set of registers during a backward scan.
pub struct Liveness {
    last: Vec<Last>,
}

impl View for Liveness {
    type V = Seq<Last>;

    closed spec fn view(&self) -> Seq<Last> {
        self.last@
    }
}

impl Liveness {
    /// The states of `registers` registers that nothing touches.
    pub fn new(registers: usize) -> (r: Self)
        ensures
            r@ == Seq::new(registers as nat, |reg: int| Last::Untouched),
    {
        let mut last: Vec<Last> = Vec::new();
        while last.len() < registers
            invariant
                last@.len() <= registers,
                forall|j: int| 0 <= j < last@.len() ==> last@[j] == Last::Untouched,
            decreases registers - last@.len(),
        {
            last.push(Last::Untouched);
        }
        assert(last@ =~= Seq::new(registers as nat, |reg: int| Last::Untouched));
        Liveness { last }
    }

    /// Marks `reg` as written in full by what follows the scanned run.
    pub fn mark_written(&mut self, reg: usize)
        requires
            reg < old(self)@.len(),
        ensures
            final(self)@ == old(self)@.update(reg as int, Last::Written),
    {
        self.last.set(reg, Last::Written);
    }

    /// Moves the scan back over an instruction with these touches. Touches of
    /// registers that the scan does not hold are passed over.
    pub fn step(&mut self, touches: &[Touch])
        ensures
            final(self)@ == apply(old(self)@, touches@),
    {
        let ghost start = self.last@;
        let count = self.last.len();
        let mut j: usize = 0;
        while j < touches.len()
            invariant
                j <= touches@.len(),
                count == start.len(),
                self.last@.len() == start.len(),
                forall|reg: int|
                    0 <= reg < start.len() ==> self.last@[reg] == (if has(
                        touches@,
                        j as int,
                        reg,
                        true,
                    ) {
                        Last::Written
                    } else {
                        start[reg]
                    }),
            decreases touches@.len() - j,
        {
            let touch = touches[j];
            if touch.write && touch.reg < count {
                self.last.set(touch.reg, Last::Written);
            }
            j += 1;
        }
        let ghost written = self.last@;
        let mut j: usize = 0;
        while j < touches.len()
            invariant
                j <= touches@.len(),
                count == start.len(),
                self.last@.len() == start.len(),
                written.len() == start.len(),
                forall|reg: int|
                    0 <= reg < start.len() ==> self.last@[reg] == (if has(
                        touches@,
                        j as int,
                        reg,
                        false,
                    ) {
                        Last::Read
                    } else {
                        written[reg]
                    }),
            decreases touches@.len() - j,
        {
            let touch = touches[j];
            if !touch.write && touch.reg < count {
                self.last.set(touch.reg, Last::Read);
            }
            j += 1;
        }
        assert(self.last@ =~= apply(start, touches@));
    }

    /// The lowest register that is dead at the current point.
    pub fn first_dead(&self) -> (r: Option<usize>)
        ensures
            r matches Some(reg) ==> first_written(self@, self@.len() as int) == Some(reg as int)
                && reg < self@.len() && self@[reg as int] == Last::Written,
            r is None ==> first_written(self@, self@.len() as int) is None,
    {
        let mut reg: usize = 0;
        while reg < self.last.len()
            invariant
                reg <= self.last@.len(),
                first_written(self.last@, reg as int) is None,
            decreases self.last@.len() - reg,
        {
            if self.last[reg] == Last::Written {
                proof {
                    lemma_first_written_stays(self.last@, reg as int + 1, self.last@.len() as int);
                }
                return Some(reg);
            }
            reg += 1;
        }
        None
    }
}

/// A dead register found below `upto` is still the first below any higher bound.
pub proof fn lemma_first_written_stays(state: Seq<Last>, upto: int, bound: int)
    requires
        first_written(state, upto) is Some,
        upto <= bound,
    ensures
        first_written(state, bound) == first_written(state, upto),
    decreases bound - upto,
{
    if upto < bound {
        lemma_first_written_stays(state, upto, bound - 1);
    }
}

/// What `first_written` finds: a dead register with no dead register below it, or
/// that no register below the bound is dead.
pub proof fn lemma_first_written(state: Seq<Last>, upto: int)
    ensures
        first_written(state, upto) matches Some(reg) ==> 0 <= reg < upto && state[reg]
            == Last::Written && forall|other: int|
            0 <= other < reg ==> state[other] != Last::Written,
        first_written(state, upto) is None ==> forall|other: int|
            0 <= other < upto ==> state[other] != Last::Written,
    decreases upto,
{
    if upto > 0 {
        lemma_first_written(state, upto - 1);
    }
}

/// Whether `reg` is written in full and not read at instruction `k` of `prog`, where
/// `k` is at the end of `prog` by what follows it as `end` tells, and is not read by
/// any instruction from `i` up to `k`.
pub open spec fn dead_until(
    prog: Seq<Seq<Touch>>,
    end: Seq<Last>,
    i: int,
    k: int,
    reg: int,
) -> bool {
    &&& i <= k <= prog.len()
    &&& if k == prog.len() {
        end[reg] == Last::Written
    } else {
        touched(prog[k], reg) == Last::Written
    }
    &&& forall|m: int| i <= m < k ==> touched(#[trigger] prog[m], reg) != Last::Read
}

/// A register is dead before instruction `i` exactly when some instruction from `i`
/// on, or what follows the run, writes it in full with no read of it in between.
pub proof fn lemma_dead_iff_written_before_read(
    prog: Seq<Seq<Touch>>,
    end: Seq<Last>,
    i: int,
    reg: int,
)
    requires
        0 <= i <= prog.len(),
        0 <= reg < end.len(),
    ensures
        before(prog, end, i).len() == end.len(),
        before(prog, end, i)[reg] == Last::Written <==> exists|k: int|
            dead_until(prog, end, i, k, reg),
    decreases prog.len() - i,
{
    if i >= prog.len() {
        if end[reg] == Last::Written {
            assert(dead_until(prog, end, i, i, reg));
        }
    } else {
        let next = i + 1;
        lemma_dead_iff_written_before_read(prog, end, next, reg);
        let here = touched(prog[i], reg);
        if before(prog, end, i)[reg] == Last::Written {
            if here == Last::Written {
                assert(dead_until(prog, end, i, i, reg));
            } else {
                let k = choose|k: int| dead_until(prog, end, next, k, reg);
                assert(dead_until(prog, end, i, k, reg));
            }
        }
        if exists|k: int| dead_until(prog, end, i, k, reg) {
            let k = choose|k: int| dead_until(prog, end, i, k, reg);
            if k > i {
                assert(touched(prog[i], reg) != Last::Read);
                assert(dead_until(prog, end, next, k, reg));
            }
        }
    }
}

} // verus!
