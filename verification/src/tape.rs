//! The tape: a fixed number of cells and the index of the current one.

use vstd::prelude::*;

verus! {

/// Number of cells of a tape made by [`Tape::new`].
pub const DEFAULT_TAPE_LENGTH: usize = 30000;

/// What a tape holds: the value of each cell and the index of the current cell.
pub struct TapeView {
    pub cells: Seq<u32>,
    pub pointer: nat,
}

impl TapeView {
    /// The pointer designates a cell.
    pub open spec fn valid(self) -> bool {
        self.pointer < self.cells.len()
    }

    /// A tape of `length` cells, all zero, with the pointer on the first.
    pub open spec fn blank(length: nat) -> TapeView {
        TapeView { cells: Seq::new(length, |i: int| 0u32), pointer: 0 }
    }

    /// The value of the current cell.
    pub open spec fn current(self) -> u32 {
        self.cells[self.pointer as int]
    }

    /// There is a cell to the right of the current one.
    pub open spec fn can_move_right(self) -> bool {
        self.pointer + 1 < self.cells.len()
    }

    /// There is a cell to the left of the current one.
    pub open spec fn can_move_left(self) -> bool {
        self.pointer > 0
    }

    /// The tape with the pointer one cell to the right.
    pub open spec fn move_right(self) -> TapeView {
        TapeView { pointer: self.pointer + 1, ..self }
    }

    /// The tape with the pointer one cell to the left.
    pub open spec fn move_left(self) -> TapeView {
        TapeView { pointer: (self.pointer - 1) as nat, ..self }
    }

    /// The tape with the current cell set to `value`.
    pub open spec fn write(self, value: u32) -> TapeView {
        TapeView { cells: self.cells.update(self.pointer as int, value), ..self }
    }

    /// The tape with the current cell one higher; the highest value is followed by zero.
    pub open spec fn increment(self) -> TapeView {
        self.write(successor(self.current()))
    }

    /// The tape with the current cell one lower; zero is followed by the highest value.
    pub open spec fn decrement(self) -> TapeView {
        self.write(predecessor(self.current()))
    }
}

/// The cell value after `value`, wrapping from the highest value to zero.
pub open spec fn successor(value: u32) -> u32 {
    if value == u32::MAX {
        0
    } else {
        (value + 1) as u32
    }
}

/// The cell value before `value`, wrapping from zero to the highest value.
pub open spec fn predecessor(value: u32) -> u32 {
    if value == 0 {
        u32::MAX
    } else {
        (value - 1) as u32
    }
}

/// Cell values wrap around: one more than the highest value is zero, and
/// one less than zero is the highest value.
pub proof fn lemma_wraparound(tape: TapeView)
    requires
        tape.valid(),
    ensures
        tape.current() == u32::MAX ==> tape.increment().current() == 0,
        tape.current() == 0 ==> tape.decrement().current() == u32::MAX,
        tape.increment().decrement() == tape,
        tape.decrement().increment() == tape,
{
    assert(tape.increment().decrement().cells =~= tape.cells);
    assert(tape.decrement().increment().cells =~= tape.cells);
}

/// A tape of unsigned 32-bit cells with a pointer that always designates one of them.
pub struct Tape {
    tape: Vec<u32>,
    pointer: usize,
}

impl View for Tape {
    type V = TapeView;

    closed spec fn view(&self) -> TapeView {
        TapeView { cells: self.tape@, pointer: self.pointer as nat }
    }
}

impl Tape {
    #[verifier::type_invariant]
    spec fn pointer_in_range(&self) -> bool {
        self.pointer < self.tape.len()
    }

    /// A tape of [`DEFAULT_TAPE_LENGTH`] zeroed cells with the pointer on the first.
    pub fn new() -> (tape: Tape)
        ensures
            tape@ == TapeView::blank(DEFAULT_TAPE_LENGTH as nat),
    {
        Tape::with_length(DEFAULT_TAPE_LENGTH)
    }

    /// A tape of `length` zeroed cells with the pointer on the first.
    pub fn with_length(length: usize) -> (tape: Tape)
        requires
            length > 0,
        ensures
            tape@ == TapeView::blank(length as nat),
    {
        let tape = Tape { tape: vec![0u32; length], pointer: 0 };
        assert(tape@.cells =~= TapeView::blank(length as nat).cells);
        tape
    }

    /// The number of cells.
    pub fn len(&self) -> (length: usize)
        ensures
            length == self@.cells.len(),
            length > 0,
    {
        proof {
            use_type_invariant(self);
        }
        self.tape.len()
    }

    /// The index of the current cell.
    pub fn pointer(&self) -> (pointer: usize)
        ensures
            pointer == self@.pointer,
            pointer < self@.cells.len(),
    {
        proof {
            use_type_invariant(self);
        }
        self.pointer
    }

    /// All cells, in order.
    pub fn cells(&self) -> (cells: &Vec<u32>)
        ensures
            cells@ == self@.cells,
    {
        &self.tape
    }

    /// Moves the pointer one cell to the right.
    pub fn inc_ptr(&mut self)
        requires
            old(self)@.can_move_right(),
        ensures
            final(self)@ == old(self)@.move_right(),
    {
        proof {
            use_type_invariant(&*self);
            assert(self.tape@.len() == self.tape.len());
        }
        self.pointer += 1;
    }

    /// Moves the pointer one cell to the left.
    pub fn dec_ptr(&mut self)
        requires
            old(self)@.can_move_left(),
        ensures
            final(self)@ == old(self)@.move_left(),
    {
        proof {
            use_type_invariant(&*self);
        }
        self.pointer -= 1;
    }

    /// Adds one to the current cell, wrapping from the highest value to zero.
    pub fn inc_val(&mut self)
        ensures
            final(self)@ == old(self)@.increment(),
    {
        proof {
            use_type_invariant(&*self);
        }
        let value = self.tape[self.pointer];
        self.tape[self.pointer] = value.wrapping_add(1);
    }

    /// Subtracts one from the current cell, wrapping from zero to the highest value.
    pub fn dec_val(&mut self)
        ensures
            final(self)@ == old(self)@.decrement(),
    {
        proof {
            use_type_invariant(&*self);
        }
        let value = self.tape[self.pointer];
        self.tape[self.pointer] = value.wrapping_sub(1);
    }

    /// Stores `val` in the current cell.
    pub fn set(&mut self, val: u32)
        ensures
            final(self)@ == old(self)@.write(val),
    {
        proof {
            use_type_invariant(&*self);
        }
        self.tape[self.pointer] = val;
    }

    /// The value of the current cell.
    pub fn get(&self) -> (value: u32)
        ensures
            value == self@.current(),
    {
        proof {
            use_type_invariant(self);
        }
        self.tape[self.pointer]
    }
}

} // verus!
