//! The architecture register frame: all general registers, the exception
//! program counter and the status register, in the layout shared by trap
//! frames and saved thread contexts, together with the accessors the
//! syscall and scheduling paths need.

use vstd::prelude::*;

verus! {

/// General registers of RISC-V.
#[derive(Debug, Clone, Copy, PartialEq, Eq, Structural)]
pub struct GeneralRegisters {
    pub ra: usize,
    pub sp: usize,
    pub gp: usize,
    pub tp: usize,
    pub t0: usize,
    pub t1: usize,
    pub t2: usize,
    pub s0: usize,
    pub s1: usize,
    pub a0: usize,
    pub a1: usize,
    pub a2: usize,
    pub a3: usize,
    pub a4: usize,
    pub a5: usize,
    pub a6: usize,
    pub a7: usize,
    pub s2: usize,
    pub s3: usize,
    pub s4: usize,
    pub s5: usize,
    pub s6: usize,
    pub s7: usize,
    pub s8: usize,
    pub s9: usize,
    pub s10: usize,
    pub s11: usize,
    pub t3: usize,
    pub t4: usize,
    pub t5: usize,
    pub t6: usize,
}

impl GeneralRegisters {
    /// A frame with every register zeroed, as a fresh task starts with.
    pub fn zeroed() -> (r: GeneralRegisters)
        ensures
            r == GeneralRegisters::spec_zeroed(),
    {
        GeneralRegisters {
            ra: 0, sp: 0, gp: 0, tp: 0,
            t0: 0, t1: 0, t2: 0,
            s0: 0, s1: 0,
            a0: 0, a1: 0, a2: 0, a3: 0, a4: 0, a5: 0, a6: 0, a7: 0,
            s2: 0, s3: 0, s4: 0, s5: 0, s6: 0, s7: 0, s8: 0, s9: 0,
            s10: 0, s11: 0,
            t3: 0, t4: 0, t5: 0, t6: 0,
        }
    }

    /// The all-zero frame.
    pub open spec fn spec_zeroed() -> GeneralRegisters {
        GeneralRegisters {
            ra: 0, sp: 0, gp: 0, tp: 0,
            t0: 0, t1: 0, t2: 0,
            s0: 0, s1: 0,
            a0: 0, a1: 0, a2: 0, a3: 0, a4: 0, a5: 0, a6: 0, a7: 0,
            s2: 0, s3: 0, s4: 0, s5: 0, s6: 0, s7: 0, s8: 0, s9: 0,
            s10: 0, s11: 0,
            t3: 0, t4: 0, t5: 0, t6: 0,
        }
    }
}

/// Registers saved when a trap (interrupt or exception) occurs, and equally
/// the saved context of a suspended thread task: the same layout serves both,
/// so a preempted task is resumed by the very routine that returns from a trap.
#[derive(Debug, Clone, Copy, PartialEq, Eq, Structural)]
pub struct TaskContext {
    /// All general registers.
    pub regs: GeneralRegisters,
    /// Supervisor exception program counter.
    pub sepc: usize,
    /// Supervisor status register.
    pub sstatus: usize,
    /// First floating-point state control word.
    pub fs0: usize,
    /// Second floating-point state control word.
    pub fs1: usize,
}

impl TaskContext {
    /// Creates a new zeroed context for a new task.
    pub fn new() -> (r: TaskContext)
        ensures
            r.regs == GeneralRegisters::spec_zeroed(),
            r.sepc == 0,
            r.sstatus == 0,
            r.fs0 == 0,
            r.fs1 == 0,
    {
        TaskContext {
            regs: GeneralRegisters::zeroed(),
            sepc: 0,
            sstatus: 0,
            fs0: 0,
            fs1: 0,
        }
    }

    /// Sets the return value slot (`a0`).
    pub fn set_ret_code(&mut self, ret_value: usize)
        ensures
            final(self).regs.a0 == ret_value,
            final(self).regs == (GeneralRegisters { a0: ret_value, ..old(self).regs }),
            final(self).sepc == old(self).sepc,
            final(self).sstatus == old(self).sstatus,
            final(self).fs0 == old(self).fs0,
            final(self).fs1 == old(self).fs1,
    {
        self.regs.a0 = ret_value;
    }

    /// Sets the thread-local-storage pointer (`tp`).
    pub fn set_tls(&mut self, tls_value: usize)
        ensures
            final(self).regs == (GeneralRegisters { tp: tls_value, ..old(self).regs }),
            final(self).sepc == old(self).sepc,
            final(self).sstatus == old(self).sstatus,
            final(self).fs0 == old(self).fs0,
            final(self).fs1 == old(self).fs1,
    {
        self.regs.tp = tls_value;
    }

    /// Reads the stack pointer.
    pub fn get_sp(&self) -> (r: usize)
        ensures
            r == self.regs.sp,
    {
        self.regs.sp
    }

    /// Sets the program counter at which the task resumes.
    pub fn set_pc(&mut self, pc: usize)
        ensures
            final(self).sepc == pc,
            final(self).regs == old(self).regs,
            final(self).sstatus == old(self).sstatus,
            final(self).fs0 == old(self).fs0,
            final(self).fs1 == old(self).fs1,
    {
        self.sepc = pc;
    }

    /// Rewinds the program counter by the length of the `ecall` instruction,
    /// so that a restarted system call re-executes it.
    pub fn rewind_pc(&mut self)
        requires
            old(self).sepc >= 4,
        ensures
            final(self).sepc == old(self).sepc - 4,
            final(self).regs == old(self).regs,
            final(self).sstatus == old(self).sstatus,
            final(self).fs0 == old(self).fs0,
            final(self).fs1 == old(self).fs1,
    {
        self.sepc = self.sepc - 4;
    }

    /// Advances the program counter past the 4-byte `ecall` instruction,
    /// done before dispatching a system call so the task resumes after it.
    pub fn step_sepc(&mut self)
        requires
            old(self).sepc + 4 <= usize::MAX,
        ensures
            final(self).sepc == old(self).sepc + 4,
            final(self).regs == old(self).regs,
            final(self).sstatus == old(self).sstatus,
            final(self).fs0 == old(self).fs0,
            final(self).fs1 == old(self).fs1,
    {
        self.sepc = self.sepc + 4;
    }

    /// Sets the first argument register (`a0`).
    pub fn set_arg0(&mut self, arg: usize)
        ensures
            final(self).regs == (GeneralRegisters { a0: arg, ..old(self).regs }),
            final(self).sepc == old(self).sepc,
            final(self).sstatus == old(self).sstatus,
            final(self).fs0 == old(self).fs0,
            final(self).fs1 == old(self).fs1,
    {
        self.regs.a0 = arg;
    }

    /// Sets the second argument register (`a1`).
    pub fn set_arg1(&mut self, arg: usize)
        ensures
            final(self).regs == (GeneralRegisters { a1: arg, ..old(self).regs }),
            final(self).sepc == old(self).sepc,
            final(self).sstatus == old(self).sstatus,
            final(self).fs0 == old(self).fs0,
            final(self).fs1 == old(self).fs1,
    {
        self.regs.a1 = arg;
    }

    /// Sets the third argument register (`a2`).
    pub fn set_arg2(&mut self, arg: usize)
        ensures
            final(self).regs == (GeneralRegisters { a2: arg, ..old(self).regs }),
            final(self).sepc == old(self).sepc,
            final(self).sstatus == old(self).sstatus,
            final(self).fs0 == old(self).fs0,
            final(self).fs1 == old(self).fs1,
    {
        self.regs.a2 = arg;
    }

    /// Reads the program counter.
    pub fn get_pc(&self) -> (r: usize)
        ensures
            r == self.sepc,
    {
        self.sepc
    }

    /// Reads the return value slot (`a0`).
    pub fn get_ret_code(&self) -> (r: usize)
        ensures
            r == self.regs.a0,
    {
        self.regs.a0
    }

    /// Sets the return address register (`ra`).
    pub fn set_ra(&mut self, ra: usize)
        ensures
            final(self).regs == (GeneralRegisters { ra: ra, ..old(self).regs }),
            final(self).sepc == old(self).sepc,
            final(self).sstatus == old(self).sstatus,
            final(self).fs0 == old(self).fs0,
            final(self).fs1 == old(self).fs1,
    {
        self.regs.ra = ra;
    }

    /// Reads the six system-call argument registers `a0` through `a5`.
    pub fn get_syscall_args(&self) -> (r: [usize; 6])
        ensures
            r[0] == self.regs.a0,
            r[1] == self.regs.a1,
            r[2] == self.regs.a2,
            r[3] == self.regs.a3,
            r[4] == self.regs.a4,
            r[5] == self.regs.a5,
    {
        [
            self.regs.a0,
            self.regs.a1,
            self.regs.a2,
            self.regs.a3,
            self.regs.a4,
            self.regs.a5,
        ]
    }

    /// Reads the system-call number register (`a7`).
    pub fn get_syscall_num(&self) -> (r: usize)
        ensures
            r == self.regs.a7,
    {
        self.regs.a7
    }

    /// Folds saved interrupt-enable bits back into the stored status word.
    /// The switch guard clears the interrupt-enable bit before a frame is
    /// captured; the bits it saved are or-ed back here so the frame reflects
    /// the pre-guard interrupt state.
    pub fn or_status(&mut self, status_bits: usize)
        ensures
            final(self).sstatus == (old(self).sstatus | status_bits),
            final(self).regs == old(self).regs,
            final(self).sepc == old(self).sepc,
            final(self).fs0 == old(self).fs0,
            final(self).fs1 == old(self).fs1,
    {
        self.sstatus = self.sstatus | status_bits;
    }
}

/// Privilege information attached to a saved context when the same frame
/// layout carries traps from different privilege levels.
#[derive(Debug, Clone, Copy, PartialEq, Eq, Structural)]
pub enum PrivInfo {
    /// A supervisor-level context.
    SPrivilige(SPrivilige),
    /// A user-level context.
    UPrivilige(UPrivilige),
    /// Privilege not recorded.
    UnKnown,
}

/// Supervisor-level control registers captured with a frame.
#[derive(Debug, Clone, Copy, PartialEq, Eq, Structural)]
pub struct SPrivilige {
    /// Supervisor status register.
    pub sstatus: usize,
    /// Supervisor exception program counter.
    pub sepc: usize,
    /// Supervisor trap-vector base.
    pub stvec: usize,
    /// Supervisor interrupt-enable register.
    pub sie: usize,
}

/// User-level control registers captured with a frame.
#[derive(Debug, Clone, Copy, PartialEq, Eq, Structural)]
pub struct UPrivilige {
    /// User status register.
    pub ustatus: usize,
    /// User exception program counter.
    pub uepc: usize,
    /// User trap-vector base.
    pub utvec: usize,
    /// User interrupt-enable register.
    pub uie: usize,
}

} // verus!
