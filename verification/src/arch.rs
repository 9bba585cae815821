//! What the kernel keeps of a CPU: interrupt numbers, the saved context of
//! a thread, and the kinds of exception.

use vstd::prelude::*;

verus! {

/// The number of an interrupt line.
#[derive(Clone, Copy, Debug, PartialEq, Eq)]
pub struct IrqNumber(u32);

impl IrqNumber {
    /// The number.
    pub closed spec fn spec_value(&self) -> u32 {
        self.0
    }

    /// The interrupt line with the given number.
    pub fn new(num: u32) -> (irq: Self)
        ensures
            irq.spec_value() == num,
    {
        Self(num)
    }

    /// The number of the interrupt line.
    pub fn as_u32(&self) -> (r: u32)
        ensures
            r == self.spec_value(),
    {
        self.0
    }

    /// An interrupt line is its number: two lines with one number are one
    /// line.
    pub proof fn lemma_same_number(a: IrqNumber, b: IrqNumber)
        ensures
            a == b <==> a.spec_value() == b.spec_value(),
    {
    }
}

/// Value of the flags register of a new thread: interrupts enabled.
pub const INITIAL_RFLAGS: usize = 0x202;

/// The registers of a thread that is not running.
#[derive(Clone, Copy, Debug, PartialEq, Eq)]
pub struct Context {
    pub rax: usize,
    pub rbx: usize,
    pub rcx: usize,
    pub rdx: usize,
    pub rsi: usize,
    pub rdi: usize,
    pub rbp: usize,
    pub r8: usize,
    pub r9: usize,
    pub r10: usize,
    pub r11: usize,
    pub r12: usize,
    pub r13: usize,
    pub r14: usize,
    pub r15: usize,
    pub rip: usize,
    pub rflags: usize,
    pub rsp: usize,
    pub padding: usize,
}

/// The context with argument `index` of a call set to `val`: the first six
/// arguments go to registers; an index from 6 on changes nothing.
pub open spec fn with_arg(c: Context, index: usize, val: usize) -> Context {
    if index == 0 {
        Context { rdi: val, ..c }
    } else if index == 1 {
        Context { rsi: val, ..c }
    } else if index == 2 {
        Context { rdx: val, ..c }
    } else if index == 3 {
        Context { rcx: val, ..c }
    } else if index == 4 {
        Context { r8: val, ..c }
    } else if index == 5 {
        Context { r9: val, ..c }
    } else {
        c
    }
}

impl Context {
    /// A context with every register at 0.
    pub fn zeroed() -> (c: Self)
        ensures
            c.rflags == 0,
            c.rip == 0,
            c.rax == 0,
            c.rdi == 0,
            c.rsi == 0,
            c.rdx == 0,
            c.rcx == 0,
            c.r8 == 0,
            c.r9 == 0,
    {
        Context {
            rax: 0,
            rbx: 0,
            rcx: 0,
            rdx: 0,
            rsi: 0,
            rdi: 0,
            rbp: 0,
            r8: 0,
            r9: 0,
            r10: 0,
            r11: 0,
            r12: 0,
            r13: 0,
            r14: 0,
            r15: 0,
            rip: 0,
            rflags: 0,
            rsp: 0,
            padding: 0,
        }
    }

    /// Sets the flags of a new thread: interrupts are enabled.
    pub fn init(&mut self) -> (r: &mut Self)
        ensures
            *r == (Context { rflags: INITIAL_RFLAGS, ..*old(self) }),
            *final(self) == *final(r),
    {
        self.rflags = INITIAL_RFLAGS;
        self
    }

    /// Sets the address at which the thread goes on.
    pub fn set_return_address(&mut self, rip: usize) -> (r: &mut Self)
        ensures
            *r == (Context { rip, ..*old(self) }),
            *final(self) == *final(r),
    {
        self.rip = rip;
        self
    }

    /// Sets argument `index` of the call that the thread starts with.
    pub fn set_arg(&mut self, index: usize, val: usize) -> (r: &mut Self)
        ensures
            *r == with_arg(*old(self), index, val),
            *final(self) == *final(r),
    {
        if index == 0 {
            self.rdi = val;
        } else if index == 1 {
            self.rsi = val;
        } else if index == 2 {
            self.rdx = val;
        } else if index == 3 {
            self.rcx = val;
        } else if index == 4 {
            self.r8 = val;
        } else if index == 5 {
            self.r9 = val;
        }
        self
    }

    /// Sets the value that the call which the thread is in returns.
    pub fn set_return_value(&mut self, val: usize) -> (r: &mut Self)
        ensures
            *r == (Context { rax: val, ..*old(self) }),
            *final(self) == *final(r),
    {
        self.rax = val;
        self
    }
}

/// Exception vector of a division by zero.
pub const DIVIDE_ERROR: usize = 0;

/// Exception vector of a debug trap.
pub const DEBUG: usize = 1;

/// Exception vector of a breakpoint.
pub const BREAKPOINT: usize = 3;

/// Exception vector of a general protection fault.
pub const GENERAL_PROTECTION_FAULT: usize = 13;

/// Exception vector of a page fault.
pub const PAGE_FAULT: usize = 14;

/// The exceptions that the kernel tells apart.
#[derive(Clone, Copy, Debug, PartialEq, Eq)]
pub enum Exception {
    DivideError,
    Debug,
    Breakpoint,
    GeneralProtectionFault(Option<u64>),
    PageFault(Option<u64>),
    Unhandled(usize, Option<u64>),
}

/// The exception that a vector and an error code stand for.
pub open spec fn exception_of(vector: usize, error_code: Option<u64>) -> Exception {
    if vector == DIVIDE_ERROR {
        Exception::DivideError
    } else if vector == DEBUG {
        Exception::Debug
    } else if vector == BREAKPOINT {
        Exception::Breakpoint
    } else if vector == GENERAL_PROTECTION_FAULT {
        Exception::GeneralProtectionFault(error_code)
    } else if vector == PAGE_FAULT {
        Exception::PageFault(error_code)
    } else {
        Exception::Unhandled(vector, error_code)
    }
}

/// Tells which exception was raised.
pub fn classify_exception(vector: usize, error_code: Option<u64>) -> (e: Exception)
    ensures
        e == exception_of(vector, error_code),
{
    if vector == DIVIDE_ERROR {
        Exception::DivideError
    } else if vector == DEBUG {
        Exception::Debug
    } else if vector == BREAKPOINT {
        Exception::Breakpoint
    } else if vector == GENERAL_PROTECTION_FAULT {
        Exception::GeneralProtectionFault(error_code)
    } else if vector == PAGE_FAULT {
        Exception::PageFault(error_code)
    } else {
        Exception::Unhandled(vector, error_code)
    }
}

/// The tick counter of the system timer.
pub struct Systick {
    tick: usize,
    irq_num: IrqNumber,
    step: usize,
}

impl Systick {
    /// Number of ticks so far.
    pub closed spec fn spec_tick(&self) -> usize {
        self.tick
    }

    /// The interrupt line of the timer.
    pub closed spec fn spec_irq(&self) -> IrqNumber {
        self.irq_num
    }

    /// Timer cycles in one tick.
    pub closed spec fn spec_step(&self) -> usize {
        self.step
    }

    /// A timer on the given interrupt line, at tick 0.
    pub fn new(irq_num: IrqNumber) -> (s: Self)
        ensures
            s.spec_tick() == 0,
            s.spec_step() == 0,
            s.spec_irq() == irq_num,
    {
        Self { irq_num, tick: 0, step: 0 }
    }

    /// The interrupt line of the timer.
    pub fn irq_num(&self) -> (r: IrqNumber)
        ensures
            r == self.spec_irq(),
    {
        self.irq_num
    }

    /// Timer cycles in one tick.
    pub fn get_step(&self) -> (r: usize)
        ensures
            r == self.spec_step(),
    {
        self.step
    }

    /// Number of ticks so far.
    pub fn get_tick(&self) -> (r: usize)
        ensures
            r == self.spec_tick(),
    {
        self.tick
    }

    /// Counts a tick and returns the new number of ticks; the counter
    /// wraps around.
    pub fn increment_ticks(&mut self) -> (r: usize)
        ensures
            r == if old(self).spec_tick() == usize::MAX {
                0
            } else {
                (old(self).spec_tick() + 1) as usize
            },
            final(self).spec_tick() == r,
            final(self).spec_irq() == old(self).spec_irq(),
            final(self).spec_step() == old(self).spec_step(),
    {
        self.tick = if self.tick == usize::MAX {
            0
        } else {
            self.tick + 1
        };
        self.tick
    }
}

/// A 16550 UART at an I/O port.
pub struct Uart {
    base: u64,
}

/// Bit of the line status register that says that the transmit holding
/// register is empty.
pub const LSR_THR_EMPTY: u8 = 0x20;

impl Uart {
    /// The base port.
    pub closed spec fn spec_base(&self) -> u64 {
        self.base
    }

    /// The UART at the given base port.
    pub fn new(base: u64) -> (u: Self)
        ensures
            u.spec_base() == base,
    {
        Self { base }
    }

    /// The port of the data register.
    pub fn data_port(&self) -> (r: u64)
        ensures
            r == self.spec_base(),
    {
        self.base
    }

    /// The port of the line status register; none where it lies beyond
    /// the ports that there are.
    pub fn status_port(&self) -> (r: Option<u64>)
        ensures
            r == if self.spec_base() <= u64::MAX - 5 {
                Some((self.spec_base() + 5) as u64)
            } else {
                None
            },
    {
        self.base.checked_add(5)
    }

    /// Tells from the line status whether a byte can be written.
    pub fn can_transmit(status: u8) -> (r: bool)
        ensures
            r == (status / 32 % 2 == 1),
    {
        status / 32 % 2 == 1
    }
}

} // verus!
