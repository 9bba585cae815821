//! The buffered core of a serial terminal.
//!
//! A [`Serial`] stands between a UART driver and the threads that read and
//! write: received bytes wait in a ring until a reader takes them, and
//! bytes to send wait in a ring until the driver takes them. Reading and
//! writing never sleep here: where a caller has to wait, they say so, and
//! the caller sleeps on the ring's futex and comes back.

use vstd::prelude::*;
use vstd::string::*;
use crate::device::{DeviceClass, DeviceId, ErrorKind, DEVICE_REQUEST_CLOSE};
use crate::ringbuffer::RingBuffer;

verus! {

/// Size of the receive ring, where it is larger than the minimum.
pub const SERIAL_RX_FIFO_SIZE: usize = 512;

/// Size of the transmit ring, where it is larger than the minimum.
pub const SERIAL_TX_FIFO_SIZE: usize = 512;

/// The smallest receive ring.
pub const SERIAL_RX_FIFO_MIN_SIZE: usize = 256;

/// The smallest transmit ring.
pub const SERIAL_TX_FIFO_MIN_SIZE: usize = 256;

/// What can go wrong on a serial line.
#[derive(Clone, Copy, Debug, PartialEq, Eq)]
pub enum SerialError {
    Overrun,
    Break,
    Parity,
    Framing,
    BufferEmpty,
    DeviceError,
    InvalidParameter,
    TimedOut,
}

/// The kind of error that a serial error is reported as.
pub open spec fn kind_of(e: SerialError) -> ErrorKind {
    match e {
        SerialError::Break | SerialError::Overrun => ErrorKind::Other,
        SerialError::Framing | SerialError::Parity => ErrorKind::InvalidData,
        SerialError::BufferEmpty | SerialError::InvalidParameter => ErrorKind::InvalidInput,
        SerialError::DeviceError => ErrorKind::Other,
        SerialError::TimedOut => ErrorKind::TimedOut,
    }
}

impl SerialError {
    /// The kind of error that this error is reported as.
    pub fn kind(&self) -> (k: ErrorKind)
        ensures
            k == kind_of(*self),
    {
        match self {
            SerialError::Break | SerialError::Overrun => ErrorKind::Other,
            SerialError::Framing | SerialError::Parity => ErrorKind::InvalidData,
            SerialError::BufferEmpty | SerialError::InvalidParameter => ErrorKind::InvalidInput,
            SerialError::DeviceError => ErrorKind::Other,
            SerialError::TimedOut => ErrorKind::TimedOut,
        }
    }
}

/// What the device reports for what the driver answered: success as it
/// is, and an error by its kind.
pub open spec fn reported(answer: Result<(), SerialError>) -> Result<(), ErrorKind> {
    match answer {
        Ok(_) => Ok(()),
        Err(e) => Err(kind_of(e)),
    }
}

/// Turns the answer of the driver into what the device reports.
pub fn device_result(answer: Result<(), SerialError>) -> (r: Result<(), ErrorKind>)
    ensures
        r == reported(answer),
{
    match answer {
        Ok(_) => Ok(()),
        Err(e) => Err(e.kind()),
    }
}

/// How many of the `n` bytes that the driver says it has put into a buffer
/// of `len` bytes go into a ring with `room` free slots.
pub open spec fn received_count(n: int, len: int, room: int) -> int {
    let given = if n <= len {
        n
    } else {
        len
    };
    if given <= room {
        given
    } else {
        room
    }
}

/// A count of wake-ups after one more was asked for; the count stays
/// where it cannot grow.
pub open spec fn one_more(wakes: usize) -> usize {
    if wakes < usize::MAX {
        (wakes + 1) as usize
    } else {
        wakes
    }
}

/// Settings of a terminal line.
#[derive(Clone, Copy, Debug, PartialEq, Eq)]
pub struct Termios {
    pub iflag: u32,
    pub oflag: u32,
    pub cflag: u32,
    pub lflag: u32,
    pub ispeed: u32,
    pub ospeed: u32,
}

/// What a UART driver offers to the serial core. Nothing is taken for
/// granted of what its methods return.
pub trait UartOps {
    fn setup(&mut self, termios: &Termios) -> Result<(), SerialError>;

    fn shutdown(&mut self) -> Result<(), SerialError>;

    fn read_byte(&mut self) -> Result<u8, SerialError>;

    fn write_byte(&mut self, byte: u8) -> Result<(), SerialError>;

    fn write_str(&mut self, s: &str) -> Result<(), SerialError>;

    fn ioctl(&mut self, request: u32, arg: usize) -> Result<(), SerialError>;

    fn set_rx_interrupt(&mut self, enable: bool);

    fn set_tx_interrupt(&mut self, enable: bool);

    fn clear_rx_interrupt(&mut self);

    fn clear_tx_interrupt(&mut self);

    /// Reads received bytes into the front of `buf`; returns their number.
    fn read(&mut self, buf: &mut [u8]) -> Result<usize, SerialError>;

    /// Sends bytes from the front of `buf`; returns their number.
    fn write(&mut self, buf: &[u8]) -> Result<usize, SerialError>;

    fn read_ready(&mut self) -> Result<bool, SerialError>;

    fn write_ready(&mut self) -> Result<bool, SerialError>;
}

/// A sleep word: waiters sleep on it while it is 0, and wakers ask for
/// waiters to be woken.
#[derive(Clone, Copy, Debug, PartialEq, Eq)]
pub struct Futex {
    word: usize,
    wakes: usize,
}

impl Futex {
    /// The value of the word.
    pub closed spec fn spec_word(&self) -> usize {
        self.word
    }

    /// Number of wake-ups that were asked for and not delivered yet.
    pub closed spec fn spec_wakes(&self) -> usize {
        self.wakes
    }

    /// A word at 0 with no wake-up pending.
    pub fn new() -> (f: Futex)
        ensures
            f.spec_word() == 0,
            f.spec_wakes() == 0,
    {
        Futex { word: 0, wakes: 0 }
    }

    /// The value of the word.
    pub fn word(&self) -> (r: usize)
        ensures
            r == self.spec_word(),
    {
        self.word
    }

    /// Asks for one waiter to be woken.
    pub fn wake(&mut self)
        ensures
            final(self).spec_word() == old(self).spec_word(),
            final(self).spec_wakes() == if old(self).spec_wakes() < usize::MAX {
                (old(self).spec_wakes() + 1) as usize
            } else {
                old(self).spec_wakes()
            },
    {
        if self.wakes < usize::MAX {
            self.wakes = self.wakes + 1;
        }
    }

    /// Takes the wake-ups that are pending, for delivery.
    pub fn take_wakes(&mut self) -> (n: usize)
        ensures
            n == old(self).spec_wakes(),
            final(self).spec_wakes() == 0,
            final(self).spec_word() == old(self).spec_word(),
    {
        let n = self.wakes;
        self.wakes = 0;
        n
    }
}

/// A ring with the futex that its waiters sleep on.
pub struct SerialFifo {
    pub rb: RingBuffer,
    pub futex: Futex,
}

impl SerialFifo {
    /// An empty ring of `size` bytes.
    pub fn new(size: usize) -> (f: SerialFifo)
        requires
            size > 0,
        ensures
            f.rb.wf(),
            f.rb@ == Seq::<u8>::empty(),
            f.rb.spec_capacity() == size,
            f.rb.pushed() == Seq::<u8>::empty(),
            f.rb.popped() == Seq::<u8>::empty(),
            f.futex.spec_word() == 0,
            f.futex.spec_wakes() == 0,
    {
        SerialFifo { rb: RingBuffer::new(size), futex: Futex::new() }
    }
}

/// How a pass of reading or writing ended; the number is the count of
/// bytes transferred so far.
#[derive(Clone, Copy, Debug, PartialEq, Eq)]
pub enum IoStep {
    /// The operation is over.
    Done(usize),
    /// The caller sleeps on the futex of the ring, then makes another pass.
    Wait(usize),
    /// The caller makes another pass at once.
    Again(usize),
}

/// The decimal digits of `n`.
pub open spec fn decimal(n: nat) -> Seq<char>
    decreases n,
{
    let digit = (('0' as u8) + (n % 10) as u8) as char;
    if n < 10 {
        seq![digit]
    } else {
        decimal(n / 10).push(digit)
    }
}

/// The name of the serial device with the given index.
pub open spec fn tty_name(index: u32) -> Seq<char> {
    "ttyS"@ + decimal(index as nat)
}

/// The digit `d` as a string.
fn digit_str(d: u32) -> (r: &'static str)
    requires
        d < 10,
    ensures
        r@ == seq![(('0' as u8) + d as u8) as char],
{
    proof {
        reveal_strlit("0");
        reveal_strlit("1");
        reveal_strlit("2");
        reveal_strlit("3");
        reveal_strlit("4");
        reveal_strlit("5");
        reveal_strlit("6");
        reveal_strlit("7");
        reveal_strlit("8");
        reveal_strlit("9");
    }
    let r = if d == 0 {
        "0"
    } else if d == 1 {
        "1"
    } else if d == 2 {
        "2"
    } else if d == 3 {
        "3"
    } else if d == 4 {
        "4"
    } else if d == 5 {
        "5"
    } else if d == 6 {
        "6"
    } else if d == 7 {
        "7"
    } else if d == 8 {
        "8"
    } else {
        "9"
    };
    proof {
        assert(r@ =~= seq![(('0' as u8) + d as u8) as char]);
    }
    r
}

/// `n` in decimal digits: no sign, no leading zero, and `0` for zero.
pub fn decimal_string(n: u32) -> (r: String)
    ensures
        r@ == decimal(n as nat),
    decreases n,
{
    if n < 10 {
        digit_str(n).to_owned()
    } else {
        let front = decimal_string(n / 10);
        let r = front.concat(digit_str(n % 10));
        proof {
            assert(r@ =~= decimal((n / 10) as nat).push((('0' as u8) + (n % 10) as u8) as char));
        }
        r
    }
}

/// A serial device.
pub struct Serial<U: UartOps> {
    index: u32,
    pub termios: Termios,
    rx_fifo: SerialFifo,
    tx_fifo: SerialFifo,
    pub uart_ops: U,
    open_count: u32,
    rx_irq: bool,
    tx_irq: bool,
}

impl<U: UartOps> Serial<U> {
    /// The receive ring.
    pub closed spec fn rx(&self) -> SerialFifo {
        self.rx_fifo
    }

    /// The transmit ring.
    pub closed spec fn tx(&self) -> SerialFifo {
        self.tx_fifo
    }

    /// Number of times that the device is open.
    pub closed spec fn spec_open_count(&self) -> u32 {
        self.open_count
    }

    /// The index of the device.
    pub closed spec fn spec_index(&self) -> u32 {
        self.index
    }

    /// The receive interrupt was last asked to be enabled.
    pub closed spec fn rx_irq(&self) -> bool {
        self.rx_irq
    }

    /// The transmit interrupt was last asked to be enabled.
    pub closed spec fn tx_irq(&self) -> bool {
        self.tx_irq
    }

    /// The settings of the line.
    pub closed spec fn spec_termios(&self) -> Termios {
        self.termios
    }

    /// The driver.
    pub closed spec fn spec_uart(&self) -> U {
        self.uart_ops
    }

    /// Both rings are consistent.
    pub open spec fn wf(&self) -> bool {
        &&& self.rx().rb.wf()
        &&& self.tx().rb.wf()
    }

    /// What a pass of writing that put `data` into the transmit ring leaves
    /// of the transmit side. The ring holds what it held in `before` and
    /// `data` behind it, without the bytes at the front that the driver
    /// took; the driver takes none in interrupt context. Where bytes were
    /// put into the ring the transmit interrupt is on, unless the driver
    /// took all that the ring held. A writer that waits is woken once at
    /// most, and only where the driver took bytes.
    pub open spec fn tx_after_pass(&self, before: &Self, data: Seq<u8>, in_irq: bool) -> bool {
        let queued = before.tx().rb@ + data;
        let sent = queued.len() - self.tx().rb@.len();
        let wakes = before.tx().futex.spec_wakes();
        &&& 0 <= sent <= queued.len()
        &&& self.tx().rb@ == queued.subrange(sent, queued.len() as int)
        &&& (data.len() == 0 || in_irq) ==> sent == 0
        &&& self.tx_irq() == if data.len() == 0 {
            before.tx_irq()
        } else {
            in_irq || self.tx().rb@.len() > 0
        }
        &&& self.tx().futex.spec_wakes() == wakes || self.tx().futex.spec_wakes() == one_more(wakes)
        &&& sent == 0 ==> self.tx().futex.spec_wakes() == wakes
        &&& sent > 0 && self.tx().rb@.len() == 0 ==> self.tx().futex.spec_wakes() == one_more(wakes)
    }

    /// What the last holder leaves when it closes the device: both
    /// interrupts are off, a reader and a writer that wait are woken, and
    /// the transmit ring holds what it held in `before` without the bytes
    /// at the front that the driver took. A writer is woken once more where
    /// the driver took bytes and raised no error.
    pub open spec fn closed_from(&self, before: &Self) -> bool {
        let ring = before.tx().rb@;
        let sent = ring.len() - self.tx().rb@.len();
        let wakes = before.tx().futex.spec_wakes();
        &&& !self.rx_irq()
        &&& !self.tx_irq()
        &&& self.rx().futex.spec_word() == before.rx().futex.spec_word()
        &&& self.rx().futex.spec_wakes() == one_more(before.rx().futex.spec_wakes())
        &&& self.tx().futex.spec_word() == before.tx().futex.spec_word()
        &&& self.tx().rb.spec_capacity() == before.tx().rb.spec_capacity()
        &&& 0 <= sent <= ring.len()
        &&& self.tx().rb@ == ring.subrange(sent, ring.len() as int)
        &&& self.tx().futex.spec_wakes() == one_more(wakes) || self.tx().futex.spec_wakes() == one_more(
            one_more(wakes),
        )
        &&& sent == 0 ==> self.tx().futex.spec_wakes() == one_more(wakes)
        &&& sent > 0 && self.tx().rb@.len() == 0 ==> self.tx().futex.spec_wakes() == one_more(
            one_more(wakes),
        )
    }

    /// All but the transmit side is as in `before`.
    pub open spec fn rx_untouched(&self, before: &Self) -> bool {
        &&& self.rx() == before.rx()
        &&& self.spec_open_count() == before.spec_open_count()
        &&& self.spec_index() == before.spec_index()
        &&& self.spec_termios() == before.spec_termios()
        &&& self.rx_irq() == before.rx_irq()
    }

    /// All but the receive side is as in `before`.
    pub open spec fn tx_untouched(&self, before: &Self) -> bool {
        &&& self.tx() == before.tx()
        &&& self.spec_open_count() == before.spec_open_count()
        &&& self.spec_index() == before.spec_index()
        &&& self.spec_termios() == before.spec_termios()
        &&& self.tx_irq() == before.tx_irq()
        &&& self.rx_irq() == before.rx_irq()
    }

    /// A closed serial device with empty rings.
    pub fn new(index: u32, termios: Termios, uart_ops: U) -> (s: Self)
        ensures
            s.wf(),
            s.spec_index() == index,
            s.spec_termios() == termios,
            s.spec_uart() == uart_ops,
            s.spec_open_count() == 0,
            !s.rx_irq(),
            !s.tx_irq(),
            s.rx().rb@ == Seq::<u8>::empty(),
            s.tx().rb@ == Seq::<u8>::empty(),
            s.rx().rb.spec_capacity() == 512,
            s.tx().rb.spec_capacity() == 512,
            s.rx().futex.spec_word() == 0,
            s.tx().futex.spec_word() == 0,
            s.rx().futex.spec_wakes() == 0,
            s.tx().futex.spec_wakes() == 0,
    {
        let rx_size = if SERIAL_RX_FIFO_SIZE > SERIAL_RX_FIFO_MIN_SIZE {
            SERIAL_RX_FIFO_SIZE
        } else {
            SERIAL_RX_FIFO_MIN_SIZE
        };
        let tx_size = if SERIAL_TX_FIFO_SIZE > SERIAL_TX_FIFO_MIN_SIZE {
            SERIAL_TX_FIFO_SIZE
        } else {
            SERIAL_TX_FIFO_MIN_SIZE
        };
        Self {
            index,
            termios,
            rx_fifo: SerialFifo::new(rx_size),
            tx_fifo: SerialFifo::new(tx_size),
            uart_ops,
            open_count: 0,
            rx_irq: false,
            tx_irq: false,
        }
    }

    /// Counts one more holder; returns the new count.
    fn inc_open_count(&mut self) -> (r: u32)
        requires
            old(self).open_count < u32::MAX,
        ensures
            r == old(self).open_count + 1,
            *final(self) == (Self { open_count: r, ..*old(self) }),
    {
        self.open_count = self.open_count + 1;
        self.open_count
    }

    /// Counts one holder less; returns the new count.
    fn dec_open_count(&mut self) -> (r: u32)
        requires
            old(self).open_count > 0,
        ensures
            r == old(self).open_count - 1,
            *final(self) == (Self { open_count: r, ..*old(self) }),
    {
        self.open_count = self.open_count - 1;
        self.open_count
    }

    /// Tells whether the device is open.
    pub fn is_opened(&self) -> (r: bool)
        ensures
            r == (self.spec_open_count() > 0),
    {
        self.open_count > 0
    }

    /// Number of times that the device is open.
    pub fn open_count(&self) -> (r: u32)
        ensures
            r == self.spec_open_count(),
    {
        self.open_count
    }

    /// Wakes a reader that waits and turns the receive interrupt off.
    fn rx_disable(&mut self) -> (r: Result<(), SerialError>)
        ensures
            r is Ok,
            final(self).tx_fifo == old(self).tx_fifo,
            final(self).rx_fifo.rb == old(self).rx_fifo.rb,
            final(self).rx_fifo.futex.spec_word() == old(self).rx_fifo.futex.spec_word(),
            final(self).open_count == old(self).open_count,
            final(self).index == old(self).index,
            final(self).termios == old(self).termios,
            final(self).rx_fifo.futex.spec_wakes() == one_more(old(self).rx_fifo.futex.spec_wakes()),
            !final(self).rx_irq,
            final(self).tx_irq == old(self).tx_irq,
    {
        self.rx_fifo.futex.wake();
        self.uart_ops.set_rx_interrupt(false);
        self.rx_irq = false;
        Ok(())
    }

    /// Wakes a writer that waits, turns the transmit interrupt off and
    /// sends what is left in the transmit ring.
    fn tx_disable(&mut self) -> (r: Result<(), SerialError>)
        requires
            old(self).wf(),
        ensures
            final(self).wf(),
            final(self).rx_fifo == old(self).rx_fifo,
            final(self).open_count == old(self).open_count,
            final(self).index == old(self).index,
            final(self).termios == old(self).termios,
            final(self).rx_irq == old(self).rx_irq,
            final(self).tx_fifo.rb.pushed() == old(self).tx_fifo.rb.pushed(),
            final(self).tx_fifo.rb.spec_capacity() == old(self).tx_fifo.rb.spec_capacity(),
            !final(self).tx_irq,
            final(self).tx_fifo.rb@.len() <= old(self).tx_fifo.rb@.len(),
            final(self).tx_fifo.rb@ == old(self).tx_fifo.rb@.subrange(
                old(self).tx_fifo.rb@.len() - final(self).tx_fifo.rb@.len(),
                old(self).tx_fifo.rb@.len() as int,
            ),
            final(self).tx_fifo.futex.spec_word() == old(self).tx_fifo.futex.spec_word(),
            final(self).tx_fifo.futex.spec_wakes() == if r is Ok && final(self).tx_fifo.rb@.len() < old(
                self,
            ).tx_fifo.rb@.len() {
                one_more(one_more(old(self).tx_fifo.futex.spec_wakes()))
            } else {
                one_more(old(self).tx_fifo.futex.spec_wakes())
            },
            old(self).tx_fifo.rb@.len() == 0 ==> r is Ok,
            r is Err ==> final(self).tx_fifo.rb@.len() > 0,
    {
        self.tx_fifo.futex.wake();
        self.uart_ops.set_tx_interrupt(false);
        self.tx_irq = false;
        // send all data in tx fifo
        match self.xmitchars() {
            Ok(_) => Ok(()),
            Err(e) => Err(e),
        }
    }

    /// One pass of reading: takes what the receive ring holds, as far as
    /// `buf` has room. A caller that does not block is done, whatever it
    /// got; a caller that blocks is done where it got a byte at least, and
    /// waits for a wake-up of the receive futex where it got none.
    pub fn fifo_rx(&mut self, buf: &mut [u8], is_nonblocking: bool) -> (r: IoStep)
        requires
            old(self).wf(),
        ensures
            final(self).wf(),
            final(self).tx_untouched(old(self)),
            final(self).rx().futex == old(self).rx().futex,
            final(self).rx().rb.pushed() == old(self).rx().rb.pushed(),
            final(self).rx().rb.spec_capacity() == old(self).rx().rb.spec_capacity(),
            final(buf)@.len() == old(buf)@.len(),
            ({
                let n = if old(buf)@.len() <= old(self).rx().rb@.len() {
                    old(buf)@.len()
                } else {
                    old(self).rx().rb@.len()
                };
                &&& r == if !is_nonblocking && n == 0 {
                    IoStep::Wait(0)
                } else {
                    IoStep::Done(n as usize)
                }
                &&& final(buf)@.subrange(0, n as int) == old(self).rx().rb@.subrange(0, n as int)
                &&& final(self).rx().rb@ == old(self).rx().rb@.subrange(
                    n as int,
                    old(self).rx().rb@.len() as int,
                )
                &&& forall|i: int| n <= i < old(buf)@.len() ==> final(buf)@[i] == old(buf)@[i]
            }),
    {
        // read data from ringbuffer
        let n = self.rx_fifo.rb.pop_slice(buf, 0);
        if !is_nonblocking {
            // if no data is available, wait for data
            if n == 0 {
                IoStep::Wait(0)
            } else {
                IoStep::Done(n)
            }
        } else {
            IoStep::Done(n)
        }
    }

    /// One pass of writing, where `done` bytes of `buf` were taken in
    /// earlier passes: puts bytes of `buf` into the transmit ring as far as
    /// it has room, turns the transmit interrupt on and, outside of
    /// interrupt context, hands bytes to the driver. A caller that does not
    /// block, or runs in interrupt context, is done. A caller that blocks
    /// waits for a wake-up of the transmit futex while bytes are left in
    /// the ring, and is done when the ring is empty and all of `buf` was
    /// taken.
    pub fn fifo_tx(&mut self, buf: &[u8], done: usize, is_nonblocking: bool, in_irq: bool) -> (r:
        IoStep)
        requires
            old(self).wf(),
            done <= buf@.len(),
        ensures
            final(self).wf(),
            final(self).rx_untouched(old(self)),
            final(self).tx().rb.spec_capacity() == old(self).tx().rb.spec_capacity(),
            final(self).tx().futex.spec_word() == old(self).tx().futex.spec_word(),
            ({
                let room = old(self).tx().rb.spec_capacity() - old(self).tx().rb@.len();
                let n = if buf@.len() - done <= room {
                    buf@.len() - done
                } else {
                    room
                };
                let count = (done + n) as usize;
                &&& final(self).tx().rb.pushed() == old(self).tx().rb.pushed() + buf@.subrange(
                    done as int,
                    done + n,
                )
                &&& r == if !is_nonblocking && !in_irq {
                    if final(self).tx().rb@.len() > 0 {
                        IoStep::Wait(count)
                    } else if count >= buf@.len() {
                        IoStep::Done(count)
                    } else {
                        IoStep::Again(count)
                    }
                } else {
                    IoStep::Done(count)
                }
                &&& final(self).tx_after_pass(old(self), buf@.subrange(done as int, done + n), in_irq)
            }),
    {
        // Put what fits into the ring
        let total = buf.len();
        let n = self.tx_fifo.rb.push_slice(buf, done);
        let count = done + n;
        let ghost data = buf@.subrange(done as int, done + n);
        let ghost queued = old(self).tx_fifo.rb@ + data;
        proof {
            assert(self.tx_fifo.rb@ == queued);
            assert(queued.subrange(0, queued.len() as int) =~= queued);
        }
        if n > 0 {
            self.uart_ops.set_tx_interrupt(true);
            self.tx_irq = true;
            // write some data to uart to trigger interrupt
            if !in_irq {
                let _ = self.xmitchars();
            }
        }
        proof {
            assert(self.tx_after_pass(old(self), data, in_irq));
        }
        if !is_nonblocking && !in_irq {
            if !self.tx_fifo.rb.is_empty() {
                // wait for data to be written
                IoStep::Wait(count)
            } else if count >= buf.len() {
                IoStep::Done(count)
            } else {
                IoStep::Again(count)
            }
        } else {
            IoStep::Done(count)
        }
    }

    /// What a blocking writer does when it wakes up: it turns the transmit
    /// interrupt off before its next pass.
    pub fn tx_woken(&mut self)
        ensures
            final(self).rx_untouched(old(self)),
            final(self).tx() == old(self).tx(),
            !final(self).tx_irq(),
    {
        self.uart_ops.set_tx_interrupt(false);
        self.tx_irq = false;
    }

    /// What a caller gets when its wait has timed out after `count` bytes:
    /// the count where bytes were transferred, `TimedOut` where none were.
    pub fn timed_out(count: usize) -> (r: Result<usize, SerialError>)
        ensures
            r == if count > 0 {
                Ok::<usize, SerialError>(count)
            } else {
                Err::<usize, SerialError>(SerialError::TimedOut)
            },
    {
        if count > 0 {
            Ok(count)
        } else {
            Err(SerialError::TimedOut)
        }
    }

    /// What is done with the answer of the driver to `offered` bytes from
    /// the head of the transmit ring. The bytes that the driver has taken,
    /// no more than were offered, leave the ring, and their number is
    /// returned. An error of the driver is returned as it is, and the ring
    /// keeps its bytes.
    pub fn take_sent(&mut self, offered: usize, answer: Result<usize, SerialError>) -> (r: Result<
        usize,
        SerialError,
    >)
        requires
            old(self).wf(),
            offered <= old(self).tx().rb@.len(),
        ensures
            final(self).wf(),
            final(self).rx_untouched(old(self)),
            final(self).tx_irq() == old(self).tx_irq(),
            final(self).tx().futex == old(self).tx().futex,
            final(self).tx().rb.spec_capacity() == old(self).tx().rb.spec_capacity(),
            final(self).tx().rb.pushed() == old(self).tx().rb.pushed(),
            match answer {
                Ok(n) => {
                    let k = if n <= offered {
                        n
                    } else {
                        offered
                    };
                    &&& r == Ok::<usize, SerialError>(k)
                    &&& final(self).tx().rb@ == old(self).tx().rb@.subrange(
                        k as int,
                        old(self).tx().rb@.len() as int,
                    )
                    &&& final(self).tx().rb.popped() == old(self).tx().rb.popped() + old(
                        self,
                    ).tx().rb@.subrange(0, k as int)
                },
                Err(e) => {
                    &&& r == Err::<usize, SerialError>(e)
                    &&& final(self).tx() == old(self).tx()
                },
            },
    {
        match answer {
            Ok(n) => {
                let k = if n > offered {
                    offered
                } else {
                    n
                };
                self.tx_fifo.rb.pop_done(k);
                Ok(k)
            },
            Err(e) => Err(e),
        }
    }

    /// What is done with the answer of the driver that was given `data` to
    /// fill. The bytes that the driver has put at the front of `data` go
    /// into the receive ring as [`Self::store_received`] says, and their
    /// number is returned. An error of the driver is returned as it is, and
    /// the ring stays as it was.
    pub fn take_received(&mut self, data: &[u8], answer: Result<usize, SerialError>) -> (r: Result<
        usize,
        SerialError,
    >)
        requires
            old(self).wf(),
        ensures
            final(self).wf(),
            final(self).tx_untouched(old(self)),
            final(self).rx().futex == old(self).rx().futex,
            final(self).rx().rb.spec_capacity() == old(self).rx().rb.spec_capacity(),
            final(self).rx().rb.popped() == old(self).rx().rb.popped(),
            match answer {
                Ok(n) => {
                    let k = received_count(
                        n as int,
                        data@.len() as int,
                        old(self).rx().rb.spec_capacity() - old(self).rx().rb@.len(),
                    );
                    &&& r == Ok::<usize, SerialError>(k as usize)
                    &&& final(self).rx().rb@ == old(self).rx().rb@ + data@.subrange(0, k)
                    &&& final(self).rx().rb.pushed() == old(self).rx().rb.pushed() + data@.subrange(0, k)
                },
                Err(e) => {
                    &&& r == Err::<usize, SerialError>(e)
                    &&& final(self).rx() == old(self).rx()
                },
            },
    {
        match answer {
            Ok(n) => Ok(self.store_received(data, n)),
            Err(e) => Err(e),
        }
    }

    /// Called from the UART interrupt handler when there is more space in
    /// the transmit FIFO of the device: hands bytes of the transmit ring to
    /// the driver, in order, for as long as the driver is ready and takes
    /// some.
    ///
    /// The bytes that the driver took leave the ring. Where the ring is
    /// empty in the end, the transmit interrupt is turned off. Where bytes
    /// were sent, a writer that waits is woken.
    pub fn xmitchars(&mut self) -> (r: Result<usize, SerialError>)
        requires
            old(self).wf(),
        ensures
            final(self).wf(),
            final(self).rx_untouched(old(self)),
            final(self).tx().rb.spec_capacity() == old(self).tx().rb.spec_capacity(),
            final(self).tx().rb.pushed() == old(self).tx().rb.pushed(),
            final(self).tx().futex.spec_word() == old(self).tx().futex.spec_word(),
            final(self).tx().rb@.len() <= old(self).tx().rb@.len(),
            final(self).tx().rb@ == old(self).tx().rb@.subrange(
                old(self).tx().rb@.len() - final(self).tx().rb@.len(),
                old(self).tx().rb@.len() as int,
            ),
            r matches Ok(n) ==> {
                &&& n == old(self).tx().rb@.len() - final(self).tx().rb@.len()
                &&& final(self).tx().rb@.len() == 0 ==> !final(self).tx_irq()
                &&& final(self).tx().rb@.len() > 0 ==> final(self).tx_irq() == old(self).tx_irq()
                &&& final(self).tx().futex.spec_wakes() == if n > 0 && old(
                    self,
                ).tx().futex.spec_wakes() < usize::MAX {
                    (old(self).tx().futex.spec_wakes() + 1) as usize
                } else {
                    old(self).tx().futex.spec_wakes()
                }
            },
            r is Err ==> final(self).tx().futex == old(self).tx().futex && final(self).tx_irq() == old(
                self,
            ).tx_irq() && final(self).tx().rb@.len() > 0,
            old(self).tx().rb@.len() == 0 ==> r == Ok::<usize, SerialError>(0),
    {
        let mut nbytes: usize = 0;
        let ghost start = self.tx_fifo.rb@;
        proof {
            assert(start.subrange(0, start.len() as int) =~= start);
            self.tx_fifo.rb.lemma_conservation();
        }
        while !self.tx_fifo.rb.is_empty()
            invariant
                self.wf(),
                start.len() <= usize::MAX,
                self.rx_untouched(old(self)),
                self.tx_irq == old(self).tx_irq,
                self.tx_fifo.futex == old(self).tx_fifo.futex,
                self.tx_fifo.rb.spec_capacity() == old(self).tx_fifo.rb.spec_capacity(),
                self.tx_fifo.rb.pushed() == old(self).tx_fifo.rb.pushed(),
                start == old(self).tx_fifo.rb@,
                nbytes + self.tx_fifo.rb@.len() == start.len(),
                self.tx_fifo.rb@ == start.subrange(nbytes as int, start.len() as int),
            decreases self.tx_fifo.rb@.len(),
        {
            match self.uart_ops.write_ready() {
                Ok(true) => {},
                Ok(false) => {
                    break ;
                },
                Err(e) => {
                    return Err(e);
                },
            }
            let buf = self.tx_fifo.rb.peek_contiguous();
            proof {
                self.tx_fifo.rb.lemma_conservation();
            }
            let answer = self.uart_ops.write(buf.as_slice());
            match self.take_sent(buf.len(), answer) {
                Ok(sent) => {
                    if sent == 0 {
                        break ;
                    }
                    nbytes = nbytes + sent;
                    proof {
                        assert(self.tx_fifo.rb@ =~= start.subrange(nbytes as int, start.len() as int));
                    }
                },
                Err(e) => {
                    return Err(e);
                },
            }
        }
        if self.tx_fifo.rb.is_empty() {
            self.uart_ops.set_tx_interrupt(false);
            self.tx_irq = false;
        }
        if nbytes > 0 {
            self.tx_fifo.futex.wake();
        }
        Ok(nbytes)
    }

    /// Takes into the receive ring the `n` bytes that the driver has put at
    /// the front of `data`, in order, as far as `data` holds that many and
    /// the ring has room; returns how many it took.
    pub fn store_received(&mut self, data: &[u8], n: usize) -> (stored: usize)
        requires
            old(self).wf(),
        ensures
            final(self).wf(),
            final(self).tx_untouched(old(self)),
            final(self).rx().futex == old(self).rx().futex,
            final(self).rx().rb.spec_capacity() == old(self).rx().rb.spec_capacity(),
            final(self).rx().rb.popped() == old(self).rx().rb.popped(),
            stored == received_count(
                n as int,
                data@.len() as int,
                old(self).rx().rb.spec_capacity() - old(self).rx().rb@.len(),
            ),
            final(self).rx().rb@ == old(self).rx().rb@ + data@.subrange(0, stored as int),
            final(self).rx().rb.pushed() == old(self).rx().rb.pushed() + data@.subrange(
                0,
                stored as int,
            ),
    {
        let limit: usize = if n > data.len() {
            data.len()
        } else {
            n
        };
        let mut stored: usize = 0;
        proof {
            self.rx_fifo.rb.lemma_conservation();
            assert(data@.subrange(0, 0) =~= Seq::<u8>::empty());
            assert(self.rx_fifo.rb@ =~= old(self).rx_fifo.rb@ + data@.subrange(0, 0));
            assert(self.rx_fifo.rb.pushed() =~= old(self).rx_fifo.rb.pushed() + data@.subrange(0, 0));
        }
        while stored < limit && !self.rx_fifo.rb.is_full()
            invariant
                self.wf(),
                self.tx_untouched(old(self)),
                self.rx_fifo.futex == old(self).rx_fifo.futex,
                self.rx_fifo.rb.spec_capacity() == old(self).rx_fifo.rb.spec_capacity(),
                self.rx_fifo.rb.popped() == old(self).rx_fifo.rb.popped(),
                stored <= limit <= data@.len(),
                self.rx_fifo.rb@.len() == old(self).rx_fifo.rb@.len() + stored,
                self.rx_fifo.rb@.len() <= self.rx_fifo.rb.spec_capacity(),
                self.rx_fifo.rb@ == old(self).rx_fifo.rb@ + data@.subrange(0, stored as int),
                self.rx_fifo.rb.pushed() == old(self).rx_fifo.rb.pushed() + data@.subrange(
                    0,
                    stored as int,
                ),
            decreases limit - stored,
        {
            let byte: u8 = data[stored];
            let _ = self.rx_fifo.rb.push(byte);
            proof {
                self.rx_fifo.rb.lemma_conservation();
                assert(data@.subrange(0, stored + 1) =~= data@.subrange(0, stored as int).push(byte));
                assert(self.rx_fifo.rb@ =~= old(self).rx_fifo.rb@ + data@.subrange(0, stored + 1));
                assert(self.rx_fifo.rb.pushed() =~= old(self).rx_fifo.rb.pushed() + data@.subrange(
                    0,
                    stored + 1,
                ));
            }
            stored = stored + 1;
        }
        stored
    }

    /// Called from the UART interrupt handler when there is more data in
    /// the receive FIFO of the device: puts bytes that the driver has
    /// received into the receive ring, in order, for as long as the ring
    /// has room and the driver is ready and gives some.
    ///
    /// Where bytes were received, a reader that waits is woken.
    pub fn recvchars(&mut self) -> (r: Result<usize, SerialError>)
        requires
            old(self).wf(),
        ensures
            final(self).wf(),
            final(self).tx_untouched(old(self)),
            final(self).rx().rb.spec_capacity() == old(self).rx().rb.spec_capacity(),
            final(self).rx().rb.popped() == old(self).rx().rb.popped(),
            final(self).rx().futex.spec_word() == old(self).rx().futex.spec_word(),
            final(self).rx().rb@.len() >= old(self).rx().rb@.len(),
            final(self).rx().rb@.subrange(0, old(self).rx().rb@.len() as int) == old(self).rx().rb@,
            r matches Ok(n) ==> {
                &&& n == final(self).rx().rb@.len() - old(self).rx().rb@.len()
                &&& final(self).rx().futex.spec_wakes() == if n > 0 && old(
                    self,
                ).rx().futex.spec_wakes() < usize::MAX {
                    (old(self).rx().futex.spec_wakes() + 1) as usize
                } else {
                    old(self).rx().futex.spec_wakes()
                }
            },
            r is Err ==> final(self).rx().futex == old(self).rx().futex,
            old(self).rx().rb@.len() == old(self).rx().rb.spec_capacity() ==> r == Ok::<
                usize,
                SerialError,
            >(0),
    {
        let mut nbytes: usize = 0;
        let ghost start = self.rx_fifo.rb@;
        proof {
            assert(start.subrange(0, start.len() as int) =~= start);
            self.rx_fifo.rb.lemma_conservation();
        }
        while !self.rx_fifo.rb.is_full()
            invariant
                self.wf(),
                self.tx_untouched(old(self)),
                self.rx_fifo.futex == old(self).rx_fifo.futex,
                self.rx_fifo.rb.spec_capacity() == old(self).rx_fifo.rb.spec_capacity(),
                self.rx_fifo.rb.popped() == old(self).rx_fifo.rb.popped(),
                start == old(self).rx_fifo.rb@,
                self.rx_fifo.rb@.len() == start.len() + nbytes,
                self.rx_fifo.rb@.len() <= self.rx_fifo.rb.spec_capacity(),
                self.rx_fifo.rb@.subrange(0, start.len() as int) == start,
            decreases self.rx_fifo.rb.spec_capacity() - self.rx_fifo.rb@.len(),
        {
            match self.uart_ops.read_ready() {
                Ok(true) => {},
                Ok(false) => {
                    break ;
                },
                Err(e) => {
                    return Err(e);
                },
            }
            let room = self.rx_fifo.rb.free_contiguous();
            proof {
                self.rx_fifo.rb.lemma_conservation();
            }
            let mut buf: Vec<u8> = Vec::new();
            let mut i: usize = 0;
            while i < room
                invariant
                    i <= room,
                    buf@.len() == i,
                decreases room - i,
            {
                buf.push(0);
                i += 1;
            }
            let ghost before = self.rx_fifo.rb@;
            let answer = self.uart_ops.read(buf.as_mut_slice());
            match self.take_received(buf.as_slice(), answer) {
                Ok(stored) => {
                    if stored == 0 {
                        break ;
                    }
                    nbytes = nbytes + stored;
                    proof {
                        assert(self.rx_fifo.rb@.subrange(0, start.len() as int) =~= before.subrange(
                            0,
                            start.len() as int,
                        ));
                        self.rx_fifo.rb.lemma_conservation();
                    }
                },
                Err(e) => {
                    return Err(e);
                },
            }
        }
        if nbytes > 0 {
            self.rx_fifo.futex.wake();
        }
        Ok(nbytes)
    }

    /// Number of bytes that wait in the receive ring.
    pub fn rx_available(&self) -> (r: usize)
        ensures
            r == self.rx().rb@.len(),
    {
        self.rx_fifo.rb.len()
    }

    /// Number of bytes that wait in the transmit ring.
    pub fn tx_pending(&self) -> (r: usize)
        ensures
            r == self.tx().rb@.len(),
    {
        self.tx_fifo.rb.len()
    }

    /// The value of the receive futex.
    pub fn rx_futex_word(&self) -> (r: usize)
        ensures
            r == self.rx().futex.spec_word(),
    {
        self.rx_fifo.futex.word()
    }

    /// The value of the transmit futex.
    pub fn tx_futex_word(&self) -> (r: usize)
        ensures
            r == self.tx().futex.spec_word(),
    {
        self.tx_fifo.futex.word()
    }

    /// Takes the wake-ups of readers that are pending, for delivery.
    pub fn take_rx_wakes(&mut self) -> (n: usize)
        ensures
            n == old(self).rx().futex.spec_wakes(),
            final(self).rx().futex.spec_wakes() == 0,
            final(self).rx().futex.spec_word() == old(self).rx().futex.spec_word(),
            final(self).rx().rb == old(self).rx().rb,
            final(self).tx_untouched(old(self)),
    {
        self.rx_fifo.futex.take_wakes()
    }

    /// Takes the wake-ups of writers that are pending, for delivery.
    pub fn take_tx_wakes(&mut self) -> (n: usize)
        ensures
            n == old(self).tx().futex.spec_wakes(),
            final(self).tx().futex.spec_wakes() == 0,
            final(self).tx().futex.spec_word() == old(self).tx().futex.spec_word(),
            final(self).tx().rb == old(self).tx().rb,
            final(self).rx_untouched(old(self)),
            final(self).tx_irq() == old(self).tx_irq(),
    {
        self.tx_fifo.futex.take_wakes()
    }

    /// Tells whether the receive interrupt was last asked to be enabled.
    pub fn rx_interrupt_enabled(&self) -> (r: bool)
        ensures
            r == self.rx_irq(),
    {
        self.rx_irq
    }

    /// Tells whether the transmit interrupt was last asked to be enabled.
    pub fn tx_interrupt_enabled(&self) -> (r: bool)
        ensures
            r == self.tx_irq(),
    {
        self.tx_irq
    }

    /// The name of the device: `ttyS` and its index.
    pub fn name(&self) -> (r: String)
        ensures
            r@ == tty_name(self.spec_index()),
    {
        let digits = decimal_string(self.index);
        "ttyS".to_owned().concat(digits.as_str())
    }

    /// The class of the device.
    pub fn class(&self) -> (r: DeviceClass)
        ensures
            r == DeviceClass::Char,
    {
        DeviceClass::Char
    }

    /// The id of the device: major 4, minor 64 and its index.
    pub fn id(&self) -> (r: DeviceId)
        requires
            64 + self.spec_index() <= usize::MAX,
        ensures
            r.spec_major() == 4,
            r.spec_minor() == 64 + self.spec_index(),
    {
        DeviceId::new(4, 64 + self.index as usize)
    }

    /// What the first holder does with the answer of the driver to the
    /// setup. Where the driver has set the UART up, the receive interrupt
    /// is turned on and the holder is counted. Where the driver has
    /// refused, the device stays closed, and the error is reported by its
    /// kind.
    pub fn opened_first(&mut self, setup: Result<(), SerialError>) -> (r: Result<(), ErrorKind>)
        requires
            old(self).spec_open_count() == 0,
        ensures
            r == reported(setup),
            final(self).rx() == old(self).rx(),
            final(self).tx() == old(self).tx(),
            final(self).spec_index() == old(self).spec_index(),
            final(self).spec_termios() == old(self).spec_termios(),
            final(self).tx_irq() == old(self).tx_irq(),
            final(self).spec_open_count() == if setup is Ok {
                1u32
            } else {
                0u32
            },
            final(self).rx_irq() == (setup is Ok || old(self).rx_irq()),
    {
        match setup {
            Ok(_) => {
                self.uart_ops.set_rx_interrupt(true);
                self.rx_irq = true;
                // Update device state
                let _ = self.inc_open_count();
                Ok(())
            },
            Err(e) => Err(e.kind()),
        }
    }

    /// Opens the device. The first holder sets the UART up and turns the
    /// receive interrupt on; where the driver refuses the setup, the device
    /// stays closed and the error is returned by its kind.
    pub fn open(&mut self) -> (r: Result<(), ErrorKind>)
        requires
            old(self).spec_open_count() < u32::MAX,
        ensures
            exists|answer: Result<(), SerialError>| r == #[trigger] reported(answer),
            final(self).rx() == old(self).rx(),
            final(self).tx() == old(self).tx(),
            final(self).spec_index() == old(self).spec_index(),
            final(self).spec_termios() == old(self).spec_termios(),
            final(self).tx_irq() == old(self).tx_irq(),
            match r {
                Ok(_) => {
                    &&& final(self).spec_open_count() == old(self).spec_open_count() + 1
                    &&& final(self).rx_irq() == (old(self).spec_open_count() == 0 || old(self).rx_irq())
                },
                Err(_) => {
                    &&& old(self).spec_open_count() == 0
                    &&& final(self).spec_open_count() == 0
                    &&& final(self).rx_irq() == old(self).rx_irq()
                },
            },
    {
        if !self.is_opened() {
            let answer = self.uart_ops.setup(&self.termios);
            let r = self.opened_first(answer);
            proof {
                assert(r == reported(answer));
            }
            return r;
        }
        // Update device state
        let _ = self.inc_open_count();
        proof {
            assert(Ok::<(), ErrorKind>(()) == reported(Ok(())));
        }
        Ok(())
    }

    /// Closes the device. The last holder wakes the waiters, turns both
    /// interrupts off, sends what is left in the transmit ring and tells
    /// the driver that the device was closed. Closing a device that is not
    /// open is an error.
    pub fn close(&mut self) -> (r: Result<(), ErrorKind>)
        requires
            old(self).wf(),
        ensures
            final(self).wf(),
            final(self).spec_index() == old(self).spec_index(),
            final(self).spec_termios() == old(self).spec_termios(),
            final(self).rx().rb == old(self).rx().rb,
            final(self).tx().rb.pushed() == old(self).tx().rb.pushed(),
            old(self).spec_open_count() == 0 ==> r == Err::<(), ErrorKind>(ErrorKind::NotFound)
                && final(self).spec_open_count() == 0 && final(self).tx() == old(self).tx()
                && final(self).rx() == old(self).rx(),
            old(self).spec_open_count() > 0 ==> final(self).spec_open_count() == old(
                self,
            ).spec_open_count() - 1,
            old(self).spec_open_count() > 1 ==> r is Ok && final(self).tx() == old(self).tx()
                && final(self).rx() == old(self).rx() && final(self).rx_irq() == old(self).rx_irq()
                && final(self).tx_irq() == old(self).tx_irq(),
            old(self).spec_open_count() == 1 ==> {
                &&& final(self).closed_from(old(self))
                &&& exists|answer: Result<(), SerialError>| r == #[trigger] reported(answer)
                &&& r is Ok ==> final(self).tx().futex.spec_wakes() == if final(self).tx().rb@.len() < old(
                    self,
                ).tx().rb@.len() {
                    one_more(one_more(old(self).tx().futex.spec_wakes()))
                } else {
                    one_more(old(self).tx().futex.spec_wakes())
                }
            },
    {
        if !self.is_opened() {
            return Err(ErrorKind::NotFound);
        }
        if self.dec_open_count() == 0 {
            match self.rx_disable() {
                Ok(_) => {},
                Err(e) => {
                    proof {
                        assert(Err::<(), ErrorKind>(kind_of(e)) == reported(Err(e)));
                    }
                    return Err(e.kind());
                },
            }
            match self.tx_disable() {
                Ok(_) => {},
                Err(e) => {
                    proof {
                        assert(Err::<(), ErrorKind>(kind_of(e)) == reported(Err(e)));
                    }
                    return Err(e.kind());
                },
            }
            let answer = self.uart_ops.ioctl(DEVICE_REQUEST_CLOSE, 0);
            let r = device_result(answer);
            proof {
                assert(r == reported(answer));
            }
            return r;
        }
        Ok(())
    }

    /// One pass of reading from the device; see [`Self::fifo_rx`].
    pub fn read(&mut self, _pos: u64, buf: &mut [u8], is_nonblocking: bool) -> (r: IoStep)
        requires
            old(self).wf(),
        ensures
            final(self).wf(),
            final(self).tx_untouched(old(self)),
            final(self).rx().futex == old(self).rx().futex,
            final(self).rx().rb.pushed() == old(self).rx().rb.pushed(),
            final(self).rx().rb.spec_capacity() == old(self).rx().rb.spec_capacity(),
            final(buf)@.len() == old(buf)@.len(),
            ({
                let n = if old(buf)@.len() <= old(self).rx().rb@.len() {
                    old(buf)@.len()
                } else {
                    old(self).rx().rb@.len()
                };
                &&& r == if !is_nonblocking && n == 0 {
                    IoStep::Wait(0)
                } else {
                    IoStep::Done(n as usize)
                }
                &&& final(buf)@.subrange(0, n as int) == old(self).rx().rb@.subrange(0, n as int)
                &&& final(self).rx().rb@ == old(self).rx().rb@.subrange(
                    n as int,
                    old(self).rx().rb@.len() as int,
                )
                &&& forall|i: int| n <= i < old(buf)@.len() ==> final(buf)@[i] == old(buf)@[i]
            }),
    {
        self.fifo_rx(buf, is_nonblocking)
    }

    /// One pass of writing to the device, outside of interrupt context;
    /// see [`Self::fifo_tx`].
    pub fn write(&mut self, _pos: u64, buf: &[u8], done: usize, is_nonblocking: bool) -> (r: IoStep)
        requires
            old(self).wf(),
            done <= buf@.len(),
        ensures
            final(self).wf(),
            final(self).rx_untouched(old(self)),
            final(self).tx().rb.spec_capacity() == old(self).tx().rb.spec_capacity(),
            final(self).tx().futex.spec_word() == old(self).tx().futex.spec_word(),
            ({
                let room = old(self).tx().rb.spec_capacity() - old(self).tx().rb@.len();
                let n = if buf@.len() - done <= room {
                    buf@.len() - done
                } else {
                    room
                };
                let count = (done + n) as usize;
                &&& final(self).tx().rb.pushed() == old(self).tx().rb.pushed() + buf@.subrange(
                    done as int,
                    done + n,
                )
                &&& r == if !is_nonblocking {
                    if final(self).tx().rb@.len() > 0 {
                        IoStep::Wait(count)
                    } else if count >= buf@.len() {
                        IoStep::Done(count)
                    } else {
                        IoStep::Again(count)
                    }
                } else {
                    IoStep::Done(count)
                }
                &&& final(self).tx_after_pass(old(self), buf@.subrange(done as int, done + n), false)
            }),
    {
        self.fifo_tx(buf, done, is_nonblocking, false)
    }

    /// Hands a request to the driver and reports what the driver answers,
    /// an error by its kind. The rings, the futexes and the count of holders
    /// stay as they are.
    pub fn ioctl(&mut self, request: u32, arg: usize) -> (r: Result<(), ErrorKind>)
        ensures
            exists|answer: Result<(), SerialError>| r == #[trigger] reported(answer),
            final(self).rx() == old(self).rx(),
            final(self).tx() == old(self).tx(),
            final(self).spec_open_count() == old(self).spec_open_count(),
            final(self).spec_index() == old(self).spec_index(),
            final(self).spec_termios() == old(self).spec_termios(),
    {
        let answer = self.uart_ops.ioctl(request, arg);
        let r = device_result(answer);
        proof {
            assert(r == reported(answer));
        }
        r
    }
}

} // verus!
