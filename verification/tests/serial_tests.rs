use blueos_core::device::{DeviceClass, ErrorKind};
use blueos_core::ringbuffer::RingBuffer;
use blueos_core::serial::{
    decimal_string, device_result, Futex, IoStep, Serial, SerialError, SerialFifo, Termios, UartOps,
};

/// A driver whose transmit side feeds its receive side.
struct Echo {
    wire: Vec<u8>,
    setups: usize,
    closes: usize,
    rx_interrupt: bool,
    tx_interrupt: bool,
    chunk: usize,
    fail_setup: bool,
    fail_write: Option<SerialError>,
    write_ready: bool,
}

impl Echo {
    fn new() -> Self {
        Echo {
            wire: Vec::new(),
            setups: 0,
            closes: 0,
            rx_interrupt: false,
            tx_interrupt: false,
            chunk: usize::MAX,
            fail_setup: false,
            fail_write: None,
            write_ready: true,
        }
    }
}

impl UartOps for Echo {
    fn setup(&mut self, _termios: &Termios) -> Result<(), SerialError> {
        if self.fail_setup {
            return Err(SerialError::InvalidParameter);
        }
        self.setups += 1;
        Ok(())
    }

    fn shutdown(&mut self) -> Result<(), SerialError> {
        Ok(())
    }

    fn read_byte(&mut self) -> Result<u8, SerialError> {
        if self.wire.is_empty() {
            Err(SerialError::BufferEmpty)
        } else {
            Ok(self.wire.remove(0))
        }
    }

    fn write_byte(&mut self, byte: u8) -> Result<(), SerialError> {
        self.wire.push(byte);
        Ok(())
    }

    fn write_str(&mut self, s: &str) -> Result<(), SerialError> {
        self.wire.extend_from_slice(s.as_bytes());
        Ok(())
    }

    fn ioctl(&mut self, request: u32, _arg: usize) -> Result<(), SerialError> {
        if request == blueos_core::device::DEVICE_REQUEST_CLOSE {
            self.closes += 1;
            Ok(())
        } else {
            Err(SerialError::DeviceError)
        }
    }

    fn set_rx_interrupt(&mut self, enable: bool) {
        self.rx_interrupt = enable;
    }

    fn set_tx_interrupt(&mut self, enable: bool) {
        self.tx_interrupt = enable;
    }

    fn clear_rx_interrupt(&mut self) {}

    fn clear_tx_interrupt(&mut self) {}

    fn read(&mut self, buf: &mut [u8]) -> Result<usize, SerialError> {
        let n = buf.len().min(self.wire.len()).min(self.chunk);
        for (i, byte) in self.wire.drain(..n).enumerate() {
            buf[i] = byte;
        }
        Ok(n)
    }

    fn write(&mut self, buf: &[u8]) -> Result<usize, SerialError> {
        if let Some(e) = self.fail_write {
            return Err(e);
        }
        let n = buf.len().min(self.chunk);
        self.wire.extend_from_slice(&buf[..n]);
        Ok(n)
    }

    fn read_ready(&mut self) -> Result<bool, SerialError> {
        Ok(!self.wire.is_empty())
    }

    fn write_ready(&mut self) -> Result<bool, SerialError> {
        Ok(self.write_ready)
    }
}

fn termios() -> Termios {
    Termios { iflag: 0, oflag: 0, cflag: 0, lflag: 0, ispeed: 115200, ospeed: 115200 }
}

#[test]
fn serial_echo_returns_the_bytes_in_order() {
    let mut serial = Serial::new(0, termios(), Echo::new());
    assert_eq!(serial.open(), Ok(()));
    let data: Vec<u8> = (0..=255u8).collect();
    assert_eq!(serial.write(0, &data, 0, true), IoStep::Done(256));
    // the bytes went to the driver, which holds them until they are
    // received
    assert_eq!(serial.tx_pending(), 0);
    assert_eq!(serial.uart_ops.wire, data);
    assert_eq!(serial.recvchars(), Ok(256));
    assert_eq!(serial.rx_available(), 256);
    let mut out = [0u8; 256];
    assert_eq!(serial.read(0, &mut out, false), IoStep::Done(256));
    assert_eq!(out.to_vec(), data);
    assert_eq!(serial.rx_available(), 0);
    assert_eq!(serial.take_rx_wakes(), 1);
    assert_eq!(serial.take_tx_wakes(), 1);
}

#[test]
fn serial_blocking_read_on_an_idle_line_waits_and_times_out() {
    let mut serial = Serial::new(0, termios(), Echo::new());
    assert_eq!(serial.open(), Ok(()));
    let mut out = [7u8; 16];
    assert_eq!(serial.read(0, &mut out, false), IoStep::Wait(0));
    // the wait times out: no byte was transferred
    assert_eq!(Serial::<Echo>::timed_out(0), Err(SerialError::TimedOut));
    assert_eq!(serial.rx_available(), 0);
    assert_eq!(serial.rx_futex_word(), 0);
    assert_eq!(serial.take_rx_wakes(), 0);
    assert_eq!(out, [7u8; 16]);
    // a reader that does not block is done with no byte
    assert_eq!(serial.read(0, &mut out, true), IoStep::Done(0));
    // bytes that were transferred before the wait are reported
    assert_eq!(Serial::<Echo>::timed_out(5), Ok(5));
}

#[test]
fn serial_read_takes_what_the_ring_holds() {
    let mut serial = Serial::new(3, termios(), Echo::new());
    serial.uart_ops.wire = vec![1, 2, 3, 4, 5];
    assert_eq!(serial.recvchars(), Ok(5));
    assert_eq!(serial.recvchars(), Ok(0));
    let mut out = [0u8; 3];
    assert_eq!(serial.fifo_rx(&mut out, false), IoStep::Done(3));
    assert_eq!(out, [1, 2, 3]);
    let mut out = [9u8; 4];
    assert_eq!(serial.fifo_rx(&mut out, true), IoStep::Done(2));
    assert_eq!(out, [4, 5, 9, 9]);
    assert_eq!(serial.take_rx_wakes(), 1);
}

#[test]
fn serial_receive_stops_when_the_ring_is_full() {
    let mut serial = Serial::new(0, termios(), Echo::new());
    serial.uart_ops.wire = (0..600).map(|i| (i % 251) as u8).collect();
    serial.uart_ops.chunk = 100;
    assert_eq!(serial.recvchars(), Ok(512));
    assert_eq!(serial.rx_available(), 512);
    assert_eq!(serial.uart_ops.wire.len(), 88);
    assert_eq!(serial.recvchars(), Ok(0));
    let mut out = vec![0u8; 512];
    assert_eq!(serial.fifo_rx(&mut out, true), IoStep::Done(512));
    let expected: Vec<u8> = (0..512).map(|i| (i % 251) as u8).collect();
    assert_eq!(out, expected);
    assert_eq!(serial.recvchars(), Ok(88));
}

#[test]
fn serial_write_fills_the_ring_while_the_driver_is_busy() {
    let mut serial = Serial::new(0, termios(), Echo::new());
    serial.uart_ops.write_ready = false;
    let data: Vec<u8> = (0..700).map(|i| (i % 256) as u8).collect();
    // a writer that does not block gets rid of what the ring takes
    assert_eq!(serial.fifo_tx(&data, 0, true, false), IoStep::Done(512));
    assert_eq!(serial.tx_pending(), 512);
    assert!(serial.tx_interrupt_enabled());
    assert!(serial.uart_ops.tx_interrupt);
    assert_eq!(serial.fifo_tx(&data, 512, true, false), IoStep::Done(512));
    // a writer that blocks waits for the driver
    assert_eq!(serial.fifo_tx(&data, 512, false, false), IoStep::Wait(512));
    // the driver takes bytes in pieces, in the interrupt handler
    serial.uart_ops.write_ready = true;
    serial.uart_ops.chunk = 200;
    assert_eq!(serial.xmitchars(), Ok(512));
    assert_eq!(serial.tx_pending(), 0);
    assert!(!serial.tx_interrupt_enabled());
    assert_eq!(serial.take_tx_wakes(), 1);
    serial.tx_woken();
    assert_eq!(serial.fifo_tx(&data, 512, false, false), IoStep::Done(700));
    assert_eq!(serial.uart_ops.wire, data);
    assert_eq!(serial.xmitchars(), Ok(0));
    assert_eq!(serial.take_tx_wakes(), 1);
}

#[test]
fn serial_write_in_interrupt_context_leaves_the_bytes_in_the_ring() {
    let mut serial = Serial::new(0, termios(), Echo::new());
    assert_eq!(serial.fifo_tx(&[1, 2, 3], 0, false, true), IoStep::Done(3));
    assert_eq!(serial.tx_pending(), 3);
    assert!(serial.uart_ops.wire.is_empty());
    assert_eq!(serial.fifo_tx(&[], 0, false, false), IoStep::Wait(0));
    assert_eq!(serial.xmitchars(), Ok(3));
    assert_eq!(serial.fifo_tx(&[], 0, false, false), IoStep::Done(0));
    assert_eq!(serial.fifo_tx(&[4], 0, false, false), IoStep::Done(1));
}

#[test]
fn serial_driver_errors_are_returned() {
    let mut serial = Serial::new(0, termios(), Echo::new());
    serial.uart_ops.fail_write = Some(SerialError::Overrun);
    assert_eq!(serial.fifo_tx(&[1, 2, 3], 0, true, true), IoStep::Done(3));
    assert_eq!(serial.xmitchars(), Err(SerialError::Overrun));
    assert_eq!(serial.tx_pending(), 3);
    assert_eq!(serial.take_tx_wakes(), 0);
    assert_eq!(serial.ioctl(77, 0), Err(ErrorKind::Other));
    assert_eq!(serial.ioctl(blueos_core::device::DEVICE_REQUEST_CLOSE, 0), Ok(()));
}

#[test]
fn serial_open_and_close_count_the_holders() {
    let mut serial = Serial::new(1, termios(), Echo::new());
    assert!(!serial.is_opened());
    assert_eq!(serial.close(), Err(ErrorKind::NotFound));
    assert_eq!(serial.open(), Ok(()));
    assert!(serial.is_opened());
    assert!(serial.rx_interrupt_enabled());
    assert!(serial.uart_ops.rx_interrupt);
    assert_eq!(serial.uart_ops.setups, 1);
    assert_eq!(serial.open(), Ok(()));
    assert_eq!(serial.uart_ops.setups, 1);
    assert_eq!(serial.open_count(), 2);
    assert_eq!(serial.close(), Ok(()));
    assert_eq!(serial.uart_ops.closes, 0);
    assert!(serial.rx_interrupt_enabled());
    // bytes that wait are sent when the last holder closes
    assert_eq!(serial.fifo_tx(&[5, 6], 0, true, true), IoStep::Done(2));
    assert_eq!(serial.close(), Ok(()));
    assert!(!serial.is_opened());
    assert_eq!(serial.uart_ops.closes, 1);
    assert!(!serial.rx_interrupt_enabled());
    assert!(!serial.tx_interrupt_enabled());
    assert!(!serial.uart_ops.rx_interrupt);
    assert_eq!(serial.uart_ops.wire, vec![5, 6]);
    assert_eq!(serial.take_rx_wakes(), 1);
    assert_eq!(serial.take_tx_wakes(), 2);
    assert_eq!(serial.close(), Err(ErrorKind::NotFound));
}

#[test]
fn serial_open_fails_where_the_setup_fails() {
    let mut serial = Serial::new(1, termios(), Echo::new());
    serial.uart_ops.fail_setup = true;
    assert_eq!(serial.open(), Err(ErrorKind::InvalidInput));
    assert!(!serial.is_opened());
    assert!(!serial.rx_interrupt_enabled());
}

#[test]
fn serial_device_identity() {
    let serial = Serial::new(0, termios(), Echo::new());
    assert_eq!(serial.name(), "ttyS0");
    assert_eq!(serial.class(), DeviceClass::Char);
    assert_eq!(serial.id().major(), 4);
    assert_eq!(serial.id().minor(), 64);
    let serial = Serial::new(12, termios(), Echo::new());
    assert_eq!(serial.name(), "ttyS12");
    assert_eq!(serial.id().minor(), 76);
    assert_eq!(serial.termios, termios());
    let serial = Serial::new(4294967295, termios(), Echo::new());
    assert_eq!(serial.name(), "ttyS4294967295");
}

#[test]
fn serial_error_kinds() {
    assert_eq!(SerialError::Break.kind(), ErrorKind::Other);
    assert_eq!(SerialError::Overrun.kind(), ErrorKind::Other);
    assert_eq!(SerialError::Framing.kind(), ErrorKind::InvalidData);
    assert_eq!(SerialError::Parity.kind(), ErrorKind::InvalidData);
    assert_eq!(SerialError::BufferEmpty.kind(), ErrorKind::InvalidInput);
    assert_eq!(SerialError::InvalidParameter.kind(), ErrorKind::InvalidInput);
    assert_eq!(SerialError::DeviceError.kind(), ErrorKind::Other);
    assert_eq!(SerialError::TimedOut.kind(), ErrorKind::TimedOut);
}

#[test]
fn futex_counts_wake_ups() {
    let mut f = Futex::new();
    assert_eq!(f.word(), 0);
    f.wake();
    f.wake();
    assert_eq!(f.word(), 0);
    assert_eq!(f.take_wakes(), 2);
    assert_eq!(f.take_wakes(), 0);
    let fifo = SerialFifo::new(8);
    assert_eq!(fifo.rb.capacity(), 8);
    assert_eq!(fifo.futex.word(), 0);
}

#[test]
fn ring_buffer_is_first_in_first_out() {
    let mut rb = RingBuffer::new(4);
    assert!(rb.is_empty());
    assert!(!rb.is_full());
    assert_eq!(rb.capacity(), 4);
    assert_eq!(rb.pop(), None);
    assert!(rb.push(1));
    assert!(rb.push(2));
    assert!(rb.push(3));
    assert_eq!(rb.pop(), Some(1));
    assert!(rb.push(4));
    assert!(rb.push(5));
    assert!(rb.is_full());
    assert!(!rb.push(6));
    assert_eq!(rb.len(), 4);
    // the bytes wrap around the end of the array
    assert_eq!(rb.peek_contiguous(), vec![2, 3, 4]);
    assert_eq!(rb.free_contiguous(), 0);
    rb.pop_done(3);
    assert_eq!(rb.peek_contiguous(), vec![5]);
    assert_eq!(rb.free_contiguous(), 3);
    assert_eq!(rb.pop(), Some(5));
    assert_eq!(rb.pop(), None);
    assert_eq!(rb.peek_contiguous(), Vec::<u8>::new());
}

#[test]
fn ring_buffer_slices() {
    let mut rb = RingBuffer::new(8);
    assert_eq!(rb.push_slice(&[1, 2, 3, 4, 5], 1), 4);
    assert_eq!(rb.len(), 4);
    assert_eq!(rb.push_slice(&[6, 7, 8, 9, 10, 11], 0), 4);
    assert!(rb.is_full());
    assert_eq!(rb.push_slice(&[12], 0), 0);
    assert_eq!(rb.push_slice(&[12], 1), 0);
    let mut out = [0u8; 5];
    assert_eq!(rb.pop_slice(&mut out, 2), 3);
    assert_eq!(out, [0, 0, 2, 3, 4]);
    let mut out = [0u8; 16];
    assert_eq!(rb.pop_slice(&mut out, 0), 5);
    assert_eq!(&out[..5], &[5, 6, 7, 8, 9]);
    assert_eq!(rb.pop_slice(&mut out, 0), 0);
    assert_eq!(rb.pop_slice(&mut out, 16), 0);
    assert!(rb.is_empty());
}

#[test]
fn serial_write_of_more_than_the_ring_holds_goes_on_at_once() {
    let mut serial = Serial::new(0, termios(), Echo::new());
    let data: Vec<u8> = (0..700).map(|i| (i % 256) as u8).collect();
    // the driver takes all that the ring held: the writer makes another
    // pass without a wait
    assert_eq!(serial.fifo_tx(&data, 0, false, false), IoStep::Again(512));
    assert_eq!(serial.fifo_tx(&data, 512, false, false), IoStep::Done(700));
    assert_eq!(serial.uart_ops.wire, data);
    assert_eq!(serial.tx_futex_word(), 0);
}

#[test]
fn driver_answers_are_reported_by_their_kind() {
    assert_eq!(device_result(Ok(())), Ok(()));
    assert_eq!(device_result(Err(SerialError::Parity)), Err(ErrorKind::InvalidData));
    assert_eq!(device_result(Err(SerialError::Framing)), Err(ErrorKind::InvalidData));
    assert_eq!(device_result(Err(SerialError::Overrun)), Err(ErrorKind::Other));
    assert_eq!(device_result(Err(SerialError::Break)), Err(ErrorKind::Other));
    assert_eq!(device_result(Err(SerialError::DeviceError)), Err(ErrorKind::Other));
    assert_eq!(device_result(Err(SerialError::BufferEmpty)), Err(ErrorKind::InvalidInput));
    assert_eq!(device_result(Err(SerialError::InvalidParameter)), Err(ErrorKind::InvalidInput));
    assert_eq!(device_result(Err(SerialError::TimedOut)), Err(ErrorKind::TimedOut));
}

#[test]
fn received_bytes_go_into_the_ring_as_far_as_they_were_given_and_fit() {
    let mut serial = Serial::new(0, termios(), Echo::new());
    // the driver gave three of the four bytes of the buffer
    assert_eq!(serial.store_received(&[1, 2, 3, 4], 3), 3);
    assert_eq!(serial.rx_available(), 3);
    // a count beyond the buffer is cut to the buffer
    assert_eq!(serial.store_received(&[7, 8], 5), 2);
    assert_eq!(serial.store_received(&[9], 0), 0);
    let mut out = [0u8; 8];
    assert_eq!(serial.fifo_rx(&mut out, true), IoStep::Done(5));
    assert_eq!(out, [1, 2, 3, 7, 8, 0, 0, 0]);
    // the ring takes no more than it has room for
    let many: Vec<u8> = (0..600).map(|i| (i % 199) as u8).collect();
    assert_eq!(serial.store_received(&many, 600), 512);
    assert_eq!(serial.store_received(&[1], 1), 0);
    let mut out = vec![0u8; 600];
    assert_eq!(serial.fifo_rx(&mut out, true), IoStep::Done(512));
    assert_eq!(&out[..512], &many[..512]);
    // storing wakes nobody and leaves the transmit side alone
    assert_eq!(serial.take_rx_wakes(), 0);
    assert_eq!(serial.tx_pending(), 0);
}

#[test]
fn closing_with_a_failing_driver_keeps_the_bytes_and_wakes_the_waiters() {
    let mut serial = Serial::new(0, termios(), Echo::new());
    assert_eq!(serial.open(), Ok(()));
    assert_eq!(serial.fifo_tx(&[1, 2, 3], 0, true, true), IoStep::Done(3));
    assert!(serial.tx_interrupt_enabled());
    serial.uart_ops.fail_write = Some(SerialError::Framing);
    assert_eq!(serial.close(), Err(ErrorKind::InvalidData));
    assert_eq!(serial.open_count(), 0);
    assert_eq!(serial.tx_pending(), 3);
    assert!(!serial.tx_interrupt_enabled());
    assert!(!serial.rx_interrupt_enabled());
    assert_eq!(serial.take_rx_wakes(), 1);
    assert_eq!(serial.take_tx_wakes(), 1);
    assert_eq!(serial.uart_ops.closes, 0);
}

#[test]
fn writing_turns_the_transmit_interrupt_on_while_bytes_wait() {
    let mut serial = Serial::new(0, termios(), Echo::new());
    // in interrupt context the driver is not called: the bytes wait
    assert_eq!(serial.fifo_tx(&[1, 2, 3], 0, true, true), IoStep::Done(3));
    assert!(serial.tx_interrupt_enabled());
    assert_eq!(serial.tx_pending(), 3);
    assert_eq!(serial.take_tx_wakes(), 0);
    // the driver takes all that waits: the interrupt goes off, a writer is woken
    assert_eq!(serial.write(0, &[4, 5], 0, true), IoStep::Done(2));
    assert!(!serial.tx_interrupt_enabled());
    assert_eq!(serial.tx_pending(), 0);
    assert_eq!(serial.uart_ops.wire, vec![1, 2, 3, 4, 5]);
    assert_eq!(serial.take_tx_wakes(), 1);
    // a driver that takes two bytes at a time and then is busy leaves the rest
    serial.uart_ops.wire.clear();
    serial.uart_ops.write_ready = false;
    assert_eq!(serial.write(0, &[6, 7, 8], 0, true), IoStep::Done(3));
    assert!(serial.tx_interrupt_enabled());
    assert_eq!(serial.tx_pending(), 3);
    assert_eq!(serial.take_tx_wakes(), 0);
    // nothing to write changes nothing
    assert_eq!(serial.write(0, &[], 0, true), IoStep::Done(0));
    assert!(serial.tx_interrupt_enabled());
    assert_eq!(serial.tx_pending(), 3);
}

#[test]
fn closing_as_the_last_holder_wakes_both_waiters_and_turns_the_interrupts_off() {
    let mut serial = Serial::new(2, termios(), Echo::new());
    assert_eq!(serial.open(), Ok(()));
    assert_eq!(serial.fifo_tx(&[9, 8, 7], 0, true, true), IoStep::Done(3));
    assert!(serial.tx_interrupt_enabled());
    assert!(serial.rx_interrupt_enabled());
    assert_eq!(serial.close(), Ok(()));
    assert!(!serial.tx_interrupt_enabled());
    assert!(!serial.rx_interrupt_enabled());
    assert!(!serial.uart_ops.tx_interrupt);
    assert!(!serial.uart_ops.rx_interrupt);
    assert_eq!(serial.tx_pending(), 0);
    assert_eq!(serial.uart_ops.wire, vec![9, 8, 7]);
    assert_eq!(serial.uart_ops.closes, 1);
    assert_eq!(serial.rx_futex_word(), 0);
    assert_eq!(serial.tx_futex_word(), 0);
    // the reader is woken once, the writer at the close and once more for the bytes sent
    assert_eq!(serial.take_rx_wakes(), 1);
    assert_eq!(serial.take_tx_wakes(), 2);
    // with nothing to send the writer is woken once
    assert_eq!(serial.open(), Ok(()));
    assert_eq!(serial.close(), Ok(()));
    assert_eq!(serial.take_rx_wakes(), 1);
    assert_eq!(serial.take_tx_wakes(), 1);
    assert_eq!(serial.name(), "ttyS2");
}

#[test]
fn numbers_are_written_in_decimal_digits() {
    assert_eq!(decimal_string(0), "0");
    assert_eq!(decimal_string(7), "7");
    assert_eq!(decimal_string(10), "10");
    assert_eq!(decimal_string(109), "109");
    assert_eq!(decimal_string(65_536), "65536");
    assert_eq!(decimal_string(u32::MAX), "4294967295");
    assert_eq!(Serial::new(0, termios(), Echo::new()).name(), "ttyS0");
    assert_eq!(Serial::new(12, termios(), Echo::new()).name(), "ttyS12");
    assert_eq!(Serial::new(u32::MAX, termios(), Echo::new()).name(), "ttyS4294967295");
}

#[test]
fn the_first_holder_reports_what_the_setup_answered() {
    let mut serial = Serial::new(0, termios(), Echo::new());
    assert_eq!(serial.opened_first(Err(SerialError::Parity)), Err(ErrorKind::InvalidData));
    assert_eq!(serial.open_count(), 0);
    assert!(!serial.rx_interrupt_enabled());
    assert_eq!(serial.opened_first(Err(SerialError::TimedOut)), Err(ErrorKind::TimedOut));
    assert_eq!(serial.opened_first(Err(SerialError::InvalidParameter)), Err(ErrorKind::InvalidInput));
    assert_eq!(serial.opened_first(Ok(())), Ok(()));
    assert_eq!(serial.open_count(), 1);
    assert!(serial.rx_interrupt_enabled());
    assert!(serial.uart_ops.rx_interrupt);
    // through the driver: a refused setup is an invalid input
    let mut serial = Serial::new(0, termios(), Echo::new());
    serial.uart_ops.fail_setup = true;
    assert_eq!(serial.open(), Err(ErrorKind::InvalidInput));
    assert_eq!(serial.open_count(), 0);
}

#[test]
fn answers_of_the_driver_to_bytes_decide_what_leaves_and_enters_the_rings() {
    let mut serial = Serial::new(0, termios(), Echo::new());
    assert_eq!(serial.fifo_tx(&[1, 2, 3], 0, true, true), IoStep::Done(3));
    // the driver took two of the three bytes that were offered
    assert_eq!(serial.take_sent(3, Ok(2)), Ok(2));
    assert_eq!(serial.tx_pending(), 1);
    // an error leaves the ring as it is and is handed on as it is
    assert_eq!(serial.take_sent(1, Err(SerialError::Overrun)), Err(SerialError::Overrun));
    assert_eq!(serial.take_sent(1, Err(SerialError::Break)), Err(SerialError::Break));
    assert_eq!(serial.tx_pending(), 1);
    // a count beyond what was offered is cut to it
    assert_eq!(serial.take_sent(1, Ok(5)), Ok(1));
    assert_eq!(serial.tx_pending(), 0);
    assert_eq!(serial.take_sent(0, Ok(0)), Ok(0));
    assert_eq!(serial.take_tx_wakes(), 0);

    assert_eq!(serial.take_received(&[4, 5, 6], Ok(2)), Ok(2));
    assert_eq!(serial.take_received(&[7], Err(SerialError::Framing)), Err(SerialError::Framing));
    assert_eq!(serial.take_received(&[7], Err(SerialError::DeviceError)), Err(SerialError::DeviceError));
    assert_eq!(serial.rx_available(), 2);
    let mut out = [0u8; 4];
    assert_eq!(serial.fifo_rx(&mut out, true), IoStep::Done(2));
    assert_eq!(out, [4, 5, 0, 0]);
}
