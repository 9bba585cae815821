use blueos_core::arch::{
    classify_exception, Context, Exception, IrqNumber, Systick, Uart, BREAKPOINT, DEBUG,
    DIVIDE_ERROR, GENERAL_PROTECTION_FAULT, INITIAL_RFLAGS, PAGE_FAULT,
};

#[test]
fn irq_number_keeps_its_number() {
    let irq = IrqNumber::new(4);
    assert_eq!(irq.as_u32(), 4);
    assert_eq!(irq, IrqNumber::new(4));
    assert_ne!(irq, IrqNumber::new(5));
}

#[test]
fn context_setters_set_one_register() {
    let mut c = Context::zeroed();
    c.init().set_return_address(0x4000).set_return_value(7);
    assert_eq!(c.rflags, INITIAL_RFLAGS);
    assert_eq!(c.rflags, 0x202);
    assert_eq!(c.rip, 0x4000);
    assert_eq!(c.rax, 7);
    for i in 0..8 {
        c.set_arg(i, 100 + i);
    }
    assert_eq!((c.rdi, c.rsi, c.rdx, c.rcx, c.r8, c.r9), (100, 101, 102, 103, 104, 105));
    let mut expected = Context::zeroed();
    expected.rflags = 0x202;
    expected.rip = 0x4000;
    expected.rax = 7;
    expected.rdi = 100;
    expected.rsi = 101;
    expected.rdx = 102;
    expected.rcx = 103;
    expected.r8 = 104;
    expected.r9 = 105;
    assert_eq!(c, expected);
}

#[test]
fn exceptions_are_told_apart_by_their_vector() {
    assert_eq!(classify_exception(DIVIDE_ERROR, None), Exception::DivideError);
    assert_eq!(classify_exception(DEBUG, Some(1)), Exception::Debug);
    assert_eq!(classify_exception(BREAKPOINT, None), Exception::Breakpoint);
    assert_eq!(
        classify_exception(GENERAL_PROTECTION_FAULT, Some(8)),
        Exception::GeneralProtectionFault(Some(8))
    );
    assert_eq!(classify_exception(PAGE_FAULT, Some(2)), Exception::PageFault(Some(2)));
    assert_eq!(classify_exception(2, None), Exception::Unhandled(2, None));
    assert_eq!(classify_exception(255, Some(9)), Exception::Unhandled(255, Some(9)));
}

#[test]
fn systick_counts_ticks() {
    let mut tick = Systick::new(IrqNumber::new(30));
    assert_eq!(tick.irq_num(), IrqNumber::new(30));
    assert_eq!(tick.get_tick(), 0);
    assert_eq!(tick.get_step(), 0);
    assert_eq!(tick.increment_ticks(), 1);
    assert_eq!(tick.increment_ticks(), 2);
    assert_eq!(tick.get_tick(), 2);
}

#[test]
fn uart_ports() {
    let uart = Uart::new(0x3f8);
    assert_eq!(uart.data_port(), 0x3f8);
    assert_eq!(uart.status_port(), Some(0x3fd));
    assert_eq!(Uart::new(u64::MAX - 4).status_port(), None);
    assert!(Uart::can_transmit(0x20));
    assert!(Uart::can_transmit(0x61));
    assert!(!Uart::can_transmit(0x41));
    assert!(!Uart::can_transmit(0));
}
