use lib::error::Status;
use lib::ipc::pipe::Pipe;
use lib::ipc::signals::{SignalHandler, SignalOutcome, SignalType, Signals, UserspaceSignalContext};

#[test]
fn pipe_hands_bytes_out_in_order() {
    let mut pipe = Pipe::new();
    pipe.write(b"hello").unwrap();
    pipe.write(b" world").unwrap();
    let mut first = [0u8; 3];
    assert_eq!(pipe.read(&mut first), Ok(3));
    assert_eq!(&first, b"hel");
    let mut rest = [0u8; 20];
    assert_eq!(pipe.read(&mut rest), Ok(8));
    assert_eq!(&rest[0..8], b"lo world");
    assert!(rest[8..].iter().all(|b| *b == 0));
    assert_eq!(pipe.read(&mut rest), Ok(0));
}

#[test]
fn pipe_without_readers_refuses_writes() {
    let mut pipe = Pipe::new();
    pipe.decrement_read();
    assert_eq!(pipe.write(b"x"), Err(Status::NoReaders));
    pipe.increment_read();
    assert_eq!(pipe.write(b"x"), Ok(()));
}

#[test]
fn pipe_without_writers_refuses_reads() {
    let mut pipe = Pipe::new();
    pipe.write(b"abc").unwrap();
    pipe.increment_write();
    pipe.decrement_write();
    pipe.decrement_write();
    let mut buffer = [9u8; 2];
    assert_eq!(pipe.read(&mut buffer), Err(Status::NoWriters));
    assert_eq!(buffer, [9, 9]);
    pipe.increment_write();
    assert_eq!(pipe.read(&mut buffer), Ok(2));
    assert_eq!(&buffer, b"ab");
}

fn context() -> UserspaceSignalContext {
    UserspaceSignalContext {
        r15: 15, r14: 14, r13: 13, r12: 12, r11: 11, r10: 10, r9: 9, r8: 8, rbp: 7, rdi: 6,
        rsi: 5, rdx: 4, rcx: 3, rbx: 2, rax: 1, rflags: 0x202, rip: 0x4000,
    }
}

#[test]
fn signal_numbers() {
    assert_eq!(SignalType::Kill.number(), 0);
    assert_eq!(SignalType::Terminate.number(), 1);
    assert_eq!(SignalType::Abort.number(), 2);
    assert_eq!(SignalType::Interrupt.number(), 3);
    assert_eq!(SignalType::Alarm.number(), 4);
}

#[test]
fn handler_from_number() {
    assert_eq!(SignalHandler::from(0), Some(SignalHandler::Terminate));
    assert_eq!(SignalHandler::from(1), Some(SignalHandler::Ignore));
    assert_eq!(SignalHandler::from(2), Some(SignalHandler::Userspace));
    assert_eq!(SignalHandler::from(3), None);
}

#[test]
fn nothing_pending_continues() {
    let mut signals = Signals::new();
    assert!(matches!(signals.handle(None), SignalOutcome::Continue));
}

#[test]
fn default_terminating_signal_exits() {
    let mut signals = Signals::new();
    signals.raise(SignalType::Interrupt.number());
    assert!(matches!(signals.handle(None), SignalOutcome::Exit(131)));
    // The signal was cleared.
    assert!(matches!(signals.handle(None), SignalOutcome::Continue));
}

#[test]
fn ignored_signal_is_cleared_quietly() {
    let mut signals = Signals::new();
    signals.raise(SignalType::Alarm.number());
    signals.raise(200);
    assert!(matches!(signals.handle(None), SignalOutcome::Continue));
    signals.set_handler(200, SignalHandler::Terminate);
    assert!(matches!(signals.handle(None), SignalOutcome::Continue));
}

#[test]
fn lowest_acting_signal_goes_first() {
    let mut signals = Signals::new();
    signals.raise(3);
    signals.raise(1);
    assert!(matches!(signals.handle(None), SignalOutcome::Exit(129)));
    assert!(matches!(signals.handle(None), SignalOutcome::Exit(131)));
}

#[test]
fn masked_signal_is_not_raised_but_kill_cannot_be_masked() {
    let mut signals = Signals::new();
    signals.mask(1, true);
    signals.raise(1);
    assert!(matches!(signals.handle(None), SignalOutcome::Continue));
    signals.mask(0, true);
    signals.raise(0);
    assert!(matches!(signals.handle(None), SignalOutcome::Exit(128)));
}

#[test]
fn userspace_signal_is_delivered_with_context() {
    let mut signals = Signals::new();
    signals.set_userspace_handler(0xdead);
    signals.set_handler(10, SignalHandler::Userspace);
    signals.raise(10);
    // Without a userspace context it stays pending.
    assert!(matches!(signals.handle(None), SignalOutcome::Continue));
    match signals.handle(Some((context(), 0x7000))) {
        SignalOutcome::Deliver { context, stack, handler } => {
            assert_eq!(context.rip, 0x4000);
            assert_eq!(context.rax, 1);
            assert_eq!(stack, 0x7000);
            assert_eq!(handler, 0xdead);
        },
        _ => panic!("the signal should have been delivered"),
    }
    assert!(matches!(signals.handle(Some((context(), 0x7000))), SignalOutcome::Continue));
}

#[test]
fn pending_signals_are_handled_lowest_first() {
    let mut signals = Signals::new();
    signals.raise(4);
    signals.raise(2);
    signals.raise(1);
    assert!(matches!(signals.handle(None), SignalOutcome::Exit(129)));
    assert!(matches!(signals.handle(None), SignalOutcome::Exit(130)));
    assert!(matches!(signals.handle(None), SignalOutcome::Continue));
}
