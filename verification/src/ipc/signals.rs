use vstd::prelude::*;

verus! {

/// What is done when a signal is delivered.
#[derive(Clone, Copy, PartialEq, Eq, Structural, Debug)]
pub enum SignalHandler {
    Terminate,
    Ignore,
    Userspace,
}

/// The state of one signal: its handler, whether it is masked and whether it is pending.
#[derive(Clone, Copy)]
pub struct Signal {
    pub handler: SignalHandler,
    pub mask: bool,
    pub pending: bool,
}

/// The signals of a process, numbered 0 to 255, and the userspace entry point that
/// handles those given to userspace.
#[derive(Clone, Copy)]
pub struct Signals {
    signals: [Signal; 256],
    userspace_handler: usize,
}

/// The signals with a fixed meaning.
#[derive(Clone, Copy, PartialEq, Eq, Structural, Debug)]
pub enum SignalType {
    Kill,
    Terminate,
    Abort,
    Interrupt,
    Alarm,
}

/// The registers of a userspace thread, saved on its stack while it runs a signal handler.
#[derive(Clone, Copy)]
pub struct UserspaceSignalContext {
    pub r15: u64,
    pub r14: u64,
    pub r13: u64,
    pub r12: u64,
    pub r11: u64,
    pub r10: u64,
    pub r9: u64,
    pub r8: u64,
    pub rbp: u64,
    pub rdi: u64,
    pub rsi: u64,
    pub rdx: u64,
    pub rcx: u64,
    pub rbx: u64,
    pub rax: u64,
    pub rflags: u64,
    pub rip: u64,
}

/// What handling the pending signals calls for.
pub enum SignalOutcome {
    /// Nothing: go on running.
    Continue,
    /// End the process with this exit status.
    Exit(isize),
    /// Save `context` on the userspace stack at `stack` and enter the userspace handler
    /// `handler`.
    Deliver { context: UserspaceSignalContext, stack: u64, handler: usize },
}

impl SignalType {
    /// The number of the signal.
    pub fn number(self) -> (r: u8)
        ensures
            r == self.spec_number(),
    {
        match self {
            SignalType::Kill => 0,
            SignalType::Terminate => 1,
            SignalType::Abort => 2,
            SignalType::Interrupt => 3,
            SignalType::Alarm => 4,
        }
    }

    pub open spec fn spec_number(self) -> u8 {
        match self {
            SignalType::Kill => 0,
            SignalType::Terminate => 1,
            SignalType::Abort => 2,
            SignalType::Interrupt => 3,
            SignalType::Alarm => 4,
        }
    }
}

impl Signal {
    /// An ignored signal, unmasked and not pending.
    pub fn new() -> (r: Self)
        ensures
            r.handler == SignalHandler::Ignore,
            !r.mask,
            !r.pending,
    {
        Signal { handler: SignalHandler::Ignore, mask: false, pending: false }
    }
}

impl SignalHandler {
    /// The handler with number `value`: 0 terminates, 1 ignores, 2 goes to userspace.
    pub fn from(value: usize) -> (r: Option<SignalHandler>)
        ensures
            value == 0 ==> r == Some(SignalHandler::Terminate),
            value == 1 ==> r == Some(SignalHandler::Ignore),
            value == 2 ==> r == Some(SignalHandler::Userspace),
            value > 2 ==> r is None,
    {
        match value {
            0 => Some(SignalHandler::Terminate),
            1 => Some(SignalHandler::Ignore),
            2 => Some(SignalHandler::Userspace),
            _ => None,
        }
    }
}

/// A pending signal that handling acts on: one to terminate on, or one for userspace
/// when a userspace context is at hand.
pub open spec fn acts_on(s: Signal, has_context: bool) -> bool {
    s.pending && (s.handler == SignalHandler::Terminate || (s.handler == SignalHandler::Userspace && has_context))
}

/// The first signal from `from` on that handling acts on, or 256 if none.
pub open spec fn first_acting(s: Seq<Signal>, has_context: bool, from: int) -> int
    decreases 256 - from,
{
    if from >= 256 {
        256
    } else if acts_on(s[from], has_context) {
        from
    } else {
        first_acting(s, has_context, from + 1)
    }
}

proof fn lemma_first_acting(s: Seq<Signal>, has_context: bool, from: int)
    requires
        0 <= from <= 256,
    ensures
        from <= first_acting(s, has_context, from) <= 256,
        first_acting(s, has_context, from) < 256 ==> acts_on(s[first_acting(s, has_context, from)], has_context),
        forall|i: int| from <= i < first_acting(s, has_context, from) ==> !acts_on(#[trigger] s[i], has_context),
    decreases 256 - from,
{
    if from < 256 && !acts_on(s[from], has_context) {
        lemma_first_acting(s, has_context, from + 1);
    }
}

/// The state signal `i` starts in: kill, terminate, abort and interrupt (0 to 3) terminate,
/// every other signal is ignored; none is masked or pending.
pub open spec fn initial_signal(i: int) -> Signal {
    Signal {
        handler: if i < 4 {
            SignalHandler::Terminate
        } else {
            SignalHandler::Ignore
        },
        mask: false,
        pending: false,
    }
}

/// `s` with its pending flag cleared.
pub open spec fn cleared(s: Signal) -> Signal {
    Signal { pending: false, ..s }
}

impl Signals {
    /// The state of signal `i`.
    pub closed spec fn signal(&self, i: int) -> Signal {
        self.signals@[i]
    }

    pub closed spec fn spec_userspace_handler(&self) -> usize {
        self.userspace_handler
    }

    /// Every signal ignored, unmasked and not pending, but kill, terminate, abort and
    /// interrupt, which terminate; no userspace handler.
    pub fn new() -> (r: Self)
        ensures
            forall|i: int| 0 <= i < 256 ==> #[trigger] r.signal(i) == initial_signal(i),
            r.spec_userspace_handler() == 0,
    {
        let mut signals = Signals { signals: [Signal::new();256], userspace_handler: 0 };
        let kill = SignalType::Kill.number() as usize;
        let terminate = SignalType::Terminate.number() as usize;
        let abort = SignalType::Abort.number() as usize;
        let interrupt = SignalType::Interrupt.number() as usize;
        let alarm = SignalType::Alarm.number() as usize;
        signals.signals[kill] = Signal { handler: SignalHandler::Terminate, ..signals.signals[kill] };
        signals.signals[terminate] = Signal { handler: SignalHandler::Terminate, ..signals.signals[terminate] };
        signals.signals[abort] = Signal { handler: SignalHandler::Terminate, ..signals.signals[abort] };
        signals.signals[interrupt] = Signal { handler: SignalHandler::Terminate, ..signals.signals[interrupt] };
        signals.signals[alarm] = Signal { handler: SignalHandler::Ignore, ..signals.signals[alarm] };
        signals
    }

    /// Marks signal `signal` pending, unless it is masked.
    pub fn raise(&mut self, signal: u8)
        ensures
            forall|i: int|
                0 <= i < 256 ==> #[trigger] final(self).signal(i) == if i == signal && !old(self).signal(i).mask {
                    Signal { pending: true, ..old(self).signal(i) }
                } else {
                    old(self).signal(i)
                },
            final(self).spec_userspace_handler() == old(self).spec_userspace_handler(),
            final(self).signal(0).mask == old(self).signal(0).mask,
    {
        let i = signal as usize;
        if !self.signals[i].mask {
            self.signals[i] = Signal { pending: true, ..self.signals[i] };
        }
    }

    /// Sets the handler of signal `signal`.
    pub fn set_handler(&mut self, signal: u8, handler: SignalHandler)
        ensures
            forall|i: int|
                0 <= i < 256 ==> #[trigger] final(self).signal(i) == if i == signal {
                    Signal { handler: handler, ..old(self).signal(i) }
                } else {
                    old(self).signal(i)
                },
            final(self).spec_userspace_handler() == old(self).spec_userspace_handler(),
            final(self).signal(0).mask == old(self).signal(0).mask,
    {
        let i = signal as usize;
        self.signals[i] = Signal { handler: handler, ..self.signals[i] };
    }

    /// Sets the userspace entry point that handles signals given to userspace.
    pub fn set_userspace_handler(&mut self, handler: usize)
        ensures
            forall|i: int| 0 <= i < 256 ==> #[trigger] final(self).signal(i) == old(self).signal(i),
            final(self).spec_userspace_handler() == handler,
            final(self).signal(0).mask == old(self).signal(0).mask,
    {
        self.userspace_handler = handler;
    }

    /// Masks or unmasks signal `signal`; kill cannot be masked.
    pub fn mask(&mut self, signal: u8, mask: bool)
        ensures
            forall|i: int|
                0 <= i < 256 ==> #[trigger] final(self).signal(i) == if i == signal && signal
                    != SignalType::Kill.spec_number() {
                    Signal { mask: mask, ..old(self).signal(i) }
                } else {
                    old(self).signal(i)
                },
            final(self).spec_userspace_handler() == old(self).spec_userspace_handler(),
            final(self).signal(0).mask == old(self).signal(0).mask,
    {
        if signal != SignalType::Kill.number() {
            let i = signal as usize;
            self.signals[i] = Signal { mask: mask, ..self.signals[i] };
        }
    }

    /// Handles the pending signals in order of number: an ignored one is cleared; the
    /// first one that terminates, or that goes to userspace when a userspace context is
    /// given, is cleared and decides the outcome. A signal for userspace stays pending
    /// when no context is given.
    pub fn handle(&mut self, userspace_context: Option<(UserspaceSignalContext, u64)>) -> (r: SignalOutcome)
        ensures
            ({
                let f = first_acting(old(self).signals_seq(), userspace_context is Some, 0);
                &&& forall|i: int|
                    0 <= i < 256 ==> #[trigger] final(self).signal(i) == if i == f || (i < f && old(self).signal(
                        i,
                    ).handler == SignalHandler::Ignore) {
                        cleared(old(self).signal(i))
                    } else {
                        old(self).signal(i)
                    }
                &&& final(self).spec_userspace_handler() == old(self).spec_userspace_handler()
                &&& final(self).signal(0).mask == old(self).signal(0).mask
                &&& f == 256 ==> r is Continue
                &&& f < 256 && old(self).signal(f).handler == SignalHandler::Terminate ==> r == SignalOutcome::Exit(
                    (128 + f) as isize,
                )
                &&& f < 256 && old(self).signal(f).handler == SignalHandler::Userspace ==> (userspace_context matches Some(
                    (context, stack),
                ) && r == (SignalOutcome::Deliver {
                    context: context,
                    stack: stack,
                    handler: old(self).spec_userspace_handler(),
                }))
            }),
    {
        let ghost s = self.signals@;
        let ghost has = userspace_context is Some;
        proof {
            lemma_first_acting(s, has, 0);
        }
        let ghost f = first_acting(s, has, 0);
        let mut i: usize = 0;
        while i < 256
            invariant
                i <= 256,
                i <= f,
                s == old(self).signals@,
                has == (userspace_context is Some),
                f == first_acting(s, has, 0),
                f < 256 ==> acts_on(s[f], has),
                forall|j: int| 0 <= j < f ==> !acts_on(#[trigger] s[j], has),
                self.userspace_handler == old(self).userspace_handler,
                forall|j: int|
                    0 <= j < 256 ==> #[trigger] self.signals@[j] == if j < i && s[j].handler == SignalHandler::Ignore {
                        cleared(s[j])
                    } else {
                        s[j]
                    },
            decreases 256 - i,
        {
            let sig = self.signals[i];
            if sig.pending {
                match sig.handler {
                    SignalHandler::Ignore => {
                        self.signals[i] = Signal { pending: false, ..sig };
                    },
                    SignalHandler::Terminate => {
                        self.signals[i] = Signal { pending: false, ..sig };
                        proof {
                            assert(acts_on(s[i as int], has));
                            assert(i == f);
                        }
                        return SignalOutcome::Exit(128 + i as isize);
                    },
                    SignalHandler::Userspace => match userspace_context {
                        Some((context, rsp)) => {
                            self.signals[i] = Signal { pending: false, ..sig };
                            proof {
                                assert(acts_on(s[i as int], has));
                                assert(i == f);
                            }
                            return SignalOutcome::Deliver { context, stack: rsp, handler: self.userspace_handler };
                        },
                        None => {},
                    },
                }
            } else {
                proof {
                    if sig.handler == SignalHandler::Ignore {
                        assert(cleared(s[i as int]) == s[i as int]);
                    }
                }
            }
            proof {
                assert(!acts_on(s[i as int], has));
            }
            i = i + 1;
        }
        SignalOutcome::Continue
    }

    /// The states of all 256 signals, in order of number.
    pub closed spec fn signals_seq(&self) -> Seq<Signal> {
        self.signals@
    }

    /// The sequence of signal states holds signal `i` at place `i`, for each of the 256
    /// signals.
    pub proof fn lemma_signals_seq(&self)
        ensures
            self.signals_seq().len() == 256,
            forall|i: int| 0 <= i < 256 ==> #[trigger] self.signals_seq()[i] == self.signal(i),
    {
    }
}


/// Kill is never masked: along any run of signal states that starts unmasked for kill (as
/// `new` leaves it) and in which each step keeps kill's mask (as `raise`, `mask`,
/// `set_handler`, `set_userspace_handler` and `handle` each do), kill stays unmasked, so a
/// `raise` of it always leaves it pending.
pub proof fn lemma_kill_never_masked(run: Seq<Signals>, t: int)
    requires
        run.len() > 0,
        !run[0].signal(0).mask,
        forall|k: int| 0 <= k < run.len() - 1 ==> (#[trigger] run[k + 1]).signal(0).mask == run[k].signal(0).mask,
        0 <= t < run.len(),
    ensures
        !run[t].signal(0).mask,
    decreases t,
{
    if t > 0 {
        lemma_kill_never_masked(run, t - 1);
        assert(run[(t - 1) + 1].signal(0).mask == run[t - 1].signal(0).mask);
    }
}

} // verus!
