//! Basic kernel values: handles, reset and arbitration kinds, signals,
//! timeouts, thread and process identifiers and thread states.

use vstd::prelude::*;

verus! {

/// The raw value of the pseudo-handle that names the calling process.
pub const CURRENT_PROCESS_HANDLE: u32 = 0xFFFF8001;

/// A non-zero handle value in a process's handle table.
#[derive(Clone, Copy, Debug, PartialEq, Eq, Structural)]
pub struct Handle {
    value: u32,
}

impl Handle {
    #[verifier::type_invariant]
    spec fn nonzero(self) -> bool {
        self.value != 0
    }

    pub closed spec fn spec_raw(self) -> u32 {
        self.value
    }

    /// The spec-level handle with the given non-zero raw value.
    pub open spec fn spec_from(value: u32) -> Option<Handle> {
        if value == 0 {
            None
        } else {
            Some(Handle::spec_of(value))
        }
    }

    pub closed spec fn spec_of(value: u32) -> Handle {
        Handle { value }
    }

    pub proof fn lemma_of_raw(h: Handle)
        ensures
            Handle::spec_of(h.spec_raw()) == h,
    {
    }

    /// `Some` handle for a non-zero value, `None` for zero.
    pub fn from_raw(value: u32) -> (r: Option<Handle>)
        ensures
            r == Handle::spec_from(value),
            r matches Some(h) ==> h.spec_raw() == value,
    {
        if value == 0 {
            None
        } else {
            Some(Handle { value })
        }
    }

    /// The raw value of the handle, never zero.
    pub fn raw(&self) -> (r: u32)
        ensures
            r == self.spec_raw(),
            r != 0,
    {
        proof {
            use_type_invariant(self);
        }
        self.value
    }
}

/// The raw value of an optional handle: zero for `None`.
pub open spec fn spec_raw_or_zero(h: Option<Handle>) -> u32 {
    match h {
        Some(h) => h.spec_raw(),
        None => 0,
    }
}

/// A handle value that an executable handle can have: a present handle is
/// never zero.
pub open spec fn spec_handle_valid(h: Option<Handle>) -> bool {
    h matches Some(x) ==> x.spec_raw() != 0
}

/// The raw value of an optional handle, as the kernel writes it into
/// registers and messages.
pub trait HandleImpl {
    fn raw(&self) -> u32;
}

impl HandleImpl for Option<Handle> {
    fn raw(&self) -> (r: u32)
        ensures
            r == spec_raw_or_zero(*self),
    {
        match self {
            Some(h) => h.raw(),
            None => 0,
        }
    }
}

/// How a signalled event or timer resets.
#[derive(Clone, Copy, Debug, PartialEq, Eq, Structural)]
pub enum ResetType {
    OneShot,
    Sticky,
    Pulse,
}

impl ResetType {
    pub open spec fn spec_from_raw(id: u32) -> ResetType {
        if id == 0 {
            ResetType::OneShot
        } else if id == 1 {
            ResetType::Sticky
        } else {
            ResetType::Pulse
        }
    }

    /// Decodes a reset type; the raw values are 0, 1 and 2.
    pub fn from_raw(id: u32) -> (r: ResetType)
        requires
            id <= 2,
        ensures
            r == ResetType::spec_from_raw(id),
    {
        match id {
            0 => ResetType::OneShot,
            1 => ResetType::Sticky,
            _ => ResetType::Pulse,
        }
    }
}

/// The signalled state of an event or a timer together with its reset type.
#[derive(Clone, Copy, Debug)]
pub struct Signal {
    pub reset_type: ResetType,
    pub signaled: bool,
}

impl Signal {
    /// An unsignalled signal of the given reset type.
    pub fn new(reset_type: ResetType) -> (r: Signal)
        ensures
            r.reset_type == reset_type,
            !r.signaled,
    {
        Signal { reset_type, signaled: false }
    }

    pub fn is_pulse(&self) -> (r: bool)
        ensures
            r == (self.reset_type == ResetType::Pulse),
    {
        match self.reset_type {
            ResetType::Pulse => true,
            _ => false,
        }
    }

    pub fn is_sticky(&self) -> (r: bool)
        ensures
            r == (self.reset_type == ResetType::Sticky),
    {
        match self.reset_type {
            ResetType::Sticky => true,
            _ => false,
        }
    }

    pub fn signal(&mut self)
        ensures
            final(self).signaled,
            final(self).reset_type == old(self).reset_type,
    {
        self.signaled = true;
    }

    /// What consuming a signal leaves: a sticky signal stays set, any other
    /// is cleared.
    pub open spec fn spec_after_consume(self) -> Signal {
        if self.signaled && self.reset_type != ResetType::Sticky {
            Signal { signaled: false, ..self }
        } else {
            self
        }
    }

    /// Takes the signal for one waiter: true when it was set.
    pub fn consume(&mut self) -> (r: bool)
        ensures
            r == old(self).signaled,
            *final(self) == old(self).spec_after_consume(),
    {
        if self.signaled {
            match self.reset_type {
                ResetType::OneShot | ResetType::Pulse => self.signaled = false,
                ResetType::Sticky => {},
            }
            true
        } else {
            false
        }
    }

    /// Sets the signal again after a consumed wake-up could not be delivered.
    pub fn unconsume(&mut self)
        ensures
            final(self).signaled,
            final(self).reset_type == old(self).reset_type,
    {
        self.signaled = true;
    }

    pub fn reset(&mut self)
        ensures
            !final(self).signaled,
            final(self).reset_type == old(self).reset_type,
    {
        self.signaled = false;
    }
}

/// Consuming a set signal and then giving the wake-up back restores it.
pub proof fn law_consume_unconsume(s: Signal)
    requires
        s.signaled,
    ensures
        ({
            let c = s.spec_after_consume();
            Signal { signaled: true, ..c } == s
        }),
{
}

/// A sticky signal stays set however often it is consumed; any other is
/// taken by exactly one consumer.
pub proof fn law_consume_once(s: Signal)
    requires
        s.signaled,
    ensures
        s.reset_type == ResetType::Sticky ==> s.spec_after_consume().signaled,
        s.reset_type != ResetType::Sticky ==> !s.spec_after_consume().signaled,
{
}

/// The kinds of the ArbitrateAddress call.
#[derive(Clone, Copy, Debug, PartialEq, Eq, Structural)]
pub enum ArbitrationType {
    Signal,
    WaitIfLessThan,
    DecrementAndWaitIfLessThan,
    WaitIfLessThanTimeout,
    DecrementAndWaitIfLessThanTimeout,
}

/// What an arbitration does to the arbiter or to the memory word.
#[derive(Clone, Copy, Debug, PartialEq, Eq, Structural)]
pub enum ArbitrationAction {
    Signal,
    Decrement,
}

/// Why an arbitration makes the caller wait.
#[derive(Clone, Copy, Debug, PartialEq, Eq, Structural)]
pub enum ArbitrationFail {
    Wait,
    WaitTimeout,
}

impl ArbitrationType {
    pub open spec fn spec_from_raw(x: u32) -> ArbitrationType {
        if x == 0 {
            ArbitrationType::Signal
        } else if x == 1 {
            ArbitrationType::WaitIfLessThan
        } else if x == 2 {
            ArbitrationType::DecrementAndWaitIfLessThan
        } else if x == 3 {
            ArbitrationType::WaitIfLessThanTimeout
        } else {
            ArbitrationType::DecrementAndWaitIfLessThanTimeout
        }
    }

    /// Decodes an arbitration type; the raw values are 0 to 4.
    pub fn from_raw(x: u32) -> (r: ArbitrationType)
        requires
            x <= 4,
        ensures
            r == ArbitrationType::spec_from_raw(x),
    {
        match x {
            0 => ArbitrationType::Signal,
            1 => ArbitrationType::WaitIfLessThan,
            2 => ArbitrationType::DecrementAndWaitIfLessThan,
            3 => ArbitrationType::WaitIfLessThanTimeout,
            _ => ArbitrationType::DecrementAndWaitIfLessThanTimeout,
        }
    }

    /// The action and the outcome of an arbitration, given the word in
    /// memory and the caller's value.
    pub open spec fn spec_arbitrate(self, memory_value: i32, value: i32) -> (
        Option<ArbitrationAction>,
        Result<(), ArbitrationFail>,
    ) {
        let less = memory_value < value;
        match self {
            ArbitrationType::Signal => (Some(ArbitrationAction::Signal), Ok(())),
            ArbitrationType::WaitIfLessThan => (
                None,
                if less { Err(ArbitrationFail::Wait) } else { Ok(()) },
            ),
            ArbitrationType::DecrementAndWaitIfLessThan => if less {
                (Some(ArbitrationAction::Decrement), Err(ArbitrationFail::Wait))
            } else {
                (None, Ok(()))
            },
            ArbitrationType::WaitIfLessThanTimeout => (
                None,
                if less { Err(ArbitrationFail::WaitTimeout) } else { Ok(()) },
            ),
            ArbitrationType::DecrementAndWaitIfLessThanTimeout => if less {
                (Some(ArbitrationAction::Decrement), Err(ArbitrationFail::WaitTimeout))
            } else {
                (None, Ok(()))
            },
        }
    }

    /// Decides an arbitration: `memory_value` is the word at the arbitrated
    /// address, `value` the caller's operand.
    pub fn arbitrate(self, memory_value: i32, value: i32) -> (r: (
        Option<ArbitrationAction>,
        Result<(), ArbitrationFail>,
    ))
        ensures
            r == self.spec_arbitrate(memory_value, value),
    {
        match self {
            ArbitrationType::Signal => (Some(ArbitrationAction::Signal), Ok(())),
            ArbitrationType::WaitIfLessThan => (
                None,
                if memory_value < value { Err(ArbitrationFail::Wait) } else { Ok(()) },
            ),
            ArbitrationType::DecrementAndWaitIfLessThan => if memory_value < value {
                (Some(ArbitrationAction::Decrement), Err(ArbitrationFail::Wait))
            } else {
                (None, Ok(()))
            },
            ArbitrationType::WaitIfLessThanTimeout => (
                None,
                if memory_value < value { Err(ArbitrationFail::WaitTimeout) } else { Ok(()) },
            ),
            ArbitrationType::DecrementAndWaitIfLessThanTimeout => if memory_value < value {
                (Some(ArbitrationAction::Decrement), Err(ArbitrationFail::WaitTimeout))
            } else {
                (None, Ok(()))
            },
        }
    }
}

/// An arbitration only decrements when it also makes the caller wait, and
/// only a signal arbitration signals.
pub proof fn law_arbitrate_decrement_waits(t: ArbitrationType, memory_value: i32, value: i32)
    ensures
        t.spec_arbitrate(memory_value, value).0 == Some(ArbitrationAction::Decrement)
            ==> t.spec_arbitrate(memory_value, value).1.is_err(),
        t.spec_arbitrate(memory_value, value).0 == Some(ArbitrationAction::Signal)
            <==> t == ArbitrationType::Signal,
        memory_value >= value ==> t.spec_arbitrate(memory_value, value).1 == Ok::<(), ArbitrationFail>(()),
{
}

/// The raw arbitration types, as ArbitrateAddress takes them in register
/// 2: 0 signals, 1 waits while the word is less than the value, 2 also
/// decrements it, and 3 and 4 are 1 and 2 with a timeout.
pub proof fn law_arbitration_type_decoding(x: u32)
    requires
        x <= 4,
    ensures
        (ArbitrationType::spec_from_raw(x) == ArbitrationType::Signal) == (x == 0),
        (ArbitrationType::spec_from_raw(x) == ArbitrationType::WaitIfLessThan) == (x == 1),
        (ArbitrationType::spec_from_raw(x) == ArbitrationType::DecrementAndWaitIfLessThan) == (x == 2),
        (ArbitrationType::spec_from_raw(x) == ArbitrationType::WaitIfLessThanTimeout) == (x == 3),
        (ArbitrationType::spec_from_raw(x) == ArbitrationType::DecrementAndWaitIfLessThanTimeout) == (x == 4),
{
}

/// A waiting arbitration makes the caller wait exactly when the word in
/// memory is less than the caller's value: with a timeout for the two
/// timeout types, without one for the others. The decrementing types
/// decrement the word exactly when the caller waits; the others leave it.
pub proof fn law_arbitrate_waits_when_less(t: ArbitrationType, memory_value: i32, value: i32)
    requires
        t != ArbitrationType::Signal,
    ensures
        memory_value < value ==> t.spec_arbitrate(memory_value, value).1 == Err::<(), ArbitrationFail>(
            if t == ArbitrationType::WaitIfLessThanTimeout || t == ArbitrationType::DecrementAndWaitIfLessThanTimeout {
                ArbitrationFail::WaitTimeout
            } else {
                ArbitrationFail::Wait
            },
        ),
        memory_value >= value ==> t.spec_arbitrate(memory_value, value).1 == Ok::<(), ArbitrationFail>(()),
        (t == ArbitrationType::DecrementAndWaitIfLessThan || t == ArbitrationType::DecrementAndWaitIfLessThanTimeout)
            && memory_value < value ==> t.spec_arbitrate(memory_value, value).0 == Some(ArbitrationAction::Decrement),
        !((t == ArbitrationType::DecrementAndWaitIfLessThan || t == ArbitrationType::DecrementAndWaitIfLessThanTimeout)
            && memory_value < value) ==> t.spec_arbitrate(memory_value, value).0 == None::<ArbitrationAction>,
{
}

/// A signal arbitration signals and never makes the caller wait, whatever
/// the word and the value.
pub proof fn law_arbitrate_signal_continues(memory_value: i32, value: i32)
    ensures
        ArbitrationType::Signal.spec_arbitrate(memory_value, value) == (
            Some(ArbitrationAction::Signal),
            Ok::<(), ArbitrationFail>(()),
        ),
{
}

/// The raw reset types, as CreateEvent and CreateTimer take them in
/// register 1: 0 is one-shot, 1 sticky and 2 pulse.
pub proof fn law_reset_type_decoding(id: u32)
    requires
        id <= 2,
    ensures
        (ResetType::spec_from_raw(id) == ResetType::OneShot) == (id == 0),
        (ResetType::spec_from_raw(id) == ResetType::Sticky) == (id == 1),
        (ResetType::spec_from_raw(id) == ResetType::Pulse) == (id == 2),
{
}

/// How long a wait may last.
#[derive(Clone, Copy, Debug, PartialEq, Eq, Structural)]
pub enum Timeout {
    Instant,
    After(u64),
    Forever,
}

impl Timeout {
    /// The relative duration in nanoseconds, `None` for a wait without end.
    pub open spec fn spec_ns(self) -> Option<u64> {
        match self {
            Timeout::Instant => Some(0u64),
            Timeout::After(ns) => Some(ns),
            Timeout::Forever => None,
        }
    }

    /// The deadline of the timeout when it starts at `base`.
    pub fn absolute(&self, base: u64) -> (r: Option<u64>)
        requires
            self.spec_ns() matches Some(ns) ==> ns + base <= u64::MAX,
        ensures
            r == match self.spec_ns() {
                Some(ns) => Some((ns + base) as u64),
                None => None,
            },
    {
        match self {
            Timeout::Instant => Some(base),
            Timeout::After(ns) => Some(*ns + base),
            Timeout::Forever => None,
        }
    }
}

/// The deadline of a timeout that starts at `base`, or the latest time
/// when the sum does not fit.
pub open spec fn spec_deadline(t: Timeout, base: u64) -> Option<u64> {
    match t.spec_ns() {
        Some(ns) => Some(if ns + base <= u64::MAX { (ns + base) as u64 } else { u64::MAX }),
        None => None,
    }
}

impl Timeout {
    /// The deadline of the timeout when it starts at `base`; a deadline
    /// past the largest time is the largest time.
    pub fn deadline(&self, base: u64) -> (r: Option<u64>)
        ensures
            r == spec_deadline(*self, base),
    {
        match self {
            Timeout::Instant => Some(base),
            Timeout::After(ns) => Some(base.saturating_add(*ns)),
            Timeout::Forever => None,
        }
    }
}

/// The identifier of a thread.
#[derive(Clone, Copy, Debug, PartialEq, Eq, Structural, PartialOrd, Ord)]
pub struct ThreadIndex(pub usize);

impl ThreadIndex {
    pub fn new(x: usize) -> (r: ThreadIndex)
        ensures
            r.0 == x,
    {
        ThreadIndex(x)
    }

    pub fn zero() -> (r: ThreadIndex)
        ensures
            r.0 == 0,
    {
        ThreadIndex(0)
    }

    pub fn get(&self) -> (r: usize)
        ensures
            r == self.0,
    {
        self.0
    }
}

/// The identifier of a process.
#[derive(Clone, Copy, Debug, PartialEq, Eq, Structural, PartialOrd, Ord)]
pub struct ProcessId(pub u32);

impl ProcessId {
    pub fn raw(&self) -> (r: u32)
        ensures
            r == self.0,
    {
        self.0
    }
}

#[derive(Clone, Copy, Debug, PartialEq, Eq, Structural)]
pub enum ThreadState {
    Running,
    Ready,
    Paused,
    Waiting,
    Done,
}

#[derive(Clone, Copy, Debug, PartialEq, Eq, Structural)]
pub enum ThreadWaitType {
    WaitSync1,
    WaitSyncN,
    Arbiter,
    Sleep,
}

/// What a resumed thread is told about its wait.
#[derive(Clone, Copy, Debug, PartialEq, Eq, Structural)]
pub enum ThreadResume {
    Normal,
    TimeoutReached,
    WaitSyncN { index: usize },
}

/// Where a new native thread starts.
#[derive(Clone, Copy, Debug, PartialEq, Eq, Structural)]
pub struct ThreadInitializer {
    pub entrypoint: u32,
    pub stack_top: u32,
    pub arg: u32,
}

} // verus!
