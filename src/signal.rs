//! The signal channel: one slot per guest at the front of the read-write
//! region. Only the host moves a slot from `Idle` to a command, and only the
//! guest moves it back to `Idle` once the command is done; both sides poll a
//! bounded number of times.
use vstd::prelude::*;

verus! {

/// Bytes of signal slots at the front of the read-write region: one `i32`
/// cell for each of the two guests.
pub const SIGNAL_BYTES: i32 = 8;
/// The hunter guest's slot.
pub const HUNTER_SIGNAL_INDEX: usize = 0;
/// The runner guest's slot.
pub const RUNNER_SIGNAL_INDEX: usize = 1;
/// How many times either side looks at a slot before giving up.
pub const SIGNAL_REPS: u32 = 300;

/// A command in a signal slot.
#[derive(Clone, Copy, Debug, PartialEq, Eq, Structural)]
pub enum Signal {
    Idle,
    Init,
    Tick,
    LargeAlloc,
    ModifyGrid,
    Exit,
}

/// The number that stands for a signal in its slot.
pub open spec fn signal_value(s: Signal) -> i32 {
    match s {
        Signal::Idle => 0,
        Signal::Init => 1,
        Signal::Tick => 2,
        Signal::LargeAlloc => 3,
        Signal::ModifyGrid => 4,
        Signal::Exit => 5,
    }
}

/// A slot or a reply held a value outside the protocol.
#[derive(Clone, Copy, Debug, PartialEq, Eq, Structural)]
pub enum ProtocolError {
    UnknownSignal(i32),
}

impl Signal {
    /// The signal with slot value `value`.
    pub fn from(value: i32) -> (r: Signal)
        requires
            0 <= value < 6,
        ensures
            signal_value(r) == value,
    {
        if value == 0 {
            Signal::Idle
        } else if value == 1 {
            Signal::Init
        } else if value == 2 {
            Signal::Tick
        } else if value == 3 {
            Signal::LargeAlloc
        } else if value == 4 {
            Signal::ModifyGrid
        } else {
            Signal::Exit
        }
    }

    /// Decodes a slot value read from shared memory; a value outside the
    /// protocol is reported.
    pub fn decode(value: i32) -> (r: Result<Signal, ProtocolError>)
        ensures
            match r {
                Ok(s) => signal_value(s) == value,
                Err(e) => e == ProtocolError::UnknownSignal(value) && !(0 <= value < 6),
            },
    {
        if 0 <= value && value < 6 {
            Ok(Signal::from(value))
        } else {
            Err(ProtocolError::UnknownSignal(value))
        }
    }

    /// The slot value of this signal.
    pub fn value(&self) -> (r: i32)
        ensures
            r == signal_value(*self),
    {
        match self {
            Signal::Idle => 0,
            Signal::Init => 1,
            Signal::Tick => 2,
            Signal::LargeAlloc => 3,
            Signal::ModifyGrid => 4,
            Signal::Exit => 5,
        }
    }
}

proof fn lemma_signal_value_injective(a: Signal, b: Signal)
    ensures
        signal_value(a) == signal_value(b) ==> a == b,
{
}

/// What went wrong on the channel.
#[derive(Clone, Copy, Debug, PartialEq, Eq, Structural)]
pub enum ChannelError {
    /// The host may only write into an `Idle` slot.
    SlotBusy,
    /// The host writes commands, never `Idle`.
    IdleCommand,
    /// The guest found no command to finish.
    NoCommand,
    /// No such slot.
    NoSlot,
    /// The slot holds a value outside the protocol.
    Unreadable(i32),
}

/// Every write to a slot flips it between `Idle` and a command: no two
/// commands follow one another, nor two `Idle`s.
pub open spec fn alternates(w: Seq<Signal>) -> bool {
    forall|j: int, k: int| 0 <= j && k == j + 1 && k < w.len() ==> ((#[trigger] w[j]) == Signal::Idle) != ((#[trigger] w[k]) == Signal::Idle)
}

/// The slots of a read-write region, with every value each slot has held.
pub struct SignalChannel {
    slots: Vec<Signal>,
    history: Ghost<Seq<Seq<Signal>>>,
}

impl SignalChannel {
    /// What each slot holds now.
    pub closed spec fn view(&self) -> Seq<Signal> {
        self.slots@
    }

    /// Every value each slot has held, from its first `Idle` on.
    pub closed spec fn history(&self) -> Seq<Seq<Signal>> {
        self.history@
    }

    pub open spec fn wf(&self) -> bool {
        &&& self.history().len() == self.view().len()
        &&& forall|i: int| 0 <= i < self.view().len() ==> {
            let w = #[trigger] self.history()[i];
            &&& w.len() >= 1
            &&& w[0] == Signal::Idle
            &&& w.last() == self.view()[i]
            &&& alternates(w)
        }
    }

    /// `count` slots, all `Idle`.
    pub fn new(count: usize) -> (r: SignalChannel)
        ensures
            r.wf(),
            r.view() == Seq::new(count as nat, |i: int| Signal::Idle),
    {
        let mut slots: Vec<Signal> = Vec::new();
        let mut i: usize = 0;
        while i < count
            invariant
                i <= count,
                slots@ == Seq::new(i as nat, |k: int| Signal::Idle),
            decreases count - i,
        {
            slots.push(Signal::Idle);
            i = i + 1;
            assert(slots@ =~= Seq::new(i as nat, |k: int| Signal::Idle));
        }
        let ghost h = Seq::new(count as nat, |k: int| seq![Signal::Idle]);
        let r = SignalChannel { slots, history: Ghost(h) };
        assert forall|k: int| 0 <= k < r.view().len() implies alternates(#[trigger] r.history()[k]) by {}
        r
    }

    pub fn slot_count(&self) -> (r: usize)
        ensures
            r == self.view().len(),
    {
        self.slots.len()
    }

    /// What slot `index` holds.
    pub fn read(&self, index: usize) -> (r: Signal)
        requires
            index < self.view().len(),
        ensures
            r == self.view()[index as int],
    {
        self.slots[index]
    }

    /// The host writes `command` into slot `index`, which must read `Idle`.
    pub fn send(&mut self, index: usize, command: Signal) -> (r: Result<(), ChannelError>)
        requires
            old(self).wf(),
        ensures
            final(self).wf(),
            index >= old(self).view().len() ==> r == Err::<(), ChannelError>(ChannelError::NoSlot),
            index < old(self).view().len() && command == Signal::Idle ==> r == Err::<(), ChannelError>(ChannelError::IdleCommand),
            index < old(self).view().len() && command != Signal::Idle && old(self).view()[index as int] != Signal::Idle
                ==> r == Err::<(), ChannelError>(ChannelError::SlotBusy),
            r is Ok <==> (index < old(self).view().len() && command != Signal::Idle && old(self).view()[index as int] == Signal::Idle),
            r is Ok ==> final(self).view() == old(self).view().update(index as int, command),
            r is Err ==> final(self).view() == old(self).view(),
    {
        if index >= self.slots.len() {
            return Err(ChannelError::NoSlot);
        }
        if command == Signal::Idle {
            return Err(ChannelError::IdleCommand);
        }
        if self.slots[index] != Signal::Idle {
            return Err(ChannelError::SlotBusy);
        }
        self.record(index, command);
        Ok(())
    }

    /// Writes `value` into slot `index` and logs it.
    fn record(&mut self, index: usize, value: Signal)
        requires
            old(self).wf(),
            index < old(self).view().len(),
            (old(self).view()[index as int] == Signal::Idle) != (value == Signal::Idle),
        ensures
            final(self).wf(),
            final(self).view() == old(self).view().update(index as int, value),
            final(self).history() == old(self).history().update(index as int, old(self).history()[index as int].push(value)),
    {
        let ghost w = self.history@[index as int];
        let ghost old_view = self.slots@;
        let ghost old_hist = self.history@;
        let ghost nw = w.push(value);
        self.slots.set(index, value);
        self.history = Ghost(old_hist.update(index as int, nw));
        proof {
            assert(alternates(nw)) by {
                assert forall|j: int, k: int| 0 <= j && k == j + 1 && k < nw.len() implies
                    ((#[trigger] nw[j]) == Signal::Idle) != ((#[trigger] nw[k]) == Signal::Idle) by {
                    if k < w.len() {
                        assert(nw[k] == w[k] && nw[j] == w[j]);
                    } else {
                        assert(nw[j] == w.last());
                    }
                }
            }
            assert forall|i: int| 0 <= i < self.view().len() implies {
                let h = #[trigger] self.history()[i];
                &&& h.len() >= 1
                &&& h[0] == Signal::Idle
                &&& h.last() == self.view()[i]
                &&& alternates(h)
            } by {
                if i != index as int {
                    assert(self.history()[i] == old_hist[i]);
                    assert(self.view()[i] == old_view[i]);
                } else {
                    assert(nw[0] == w[0]);
                }
            }
        }
    }

    /// The host writes `command` into every slot of `targets` (a broadcast);
    /// it writes nothing unless every target reads `Idle`.
    pub fn broadcast(&mut self, targets: &Vec<usize>, command: Signal) -> (r: Result<(), ChannelError>)
        requires
            old(self).wf(),
        ensures
            final(self).wf(),
            r is Ok <==> (command != Signal::Idle && forall|k: int| 0 <= k < targets@.len() ==>
                (#[trigger] targets@[k]) < old(self).view().len() && old(self).view()[targets@[k] as int] == Signal::Idle),
            r is Ok ==> final(self).view() == Seq::new(old(self).view().len(), |i: int|
                if targets@.contains(i as usize) { command } else { old(self).view()[i] }),
            r is Err ==> final(self).view() == old(self).view(),
    {
        if command == Signal::Idle {
            return Err(ChannelError::IdleCommand);
        }
        let mut k: usize = 0;
        while k < targets.len()
            invariant
                self.wf(),
                self.view() == old(self).view(),
                k <= targets@.len(),
                forall|q: int| 0 <= q < k ==> (#[trigger] targets@[q]) < self.view().len() && self.view()[targets@[q] as int] == Signal::Idle,
            decreases targets@.len() - k,
        {
            let t = targets[k];
            if t >= self.slots.len() {
                return Err(ChannelError::NoSlot);
            }
            if self.slots[t] != Signal::Idle {
                return Err(ChannelError::SlotBusy);
            }
            k = k + 1;
        }
        let ghost start = self.view();
        let slot_count = self.slots.len();
        let mut k: usize = 0;
        while k < targets.len()
            invariant
                self.wf(),
                slot_count == start.len(),
                command != Signal::Idle,
                self.view().len() == start.len(),
                k <= targets@.len(),
                forall|q: int| 0 <= q < targets@.len() ==> (#[trigger] targets@[q]) < start.len() && start[targets@[q] as int] == Signal::Idle,
                forall|i: int| 0 <= i < start.len() ==> #[trigger] self.view()[i] ==
                    if targets@.take(k as int).contains(i as usize) { command } else { start[i] },
            decreases targets@.len() - k,
        {
            let t = targets[k];
            let ghost before = self.view();
            proof {
                assert(targets@.take(k + 1) =~= targets@.take(k as int).push(t));
                assert(targets@[k as int] == t);
                if before[t as int] != Signal::Idle {
                    assert(targets@.take(k as int).contains(t));
                }
            }
            if self.slots[t] == Signal::Idle {
                self.record(t, command);
            }
            proof {
                assert(self.view()[t as int] == command);
                assert forall|i: int| 0 <= i < start.len() && i != t as int implies self.view()[i] == before[i] by {}
                assert forall|i: int| 0 <= i < start.len() implies #[trigger] self.view()[i] ==
                    if targets@.take(k + 1).contains(i as usize) { command } else { start[i] } by {
                    if i == t as int {
                        assert(targets@.take(k + 1)[k as int] == t);
                    } else if targets@.take(k + 1).contains(i as usize) {
                        let q = choose|q: int| 0 <= q < k + 1 && #[trigger] targets@.take(k + 1)[q] == i as usize;
                        assert(targets@.take(k + 1)[k as int] == t);
                        assert(q != k as int);
                        assert(targets@.take(k as int)[q] == i as usize);
                        assert(targets@.take(k as int).contains(i as usize));
                        assert(self.view()[i] == before[i]);
                    } else {
                        assert(!targets@.take(k as int).contains(i as usize)) by {
                            if targets@.take(k as int).contains(i as usize) {
                                let q = choose|q: int| 0 <= q < k && #[trigger] targets@.take(k as int)[q] == i as usize;
                                assert(targets@.take(k + 1)[q] == i as usize);
                            }
                        }
                    }
                }
            }
            k = k + 1;
        }
        proof {
            assert(targets@.take(k as int) =~= targets@);
            assert(self.view() =~= Seq::new(start.len(), |i: int|
                if targets@.contains(i as usize) { command } else { start[i] }));
        }
        Ok(())
    }

    /// The guest finishes the command in its slot `index` and writes `Idle`;
    /// it returns the command it finished.
    pub fn finish(&mut self, index: usize) -> (r: Result<Signal, ChannelError>)
        requires
            old(self).wf(),
        ensures
            final(self).wf(),
            index >= old(self).view().len() ==> r == Err::<Signal, ChannelError>(ChannelError::NoSlot),
            index < old(self).view().len() && old(self).view()[index as int] == Signal::Idle
                ==> r == Err::<Signal, ChannelError>(ChannelError::NoCommand),
            index < old(self).view().len() && old(self).view()[index as int] != Signal::Idle ==> {
                &&& r == Ok::<Signal, ChannelError>(old(self).view()[index as int])
                &&& final(self).view() == old(self).view().update(index as int, Signal::Idle)
            },
            r is Err ==> final(self).view() == old(self).view(),
    {
        if index >= self.slots.len() {
            return Err(ChannelError::NoSlot);
        }
        let command = self.slots[index];
        if command == Signal::Idle {
            return Err(ChannelError::NoCommand);
        }
        self.record(index, Signal::Idle);
        Ok(command)
    }

    /// Whether every slot of `targets` reads `Idle`: the condition that ends
    /// a host's wait.
    pub fn all_idle(&self, targets: &Vec<usize>) -> (r: bool)
        ensures
            r == forall|k: int| 0 <= k < targets@.len() ==>
                (#[trigger] targets@[k]) < self.view().len() && self.view()[targets@[k] as int] == Signal::Idle,
    {
        let mut k: usize = 0;
        while k < targets.len()
            invariant
                k <= targets@.len(),
                forall|q: int| 0 <= q < k ==> (#[trigger] targets@[q]) < self.view().len() && self.view()[targets@[q] as int] == Signal::Idle,
            decreases targets@.len() - k,
        {
            let t = targets[k];
            if t >= self.slots.len() || self.slots[t] != Signal::Idle {
                return false;
            }
            k = k + 1;
        }
        true
    }
}

/// In every slot of a well-formed channel, each command that was written is
/// followed by `Idle` before the next command: no side ever writes two
/// commands in a row, and the guest's only write is `Idle`.
pub proof fn lemma_handshake(ch: SignalChannel, i: int, j: int)
    requires
        ch.wf(),
        0 <= i < ch.view().len(),
        0 <= j < ch.history()[i].len() - 1,
        ch.history()[i][j] != Signal::Idle,
    ensures
        ch.history()[i][j + 1] == Signal::Idle,
{
    let w = ch.history()[i];
    assert(alternates(w));
    assert((w[j] == Signal::Idle) != (w[j + 1] == Signal::Idle));
}

/// What the host does after one look at the slots it waits on.
#[derive(Clone, Copy, Debug, PartialEq, Eq, Structural)]
pub enum WaitStep {
    /// Every slot read `Idle`: the wait is over.
    Done,
    /// Sleep for the poll interval and look again.
    Sleep,
    /// The attempts are spent: the guests are stuck or dead.
    Timeout,
}

/// The host's decision on its `attempt`-th look (from 0) of at most
/// `max_attempts`, given the slot values `observed`.
pub fn host_wait_step(observed: &Vec<i32>, attempt: u32, max_attempts: u32) -> (r: WaitStep)
    ensures
        r == WaitStep::Done <==> forall|k: int| 0 <= k < observed@.len() ==> #[trigger] observed@[k] == 0,
        r == WaitStep::Timeout <==> (exists|k: int| 0 <= k < observed@.len() && #[trigger] observed@[k] != 0)
            && attempt + 1 >= max_attempts,
{
    let mut k: usize = 0;
    while k < observed.len()
        invariant
            k <= observed@.len(),
            forall|q: int| 0 <= q < k ==> #[trigger] observed@[q] == 0,
        decreases observed@.len() - k,
    {
        if observed[k] != 0 {
            if attempt >= max_attempts || max_attempts - attempt <= 1 {
                return WaitStep::Timeout;
            }
            return WaitStep::Sleep;
        }
        k = k + 1;
    }
    WaitStep::Done
}

/// The value the host writes to send `command` into a slot that it read as
/// `observed`: only an `Idle` slot takes a command, and `Idle` is no command.
pub fn host_send_value(observed: i32, command: Signal) -> (r: Result<i32, ChannelError>)
    ensures
        !(0 <= observed < 6) ==> r == Err::<i32, ChannelError>(ChannelError::Unreadable(observed)),
        1 <= observed < 6 ==> r == Err::<i32, ChannelError>(ChannelError::SlotBusy),
        observed == 0 && command == Signal::Idle ==> r == Err::<i32, ChannelError>(ChannelError::IdleCommand),
        observed == 0 && command != Signal::Idle ==> r == Ok::<i32, ChannelError>(signal_value(command)),
{
    match Signal::decode(observed) {
        Err(_) => Err(ChannelError::Unreadable(observed)),
        Ok(Signal::Idle) => {
            if command == Signal::Idle {
                Err(ChannelError::IdleCommand)
            } else {
                Ok(command.value())
            }
        },
        Ok(_) => Err(ChannelError::SlotBusy),
    }
}

/// What a guest does after one look at its slot.
#[derive(Clone, Copy, Debug, PartialEq, Eq, Structural)]
pub enum PollStep {
    /// Run this command once, then write `Idle`.
    Run(Signal),
    /// Nothing yet: sleep and look again.
    Sleep,
    /// The attempts are spent without a command.
    Timeout,
}

/// The guest's decision on its `attempt`-th look (from 0) of at most
/// `max_attempts`, given its slot value `observed`.
pub fn guest_poll_step(observed: i32, attempt: u32, max_attempts: u32) -> (r: Result<PollStep, ProtocolError>)
    ensures
        r == guest_poll_step_spec(observed, attempt, max_attempts),
{
    match Signal::decode(observed) {
        Err(e) => Err(e),
        Ok(Signal::Idle) => {
            if attempt >= max_attempts || max_attempts - attempt <= 1 {
                Ok(PollStep::Timeout)
            } else {
                Ok(PollStep::Sleep)
            }
        },
        Ok(s) => {
            proof {
                lemma_signal_value_injective(s, signal_of(observed));
            }
            Ok(PollStep::Run(s))
        },
    }
}

/// What a guest's command loop does with a command it received.
#[derive(Clone, Copy, Debug, PartialEq, Eq, Structural)]
pub enum GuestAction {
    /// Call the guest export for the command, then write `Idle`.
    Call(Signal),
    /// Leave the loop cleanly.
    Stop,
    /// The guest's memory moved since the regions were mapped.
    Relocated,
}

/// The guest loop's decision on `command`, given the base address of its
/// linear memory when the regions were mapped and now: a moved base makes
/// the mapped offsets stale, so the loop stops first.
pub fn guest_action(command: Signal, mapped_base: i64, current_base: i64) -> (r: Result<GuestAction, ChannelError>)
    ensures
        command == Signal::Idle ==> r == Err::<GuestAction, ChannelError>(ChannelError::NoCommand),
        command != Signal::Idle && mapped_base != current_base ==> r == Ok::<GuestAction, ChannelError>(GuestAction::Relocated),
        command != Signal::Idle && mapped_base == current_base && command == Signal::Exit
            ==> r == Ok::<GuestAction, ChannelError>(GuestAction::Stop),
        command != Signal::Idle && mapped_base == current_base && command != Signal::Exit
            ==> r == Ok::<GuestAction, ChannelError>(GuestAction::Call(command)),
{
    if command == Signal::Idle {
        Err(ChannelError::NoCommand)
    } else if mapped_base != current_base {
        Ok(GuestAction::Relocated)
    } else if command == Signal::Exit {
        Ok(GuestAction::Stop)
    } else {
        Ok(GuestAction::Call(command))
    }
}

/// A guest's handle on its own slot.
pub struct Comms {
    index: usize,
}

impl Comms {
    pub closed spec fn index_spec(&self) -> usize {
        self.index
    }

    /// The handle of the guest that owns slot `index` of `slot_count`.
    pub fn new(index: usize, slot_count: usize) -> (r: Result<Comms, ChannelError>)
        ensures
            r is Ok <==> index < slot_count,
            r is Ok ==> r->Ok_0.index_spec() == index,
    {
        if index < slot_count {
            Ok(Comms { index })
        } else {
            Err(ChannelError::NoSlot)
        }
    }

    pub fn index(&self) -> (r: usize)
        ensures
            r == self.index_spec(),
    {
        self.index
    }

    /// The guest's decision on one look at its slot.
    pub fn poll(&self, observed: i32, attempt: u32, max_attempts: u32) -> (r: Result<PollStep, ProtocolError>)
        ensures
            r == guest_poll_step_spec(observed, attempt, max_attempts),
    {
        guest_poll_step(observed, attempt, max_attempts)
    }

    /// The guest is done with the command in its slot: it writes `Idle`.
    pub fn send_idle(&self, channel: &mut SignalChannel) -> (r: Result<Signal, ChannelError>)
        requires
            old(channel).wf(),
        ensures
            final(channel).wf(),
            self.index_spec() < old(channel).view().len() && old(channel).view()[self.index_spec() as int] != Signal::Idle ==> {
                &&& r == Ok::<Signal, ChannelError>(old(channel).view()[self.index_spec() as int])
                &&& final(channel).view() == old(channel).view().update(self.index_spec() as int, Signal::Idle)
            },
            r is Err ==> final(channel).view() == old(channel).view(),
            !(self.index_spec() < old(channel).view().len() && old(channel).view()[self.index_spec() as int] != Signal::Idle) ==> r is Err,
    {
        channel.finish(self.index)
    }
}

/// The signal with slot value `v`, for `v` in range.
pub open spec fn signal_of(v: i32) -> Signal {
    if v == 0 {
        Signal::Idle
    } else if v == 1 {
        Signal::Init
    } else if v == 2 {
        Signal::Tick
    } else if v == 3 {
        Signal::LargeAlloc
    } else if v == 4 {
        Signal::ModifyGrid
    } else {
        Signal::Exit
    }
}

/// The guest's poll decision, as a function of what it saw.
pub open spec fn guest_poll_step_spec(observed: i32, attempt: u32, max_attempts: u32) -> Result<PollStep, ProtocolError> {
    if !(0 <= observed < 6) {
        Err(ProtocolError::UnknownSignal(observed))
    } else if observed != 0 {
        Ok(PollStep::Run(signal_of(observed)))
    } else if attempt + 1 < max_attempts {
        Ok(PollStep::Sleep)
    } else {
        Ok(PollStep::Timeout)
    }
}

/// A command of the text protocol between a host and its containers, one
/// character each.
#[derive(Clone, Copy, Debug, PartialEq, Eq, Structural)]
pub enum Command {
    Ready,
    Failed,
    Init,
    Tick,
    Exit,
    ModifyGrid,
}

impl Command {
    /// The command that `ch` stands for, if any.
    pub fn from_char(ch: char) -> (r: Option<Command>)
        ensures
            r == (if ch == '@' {
                Some(Command::Ready)
            } else if ch == '*' {
                Some(Command::Failed)
            } else if ch == 'i' {
                Some(Command::Init)
            } else if ch == 't' {
                Some(Command::Tick)
            } else if ch == 'x' {
                Some(Command::Exit)
            } else if ch == 'm' {
                Some(Command::ModifyGrid)
            } else {
                None::<Command>
            }),
    {
        if ch == '@' {
            Some(Command::Ready)
        } else if ch == '*' {
            Some(Command::Failed)
        } else if ch == 'i' {
            Some(Command::Init)
        } else if ch == 't' {
            Some(Command::Tick)
        } else if ch == 'x' {
            Some(Command::Exit)
        } else if ch == 'm' {
            Some(Command::ModifyGrid)
        } else {
            None
        }
    }
}

} // verus!
