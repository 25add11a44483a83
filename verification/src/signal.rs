//! Signal bookkeeping of one process: pending signals, the signal mask, the
//! per-signal user handlers, and the state machine that decides at each
//! return to user space what a pending signal does.

use vstd::prelude::*;

verus! {

// ---- signal sets as bit masks ----

/// Bit `k` of `bits` is set.
pub open spec fn bit_set(bits: usize, k: int) -> bool {
    0 <= k < usize::BITS && (bits >> (k as usize)) & 1 == 1
}

/// The signal numbers whose bits are set in `bits`.
pub open spec fn signals_in(bits: usize) -> Set<int> {
    Set::new(|k: int| bit_set(bits, k))
}

/// `bits` with bit `k` cleared.
pub open spec fn without_bit(bits: usize, k: int) -> usize {
    bits & !(1usize << (k as usize))
}

/// `bits` with bit `k` set.
pub open spec fn with_bit(bits: usize, k: int) -> usize {
    bits | (1usize << (k as usize))
}

proof fn lemma_bit_ops(x: usize, m: usize, k: usize, j: usize)
    requires
        k < usize::BITS,
        j < usize::BITS,
    ensures
        ((x | (1usize << k)) >> j) & 1 == 1 <==> ((x >> j) & 1 == 1 || j == k),
        ((x & !(1usize << k)) >> j) & 1 == 1 <==> ((x >> j) & 1 == 1 && j != k),
        ((x & !m) >> j) & 1 == 1 <==> ((x >> j) & 1 == 1 && !((m >> j) & 1 == 1)),
        (0usize >> j) & 1 != 1,
        ((x >> k) & 1 > 0) <==> ((x >> k) & 1 == 1),
{
    assert(((x | (1usize << k)) >> j) & 1 == 1 <==> ((x >> j) & 1 == 1 || j == k)) by (bit_vector)
        requires
            k < usize::BITS,
            j < usize::BITS,
    ;
    assert(((x & !(1usize << k)) >> j) & 1 == 1 <==> ((x >> j) & 1 == 1 && j != k)) by (bit_vector)
        requires
            k < usize::BITS,
            j < usize::BITS,
    ;
    assert(((x & !m) >> j) & 1 == 1 <==> ((x >> j) & 1 == 1 && !((m >> j) & 1 == 1))) by (bit_vector);
    assert((0usize >> j) & 1 != 1) by (bit_vector);
    assert(((x >> k) & 1 > 0) <==> ((x >> k) & 1 == 1)) by (bit_vector);
}

/// Setting a bit adds its signal.
pub proof fn lemma_with_bit(x: usize, k: int)
    requires
        0 <= k < usize::BITS,
    ensures
        signals_in(with_bit(x, k)) == signals_in(x).insert(k),
{
    assert forall|j: int| signals_in(with_bit(x, k)).contains(j) == signals_in(x).insert(k).contains(j) by {
        if 0 <= j < usize::BITS {
            lemma_bit_ops(x, 0, k as usize, j as usize);
        }
    }
    assert(signals_in(with_bit(x, k)) =~= signals_in(x).insert(k));
}

/// Clearing a bit removes its signal.
pub proof fn lemma_without_bit(x: usize, k: int)
    requires
        0 <= k < usize::BITS,
    ensures
        signals_in(without_bit(x, k)) == signals_in(x).remove(k),
{
    assert forall|j: int| signals_in(without_bit(x, k)).contains(j) == signals_in(x).remove(k).contains(j) by {
        if 0 <= j < usize::BITS {
            lemma_bit_ops(x, 0, k as usize, j as usize);
        }
    }
    assert(signals_in(without_bit(x, k)) =~= signals_in(x).remove(k));
}

/// Signal `k` is bit `k`: the word with only bit `k` set holds exactly
/// signal `k`.
pub proof fn lemma_single_signal(k: int)
    requires
        0 <= k < usize::BITS,
    ensures
        signals_in(1usize << (k as usize)) == set![k],
{
    lemma_zero_empty();
    lemma_with_bit(0, k);
    let ku = k as usize;
    assert((0usize | (1usize << ku)) == (1usize << ku)) by (bit_vector);
    assert(Set::<int>::empty().insert(k) =~= set![k]);
}

/// Masking out bits removes their signals.
pub proof fn lemma_and_not(x: usize, m: usize)
    ensures
        signals_in(x & !m) == signals_in(x).difference(signals_in(m)),
{
    assert forall|j: int| signals_in(x & !m).contains(j) == signals_in(x).difference(signals_in(m)).contains(j) by {
        if 0 <= j < usize::BITS {
            lemma_bit_ops(x, m, 0, j as usize);
        }
    }
    assert(signals_in(x & !m) =~= signals_in(x).difference(signals_in(m)));
}

/// The empty mask holds no signal.
pub proof fn lemma_zero_empty()
    ensures
        signals_in(0) == Set::<int>::empty(),
{
    assert forall|j: int| !signals_in(0).contains(j) by {
        if 0 <= j < usize::BITS {
            lemma_bit_ops(0, 0, 0, j as usize);
        }
    }
    assert(signals_in(0) =~= Set::<int>::empty());
}

/// The least member of a set of signal numbers.
pub open spec fn is_lowest(s: Set<int>, k: int) -> bool {
    s.contains(k) && forall|j: int| #[trigger] s.contains(j) ==> k <= j
}

/// A set of signals, one bit per signal number.
#[derive(Clone, Copy, Debug)]
pub struct SignalSet(pub usize);

impl SignalSet {
    /// The empty set.
    pub fn empty() -> (r: SignalSet)
        ensures
            r.0 == 0,
            signals_in(r.0) == Set::<int>::empty(),
    {
        proof {
            lemma_zero_empty();
        }
        SignalSet(0)
    }

    /// The set whose bits are `v`.
    pub fn new(v: usize) -> (r: SignalSet)
        ensures
            r.0 == v,
    {
        SignalSet(v)
    }

    /// Removes every signal.
    pub fn clear(&mut self)
        ensures
            final(self).0 == 0,
    {
        self.0 = 0;
    }

    /// Whether signal `kth` is in the set.
    pub fn contain_bit(&self, kth: usize) -> (r: bool)
        requires
            kth < usize::BITS,
        ensures
            r == signals_in(self.0).contains(kth as int),
    {
        proof {
            lemma_bit_ops(self.0, 0, kth, kth);
        }
        ((self.0 >> kth) & 1) > 0
    }

    /// Adds signal `kth`.
    pub fn add_bit(&mut self, kth: usize)
        requires
            kth < usize::BITS,
        ensures
            final(self).0 == with_bit(old(self).0, kth as int),
            signals_in(final(self).0) == signals_in(old(self).0).insert(kth as int),
    {
        proof {
            lemma_with_bit(self.0, kth as int);
        }
        self.0 = self.0 | (1usize << kth);
    }

    /// Removes signal `kth`.
    pub fn remove_bit(&mut self, kth: usize)
        requires
            kth < usize::BITS,
        ensures
            final(self).0 == without_bit(old(self).0, kth as int),
            signals_in(final(self).0) == signals_in(old(self).0).remove(kth as int),
    {
        proof {
            lemma_without_bit(self.0, kth as int);
        }
        self.0 = self.0 & !(1usize << kth);
    }

    /// Replaces the set by `v` and returns the previous bits.
    pub fn set_new(&mut self, v: SignalSet) -> (r: usize)
        ensures
            r == old(self).0,
            final(self).0 == v.0,
    {
        let previous = self.0;
        self.0 = v.0;
        previous
    }

    /// The lowest signal of the set that `mask` does not hold, if any.
    pub fn find_first_one(&self, mask: SignalSet) -> (r: Option<usize>)
        ensures
            match r {
                Some(k) => is_lowest(signals_in(self.0).difference(signals_in(mask.0)), k as int),
                None => signals_in(self.0).difference(signals_in(mask.0)).is_empty(),
            },
    {
        let bits = self.0 & !mask.0;
        proof {
            lemma_and_not(self.0, mask.0);
        }
        let mut k: usize = 0;
        while k < usize::BITS as usize
            invariant
                k <= usize::BITS,
                signals_in(bits) == signals_in(self.0).difference(signals_in(mask.0)),
                forall|j: int| 0 <= j < k ==> !#[trigger] signals_in(bits).contains(j),
            decreases usize::BITS - k,
        {
            if (bits >> k) & 1 == 1 {
                assert(signals_in(bits).contains(k as int));
                return Some(k);
            }
            k = k + 1;
        }
        assert(signals_in(bits) =~= Set::<int>::empty());
        None
    }
}

// ---- the signal state machine ----

/// The highest signal number that can have a user handler.
pub const MAX_SIG: usize = 31;
/// Kill: cannot be caught.
pub const SIGKILL: usize = 9;
/// Child stopped or exited: ignored by default.
pub const SIGCHLD: usize = 17;
/// Continue a stopped process.
pub const SIGCONT: usize = 18;
/// Stop: cannot be caught.
pub const SIGSTOP: usize = 19;
/// Urgent socket condition: ignored by default.
pub const SIGURG: usize = 23;

/// A user signal handler: its entry address and the mask to apply while it runs.
#[derive(Clone, Copy, Debug, PartialEq, Eq, Structural)]
pub struct SignalAction {
    pub handler: usize,
    pub mask: usize,
}

impl Default for SignalAction {
    /// No handler address, empty mask.
    fn default() -> (r: Self)
        ensures
            r == (SignalAction { handler: 0, mask: 0 }),
    {
        SignalAction { handler: 0, mask: 0 }
    }
}

/// What handling signals at a return to user space decided.
#[derive(Clone, Copy, Debug, PartialEq, Eq, Structural)]
pub enum SignalResult {
    /// No signal to handle.
    NoSignal,
    /// A signal handler is already running, so no other signal is taken.
    IsHandlingSignal,
    /// A signal was handled by ignoring it; return to user space as usual.
    Ignored,
    /// A signal was handled and the user context was changed.
    Handled,
    /// The process must end, with this exit code for its parent.
    ProcessKilled(i32),
    /// The process must stop until another process lets it continue.
    ProcessSuspended,
}

/// What happens to a signal without a user handler.
#[derive(Clone, Copy, Debug, PartialEq, Eq, Structural)]
pub enum DefaultAction {
    /// End the process with this exit code.
    Terminate(i32),
    /// Ignore the signal.
    Ignore,
}

/// The default action of signal `s`: child and urgent-data signals are
/// ignored, every other signal ends the process with the negated signal
/// number as exit code.
pub open spec fn default_action_of(s: int) -> DefaultAction {
    if s == SIGCHLD || s == SIGURG {
        DefaultAction::Ignore
    } else {
        DefaultAction::Terminate((-s) as i32)
    }
}

/// The result a default action reports.
pub open spec fn default_result(a: DefaultAction) -> SignalResult {
    match a {
        DefaultAction::Terminate(code) => SignalResult::ProcessKilled(code),
        DefaultAction::Ignore => SignalResult::Ignored,
    }
}

impl DefaultAction {
    /// The default action of signal `signal_no`.
    pub fn from_signal(signal_no: usize) -> (r: DefaultAction)
        requires
            signal_no < 64,
        ensures
            r == default_action_of(signal_no as int),
    {
        if signal_no == SIGCHLD || signal_no == SIGURG {
            DefaultAction::Ignore
        } else {
            DefaultAction::Terminate(-(signal_no as i32))
        }
    }

    /// The result this action reports.
    pub fn into_result(self) -> (r: SignalResult)
        ensures
            r == default_result(self),
    {
        match self {
            DefaultAction::Terminate(exit_code) => SignalResult::ProcessKilled(exit_code),
            DefaultAction::Ignore => SignalResult::Ignored,
        }
    }
}

/// The registers of a thread interrupted in user space: `x[n - 1]` is
/// general register `xn` (so the first argument register `a0` is `x[9]`),
/// `pc` is where it resumes.
#[derive(Clone, Copy)]
pub struct UserContext {
    pub x: [usize; 31],
    pub pc: usize,
    pub supervisor: bool,
    pub interrupt: bool,
}

/// `ctx` entering a user handler at `handler`, with the signal number in `a0`.
pub open spec fn entering_handler(ctx: UserContext, handler: usize, signal: usize) -> UserContext {
    UserContext { x: vstd::array::spec_array_update(ctx.x, 9, signal), pc: handler, ..ctx }
}

/// The signal state of a [`SignalImpl`], as its contracts see it.
pub struct SignalView {
    /// Bits of the signals received and not yet taken.
    pub received: usize,
    /// Bits of the blocked signals.
    pub mask: usize,
    /// Stopped by a stop signal, until a continue signal comes.
    pub frozen: bool,
    /// Contexts interrupted by running user handlers, innermost last.
    pub handling: Seq<UserContext>,
    /// The user handler of each signal number up to [`MAX_SIG`].
    pub actions: Seq<Option<SignalAction>>,
}

impl SignalView {
    /// Signals received and not blocked.
    pub open spec fn deliverable(self) -> Set<int> {
        signals_in(self.received).difference(signals_in(self.mask))
    }

    /// A user handler is running or the process is stopped.
    pub open spec fn is_handling(self) -> bool {
        self.frozen || self.handling.len() > 0
    }

    /// The lowest deliverable signal.
    pub open spec fn first_deliverable(self) -> int {
        choose|k: int| is_lowest(self.deliverable(), k)
    }

    /// Handling signals is defined (does not index past the handler table):
    /// a signal that gets to the handler table has a handler slot.
    pub open spec fn handle_defined(self) -> bool {
        !self.deliverable().contains(SIGKILL as int) && !self.frozen && !self.deliverable().is_empty()
            && self.first_deliverable() != SIGSTOP ==> self.first_deliverable() <= MAX_SIG
    }

    /// The handler that a query for signal `s` reports: none for the
    /// uncatchable signals, otherwise the installed handler or a blank one.
    pub open spec fn action_lookup(self, s: int) -> Option<SignalAction> {
        if s == SIGKILL || s == SIGSTOP {
            None
        } else {
            Some(
                match self.actions[s] {
                    Some(a) => a,
                    None => SignalAction { handler: 0, mask: 0 },
                },
            )
        }
    }
}

/// One step of signal handling at a return to user space, from the state
/// and the interrupted context to the new state, the context to resume, and
/// the result:
/// - a deliverable kill signal is taken and ends the process;
/// - a stopped process takes a deliverable continue signal and resumes, or stays stopped;
/// - otherwise the lowest deliverable signal is taken: a stop signal stops
///   the process; a signal with a user handler saves the context and enters
///   the handler with the signal number as argument; any other signal gets
///   its default action;
/// - with nothing deliverable, the result says whether a handler is running.
pub open spec fn handle_transition(v: SignalView, ctx: UserContext) -> (SignalView, UserContext, SignalResult) {
    let p = v.deliverable();
    if p.contains(SIGKILL as int) {
        (
            SignalView { received: without_bit(v.received, SIGKILL as int), ..v },
            ctx,
            SignalResult::ProcessKilled(-9i32),
        )
    } else if v.frozen {
        if p.contains(SIGCONT as int) {
            (
                SignalView { received: without_bit(v.received, SIGCONT as int), frozen: false, ..v },
                ctx,
                SignalResult::Handled,
            )
        } else {
            (v, ctx, SignalResult::ProcessSuspended)
        }
    } else if !p.is_empty() {
        let s = v.first_deliverable();
        let taken = SignalView { received: without_bit(v.received, s), ..v };
        if s == SIGSTOP {
            (SignalView { frozen: true, ..taken }, ctx, SignalResult::ProcessSuspended)
        } else {
            match v.actions[s] {
                Some(a) => (
                    SignalView { handling: v.handling.push(ctx), ..taken },
                    entering_handler(ctx, a.handler, s as usize),
                    SignalResult::Handled,
                ),
                None => (taken, ctx, default_result(default_action_of(s))),
            }
        }
    } else if v.handling.len() > 0 {
        (v, ctx, SignalResult::IsHandlingSignal)
    } else {
        (v, ctx, SignalResult::NoSignal)
    }
}

/// Returning from a user handler: the innermost saved context is resumed.
pub open spec fn return_transition(v: SignalView, ctx: UserContext) -> (SignalView, UserContext, bool) {
    if v.handling.len() > 0 {
        (SignalView { handling: v.handling.drop_last(), ..v }, v.handling.last(), true)
    } else {
        (v, ctx, false)
    }
}

/// Signal state of one process.
pub struct SignalImpl {
    received: SignalSet,
    mask: SignalSet,
    frozen: bool,
    handling: Vec<UserContext>,
    actions: [Option<SignalAction>; 32],
}

impl View for SignalImpl {
    type V = SignalView;

    closed spec fn view(&self) -> SignalView {
        SignalView {
            received: self.received.0,
            mask: self.mask.0,
            frozen: self.frozen,
            handling: self.handling@,
            actions: self.actions@,
        }
    }
}

/// Every signal state has a handler slot for each signal number up to
/// [`MAX_SIG`].
pub proof fn lemma_action_table_len(s: &SignalImpl)
    ensures
        s@.actions.len() == MAX_SIG + 1,
{
}

/// A lowest member is the chosen one.
proof fn lemma_lowest_unique(s: Set<int>, k: int)
    requires
        is_lowest(s, k),
    ensures
        (choose|j: int| is_lowest(s, j)) == k,
{
    let c = choose|j: int| is_lowest(s, j);
    assert(is_lowest(s, c));
    assert(c <= k && k <= c);
}

impl SignalImpl {
    /// No signal received, none blocked, no handler installed.
    pub fn new() -> (r: Self)
        ensures
            r@.received == 0,
            r@.mask == 0,
            !r@.frozen,
            r@.handling == Seq::<UserContext>::empty(),
            r@.actions.len() == MAX_SIG + 1,
            forall|i: int| 0 <= i <= MAX_SIG ==> #[trigger] r@.actions[i] is None,
    {
        let r = SignalImpl {
            received: SignalSet::empty(),
            mask: SignalSet::empty(),
            frozen: false,
            handling: Vec::new(),
            actions: [None; 32],
        };
        r
    }

    /// Takes the lowest received signal that is not blocked, if any.
    fn fetch_signal(&mut self) -> (r: Option<usize>)
        ensures
            match r {
                Some(k) => is_lowest(old(self)@.deliverable(), k as int) && final(self)@ == (
                SignalView { received: without_bit(old(self)@.received, k as int), ..old(self)@ }),
                None => old(self)@.deliverable().is_empty() && final(self)@ == old(self)@,
            },
    {
        match self.received.find_first_one(self.mask) {
            Some(num) => {
                self.received.remove_bit(num);
                Some(num)
            },
            None => None,
        }
    }

    /// Takes signal `signal_no` if it was received and is not blocked.
    fn fetch_and_remove(&mut self, signal_no: usize) -> (r: bool)
        requires
            signal_no < usize::BITS,
        ensures
            r == old(self)@.deliverable().contains(signal_no as int),
            r ==> final(self)@ == (SignalView {
                received: without_bit(old(self)@.received, signal_no as int),
                ..old(self)@
            }),
            !r ==> final(self)@ == old(self)@,
    {
        if self.received.contain_bit(signal_no) && !self.mask.contain_bit(signal_no) {
            self.received.remove_bit(signal_no);
            true
        } else {
            false
        }
    }

    /// The signal state of a child created by fork: the blocked signals and
    /// the handlers are inherited, nothing is pending or running.
    pub fn from_fork(&mut self) -> (r: SignalImpl)
        ensures
            final(self)@ == old(self)@,
            r@ == (SignalView {
                received: 0,
                mask: old(self)@.mask,
                frozen: false,
                handling: Seq::empty(),
                actions: old(self)@.actions,
            }),
    {
        SignalImpl {
            received: SignalSet::empty(),
            mask: self.mask,
            frozen: false,
            handling: Vec::new(),
            actions: self.actions,
        }
    }

    /// Forgets everything, as exec does: no signal pending or blocked, no
    /// handler, not stopped, nothing running.
    pub fn clear(&mut self)
        ensures
            final(self)@.received == 0,
            final(self)@.mask == 0,
            !final(self)@.frozen,
            final(self)@.handling == Seq::<UserContext>::empty(),
            final(self)@.actions.len() == MAX_SIG + 1,
            forall|i: int| 0 <= i <= MAX_SIG ==> #[trigger] final(self)@.actions[i] is None,
    {
        self.received.clear();
        self.mask.clear();
        self.frozen = false;
        self.handling.clear();
        let mut i: usize = 0;
        while i < 32
            invariant
                i <= 32,
                self.received.0 == 0,
                self.mask.0 == 0,
                !self.frozen,
                self.handling@ == Seq::<UserContext>::empty(),
                forall|j: int| 0 <= j < i ==> #[trigger] self.actions@[j] is None,
            decreases 32 - i,
        {
            self.actions[i] = None;
            i = i + 1;
        }
    }

    /// Records that signal `signal` was received.
    pub fn add_signal(&mut self, signal: usize)
        requires
            signal < usize::BITS,
        ensures
            final(self)@ == (SignalView { received: with_bit(old(self)@.received, signal as int), ..old(self)@ }),
            signals_in(final(self)@.received) == signals_in(old(self)@.received).insert(signal as int),
    {
        self.received.add_bit(signal)
    }

    /// Whether a user handler is running or the process is stopped.
    pub fn is_handling_signal(&self) -> (r: bool)
        ensures
            r == self@.is_handling(),
    {
        self.frozen || !self.handling.is_empty()
    }

    /// How many user handlers are running, one inside the other.
    pub fn handling_depth(&self) -> (r: usize)
        ensures
            r == self@.handling.len(),
    {
        self.handling.len()
    }

    /// Installs the user handler of signal `signum`; refused (false, nothing
    /// changed) for the kill and stop signals, which cannot be caught.
    pub fn set_action(&mut self, signum: usize, action: &SignalAction) -> (r: bool)
        requires
            signum != SIGKILL && signum != SIGSTOP ==> signum <= MAX_SIG,
        ensures
            r == (signum != SIGKILL && signum != SIGSTOP),
            r ==> final(self)@ == (SignalView {
                actions: old(self)@.actions.update(signum as int, Some(*action)),
                ..old(self)@
            }),
            !r ==> final(self)@ == old(self)@,
            r ==> final(self)@.action_lookup(signum as int) == Some(*action),
            final(self)@.actions.len() == MAX_SIG + 1,
    {
        if signum == SIGKILL || signum == SIGSTOP {
            false
        } else {
            self.actions[signum] = Some(*action);
            true
        }
    }

    /// The user handler of signal `signum` (a blank one when none is
    /// installed); none for the kill and stop signals.
    pub fn get_action_ref(&self, signum: usize) -> (r: Option<SignalAction>)
        requires
            signum != SIGKILL && signum != SIGSTOP ==> signum <= MAX_SIG,
        ensures
            r == self@.action_lookup(signum as int),
    {
        if signum == SIGKILL || signum == SIGSTOP {
            None
        } else {
            match self.actions[signum] {
                Some(a) => Some(a),
                None => Some(SignalAction::default()),
            }
        }
    }

    /// Replaces the signal mask by `mask` and returns the previous one.
    pub fn update_mask(&mut self, mask: usize) -> (r: usize)
        ensures
            r == old(self)@.mask,
            final(self)@ == (SignalView { mask: mask, ..old(self)@ }),
    {
        self.mask.set_new(SignalSet::new(mask))
    }

    /// Whether [`Self::handle_signals`] may be called now: a signal that
    /// would be looked up in the handler table has a slot there.
    pub fn can_handle(&self) -> (r: bool)
        ensures
            r == self@.handle_defined(),
    {
        if self.received.contain_bit(SIGKILL) && !self.mask.contain_bit(SIGKILL) {
            return true;
        }
        if self.frozen {
            return true;
        }
        match self.received.find_first_one(self.mask) {
            None => true,
            Some(s) => {
                proof {
                    lemma_lowest_unique(self@.deliverable(), s as int);
                }
                s == SIGSTOP || s <= MAX_SIG
            },
        }
    }

    /// Handles pending signals before returning to user space; see
    /// [`handle_transition`] for what each case does.
    pub fn handle_signals(&mut self, current_context: &mut UserContext) -> (r: SignalResult)
        requires
            old(self)@.handle_defined(),
        ensures
            (final(self)@, *final(current_context), r) == handle_transition(old(self)@, *old(current_context)),
    {
        if self.fetch_and_remove(SIGKILL) {
            return SignalResult::ProcessKilled(-(SIGKILL as i32));
        }
        if self.frozen {
            if self.fetch_and_remove(SIGCONT) {
                self.frozen = false;
                return SignalResult::Handled;
            }
            return SignalResult::ProcessSuspended;
        }
        match self.fetch_signal() {
            Some(signal) => {
                proof {
                    lemma_lowest_unique(old(self)@.deliverable(), signal as int);
                }
                if signal == SIGKILL {
                    SignalResult::ProcessKilled(-(signal as i32))
                } else if signal == SIGSTOP {
                    self.frozen = true;
                    SignalResult::ProcessSuspended
                } else {
                    match self.actions[signal] {
                        Some(action) => {
                            self.handling.push(*current_context);
                            current_context.pc = action.handler;
                            current_context.x[9] = signal;
                            SignalResult::Handled
                        },
                        None => DefaultAction::from_signal(signal).into_result(),
                    }
                }
            },
            None => {
                if self.is_handling_signal() {
                    SignalResult::IsHandlingSignal
                } else {
                    SignalResult::NoSignal
                }
            },
        }
    }

    /// Returns from the innermost running user handler: the context it
    /// interrupted is resumed. False, and nothing changed, when no handler runs.
    pub fn sig_return(&mut self, current_context: &mut UserContext) -> (r: bool)
        ensures
            (final(self)@, *final(current_context), r) == return_transition(old(self)@, *old(current_context)),
    {
        match self.handling.pop() {
            Some(old_ctx) => {
                *current_context = old_ctx;
                true
            },
            None => false,
        }
    }
}

impl Default for SignalImpl {
    /// The same as [`SignalImpl::new`].
    fn default() -> (r: Self)
        ensures
            r@.received == 0,
            r@.mask == 0,
            !r@.frozen,
            r@.handling == Seq::<UserContext>::empty(),
            r@.actions.len() == MAX_SIG + 1,
            forall|i: int| 0 <= i <= MAX_SIG ==> #[trigger] r@.actions[i] is None,
    {
        Self::new()
    }
}

/// What one handling step does, in terms of the pending signals `P`
/// (received and not blocked) and the signal numbers of Linux (9 kill,
/// 17 child, 18 continue, 19 stop, 23 urgent data). The mask and the
/// handlers never change.
/// - Kill (9) in `P` wins: it is taken and the process is killed with -9.
/// - A stopped process only looks for continue (18): it takes it and
///   resumes, or stays stopped with nothing changed.
/// - Otherwise the lowest signal `s` of `P` is taken (only it leaves the
///   received set): stop (19) stops the process; a signal with a handler
///   enters it, saving the interrupted context; any other signal gets its
///   default action, ignored for 17 and 23 and killing the process with
///   `-s` for the rest.
/// - With `P` empty nothing changes, and the result says whether a handler
///   is running.
pub proof fn lemma_handling_outcomes(v: SignalView, ctx: UserContext)
    ensures
        ({
            let (v1, c1, r) = handle_transition(v, ctx);
            let p = signals_in(v.received).difference(signals_in(v.mask));
            &&& v1.mask == v.mask
            &&& v1.actions == v.actions
            &&& p.contains(9) ==> {
                &&& r == SignalResult::ProcessKilled(-9i32)
                &&& signals_in(v1.received) == signals_in(v.received).remove(9)
                &&& v1.frozen == v.frozen && v1.handling == v.handling && c1 == ctx
            }
            &&& !p.contains(9) && v.frozen && p.contains(18) ==> {
                &&& r == SignalResult::Handled
                &&& signals_in(v1.received) == signals_in(v.received).remove(18)
                &&& !v1.frozen && v1.handling == v.handling && c1 == ctx
            }
            &&& !p.contains(9) && v.frozen && !p.contains(18) ==> r == SignalResult::ProcessSuspended
                && v1 == v && c1 == ctx
            &&& !p.contains(9) && !v.frozen && !p.is_empty() ==> {
                let s = v.first_deliverable();
                &&& p.contains(s)
                &&& forall|j: int| #[trigger] p.contains(j) ==> s <= j
                &&& signals_in(v1.received) == signals_in(v.received).remove(s)
                &&& s == 19 ==> r == SignalResult::ProcessSuspended && v1.frozen && v1.handling
                    == v.handling && c1 == ctx
                &&& s != 19 ==> !v1.frozen
                &&& s != 19 && v.actions[s] is Some ==> r == SignalResult::Handled && v1.handling
                    == v.handling.push(ctx)
                &&& s != 19 && v.actions[s] is None ==> v1.handling == v.handling && c1 == ctx && r
                    == if s == 17 || s == 23 {
                    SignalResult::Ignored
                } else {
                    SignalResult::ProcessKilled((-s) as i32)
                }
            }
            &&& !v.frozen && p.is_empty() ==> v1 == v && c1 == ctx && r == if v.handling.len() > 0 {
                SignalResult::IsHandlingSignal
            } else {
                SignalResult::NoSignal
            }
        }),
{
    let p = v.deliverable();
    if p.contains(SIGKILL as int) {
        lemma_without_bit(v.received, SIGKILL as int);
    } else if v.frozen {
        if p.contains(SIGCONT as int) {
            lemma_without_bit(v.received, SIGCONT as int);
        }
    } else if !p.is_empty() {
        let k = choose|k: int| p.contains(k);
        let f = v.first_deliverable();
        assert(is_lowest(p, f)) by {
            assert(exists|j: int| is_lowest(p, j)) by {
                lemma_deliverable_has_lowest(v, k);
            }
        }
        assert(0 <= f < usize::BITS);
        lemma_without_bit(v.received, f);
    }
}

/// A handling step touches the interrupted context only to enter a user
/// handler, and then only its `pc` and `a0`: the privilege and interrupt
/// state and every other register stay as they were. When a handler is
/// entered (a context is saved), the saved context is the interrupted one,
/// `pc` is the handler installed for the signal taken and `a0` is that
/// signal's number; in every other case the context is left as it was.
pub proof fn lemma_handling_keeps_context(v: SignalView, ctx: UserContext)
    requires
        v.handle_defined(),
        v.actions.len() == MAX_SIG + 1,
    ensures
        ({
            let (v1, c1, r) = handle_transition(v, ctx);
            &&& c1.supervisor == ctx.supervisor
            &&& c1.interrupt == ctx.interrupt
            &&& forall|j: int| 0 <= j < 31 && j != 9 ==> #[trigger] c1.x@[j] == ctx.x@[j]
            &&& v1.handling.len() == v.handling.len() + 1 ==> {
                let s = v.first_deliverable();
                &&& r == SignalResult::Handled
                &&& v1.handling.last() == ctx
                &&& 0 <= s <= MAX_SIG
                &&& v.actions[s] is Some
                &&& c1.pc == v.actions[s]->Some_0.handler
                &&& c1.x@[9] == s
            }
            &&& v1.handling.len() != v.handling.len() + 1 ==> c1 == ctx
        }),
{
    broadcast use vstd::array::group_array_axioms;

    let (v1, c1, r) = handle_transition(v, ctx);
    let p = v.deliverable();
    if !p.contains(SIGKILL as int) && !v.frozen && !p.is_empty() {
        let s = v.first_deliverable();
        lemma_deliverable_has_lowest(v, choose|k: int| p.contains(k));
        if s != SIGSTOP {
            if let Some(a) = v.actions[s] {
                assert(c1.x@ == ctx.x@.update(9, s as usize));
            }
        }
    }
}

/// Returning from a handler undoes entering it: when a handling step enters
/// a user handler, the next return resumes exactly the interrupted context
/// and leaves the saved contexts as they were before.
pub proof fn lemma_handler_return_restores(v: SignalView, ctx: UserContext)
    ensures
        ({
            let (v1, c1, r) = handle_transition(v, ctx);
            v1.handling.len() == v.handling.len() + 1 ==> r == SignalResult::Handled
                && return_transition(v1, c1) == (SignalView { handling: v.handling, ..v1 }, ctx, true)
        }),
{
    let (v1, c1, r) = handle_transition(v, ctx);
    if v1.handling.len() == v.handling.len() + 1 {
        assert(v1.handling == v.handling.push(ctx));
        assert(v1.handling.drop_last() =~= v.handling);
    }
}

/// A blocked signal is never taken: handling signals leaves every received
/// signal that the mask blocks pending.
pub proof fn lemma_blocked_signal_stays_pending(v: SignalView, ctx: UserContext, s: int)
    requires
        signals_in(v.mask).contains(s),
        signals_in(v.received).contains(s),
    ensures
        signals_in(handle_transition(v, ctx).0.received).contains(s),
{
    let p = v.deliverable();
    assert(!p.contains(s));
    if p.contains(SIGKILL as int) {
        lemma_without_bit(v.received, SIGKILL as int);
    } else if v.frozen {
        if p.contains(SIGCONT as int) {
            lemma_without_bit(v.received, SIGCONT as int);
        }
    } else if !p.is_empty() {
        let k = choose|k: int| p.contains(k);
        let f = v.first_deliverable();
        assert(is_lowest(p, f)) by {
            assert(exists|j: int| is_lowest(p, j)) by {
                lemma_deliverable_has_lowest(v, k);
            }
        }
        assert(0 <= f < usize::BITS);
        lemma_without_bit(v.received, f);
    }
}

/// A nonempty set of deliverable signals has a lowest member.
proof fn lemma_deliverable_has_lowest(v: SignalView, k: int)
    requires
        v.deliverable().contains(k),
    ensures
        exists|j: int| is_lowest(v.deliverable(), j),
    decreases k,
{
    let p = v.deliverable();
    if exists|j: int| p.contains(j) && j < k {
        let j = choose|j: int| p.contains(j) && j < k;
        assert(0 <= j);
        lemma_deliverable_has_lowest(v, j);
    } else {
        assert(is_lowest(p, k));
    }
}

/// A handler installed for a catchable signal is what a query reports.
pub proof fn lemma_set_then_get_action(v: SignalView, s: int, a: SignalAction)
    requires
        0 <= s <= MAX_SIG,
        s != SIGKILL && s != SIGSTOP,
        v.actions.len() == MAX_SIG + 1,
    ensures
        (SignalView { actions: v.actions.update(s, Some(a)), ..v }).action_lookup(s) == Some(a),
{
}

} // verus!
