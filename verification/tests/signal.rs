use oskit::signal::{
    SignalAction, SignalImpl, SignalResult, SignalSet, UserContext, SIGCHLD, SIGCONT, SIGKILL, SIGSTOP,
};

const SIGUSR1: usize = 10;
const SIGUSR2: usize = 12;

fn ctx(pc: usize) -> UserContext {
    UserContext { x: [0; 31], pc, supervisor: false, interrupt: true }
}

#[test]
fn nothing_pending() {
    let mut s = SignalImpl::new();
    let mut c = ctx(0x100);
    assert!(!s.is_handling_signal());
    assert_eq!(s.handle_signals(&mut c), SignalResult::NoSignal);
    assert_eq!(c.pc, 0x100);
}

#[test]
fn default_actions() {
    let mut s = SignalImpl::new();
    let mut c = ctx(0x100);
    s.add_signal(SIGUSR1);
    assert_eq!(s.handle_signals(&mut c), SignalResult::ProcessKilled(-10));
    s.add_signal(SIGCHLD);
    assert_eq!(s.handle_signals(&mut c), SignalResult::Ignored);
    assert_eq!(s.handle_signals(&mut c), SignalResult::NoSignal);
}

#[test]
fn user_handler_entered_and_returned() {
    let mut s = SignalImpl::new();
    let action = SignalAction { handler: 0x4000, mask: 0 };
    assert!(s.set_action(SIGUSR1, &action));
    let mut c = ctx(0x100);
    c.x[9] = 77;
    s.add_signal(SIGUSR1);
    assert_eq!(s.handle_signals(&mut c), SignalResult::Handled);
    assert_eq!(c.pc, 0x4000);
    assert_eq!(c.x[9], SIGUSR1);
    assert!(s.is_handling_signal());
    assert_eq!(s.handle_signals(&mut c), SignalResult::IsHandlingSignal);
    assert!(s.sig_return(&mut c));
    assert_eq!(c.pc, 0x100);
    assert_eq!(c.x[9], 77);
    assert!(!s.is_handling_signal());
    assert!(!s.sig_return(&mut c));
    assert_eq!(c.pc, 0x100);
}

#[test]
fn nested_handlers_unwind_in_order() {
    let mut s = SignalImpl::new();
    s.set_action(SIGUSR1, &SignalAction { handler: 0x4000, mask: 0 });
    s.set_action(SIGUSR2, &SignalAction { handler: 0x5000, mask: 0 });
    let mut c = ctx(0x100);
    s.add_signal(SIGUSR1);
    assert_eq!(s.handle_signals(&mut c), SignalResult::Handled);
    s.add_signal(SIGUSR2);
    assert_eq!(s.handle_signals(&mut c), SignalResult::Handled);
    assert_eq!(c.pc, 0x5000);
    assert!(s.sig_return(&mut c));
    assert_eq!(c.pc, 0x4000);
    assert!(s.sig_return(&mut c));
    assert_eq!(c.pc, 0x100);
}

#[test]
fn lowest_signal_first() {
    let mut s = SignalImpl::new();
    s.add_signal(SIGUSR2);
    s.add_signal(SIGUSR1);
    let mut c = ctx(0);
    assert_eq!(s.handle_signals(&mut c), SignalResult::ProcessKilled(-10));
    assert_eq!(s.handle_signals(&mut c), SignalResult::ProcessKilled(-12));
}

#[test]
fn uncatchable_signals() {
    let mut s = SignalImpl::new();
    let action = SignalAction { handler: 0x4000, mask: 0 };
    assert!(!s.set_action(SIGKILL, &action));
    assert!(!s.set_action(SIGSTOP, &action));
    assert_eq!(s.get_action_ref(SIGKILL), None);
    assert_eq!(s.get_action_ref(SIGSTOP), None);
    assert_eq!(s.get_action_ref(SIGUSR1), Some(SignalAction { handler: 0, mask: 0 }));
    s.set_action(SIGUSR1, &action);
    assert_eq!(s.get_action_ref(SIGUSR1), Some(action));
}

#[test]
fn mask_blocks_delivery() {
    let mut s = SignalImpl::new();
    assert_eq!(s.update_mask(1 << SIGUSR1), 0);
    s.add_signal(SIGUSR1);
    let mut c = ctx(0);
    assert_eq!(s.handle_signals(&mut c), SignalResult::NoSignal);
    assert_eq!(s.update_mask(0), 1 << SIGUSR1);
    assert_eq!(s.handle_signals(&mut c), SignalResult::ProcessKilled(-10));
}

#[test]
fn stop_and_continue() {
    let mut s = SignalImpl::new();
    let mut c = ctx(0);
    s.add_signal(SIGSTOP);
    assert_eq!(s.handle_signals(&mut c), SignalResult::ProcessSuspended);
    assert!(s.is_handling_signal());
    s.add_signal(SIGUSR1);
    assert_eq!(s.handle_signals(&mut c), SignalResult::ProcessSuspended);
    s.add_signal(SIGCONT);
    assert_eq!(s.handle_signals(&mut c), SignalResult::Handled);
    assert!(!s.is_handling_signal());
    assert_eq!(s.handle_signals(&mut c), SignalResult::ProcessKilled(-10));
}

#[test]
fn kill_wins_even_when_stopped() {
    let mut s = SignalImpl::new();
    let mut c = ctx(0);
    s.add_signal(SIGSTOP);
    assert_eq!(s.handle_signals(&mut c), SignalResult::ProcessSuspended);
    s.add_signal(SIGKILL);
    assert_eq!(s.handle_signals(&mut c), SignalResult::ProcessKilled(-9));
}

#[test]
fn fork_keeps_mask_and_handlers_only() {
    let mut s = SignalImpl::new();
    let action = SignalAction { handler: 0x4000, mask: 3 };
    s.set_action(SIGUSR1, &action);
    s.update_mask(1 << SIGUSR2);
    s.add_signal(SIGUSR1);
    let mut child = s.from_fork();
    assert_eq!(child.get_action_ref(SIGUSR1), Some(action));
    assert_eq!(child.update_mask(0), 1 << SIGUSR2);
    let mut c = ctx(0);
    assert_eq!(child.handle_signals(&mut c), SignalResult::NoSignal);
    assert_eq!(s.handle_signals(&mut c), SignalResult::Handled);
}

#[test]
fn clear_forgets_everything() {
    let mut s = SignalImpl::default();
    s.set_action(SIGUSR1, &SignalAction { handler: 0x4000, mask: 0 });
    s.update_mask(7);
    s.add_signal(SIGUSR2);
    s.clear();
    assert_eq!(s.get_action_ref(SIGUSR1), Some(SignalAction::default()));
    assert_eq!(s.update_mask(0), 0);
    let mut c = ctx(0);
    assert_eq!(s.handle_signals(&mut c), SignalResult::NoSignal);
}

#[test]
fn signal_set_basics() {
    let mut set = SignalSet::empty();
    assert!(!set.contain_bit(3));
    set.add_bit(3);
    set.add_bit(5);
    assert!(set.contain_bit(3));
    assert_eq!(set.find_first_one(SignalSet::new(0)), Some(3));
    assert_eq!(set.find_first_one(SignalSet::new(1 << 3)), Some(5));
    assert_eq!(set.find_first_one(SignalSet::new((1 << 3) | (1 << 5))), None);
    set.remove_bit(3);
    assert!(!set.contain_bit(3));
    assert_eq!(set.set_new(SignalSet::new(1)), 1 << 5);
    set.clear();
    assert_eq!(set.0, 0);
}

#[test]
fn handling_needs_a_handler_slot() {
    let mut s = SignalImpl::new();
    assert!(s.can_handle());
    s.add_signal(40);
    assert!(!s.can_handle());
    s.add_signal(SIGKILL);
    assert!(s.can_handle());
}

#[test]
fn installed_handler_is_reported() {
    let mut s = SignalImpl::new();
    assert_eq!(s.get_action_ref(SIGUSR1), Some(SignalAction { handler: 0, mask: 0 }));
    let a = SignalAction { handler: 0x4000, mask: 3 };
    assert!(s.set_action(SIGUSR1, &a));
    assert_eq!(s.get_action_ref(SIGUSR1), Some(a));
    assert_eq!(s.get_action_ref(SIGUSR2), Some(SignalAction { handler: 0, mask: 0 }));
    assert!(!s.set_action(SIGKILL, &a));
    assert_eq!(s.get_action_ref(SIGKILL), None);
}

#[test]
fn handling_depth_counts_running_handlers() {
    let mut s = SignalImpl::new();
    let a = SignalAction { handler: 0x4000, mask: 0 };
    assert!(s.set_action(SIGUSR1, &a));
    assert_eq!(s.handling_depth(), 0);
    s.add_signal(SIGUSR1);
    let mut c = ctx(0x100);
    assert_eq!(s.handle_signals(&mut c), SignalResult::Handled);
    assert_eq!(s.handling_depth(), 1);
    assert!(s.sig_return(&mut c));
    assert_eq!(s.handling_depth(), 0);
    assert_eq!(c.pc, 0x100);
}
