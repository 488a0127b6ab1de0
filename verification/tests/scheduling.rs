//! Tasks, pipes, descriptors, messages, signals and the terminal.
use vanta::af_unix::{
    accept_af_unix, bind_af_unix, close, connect_af_unix, create_socket, create_socketpair,
    listen_af_unix, recv_af_unix, send_af_unix, UnixAddress, UnixSockets,
};
use vanta::paging::AddressSpace;
use vanta::process::{Process, ProcessPersonality};
use vanta::scheduler::birth::start;
use vanta::scheduler::channels::{
    can_mutate_path, decode_tty_scancode, epoll_ctl_current, epoll_wait_current,
    ipc_receive_current, ipc_revoke_current, ipc_send_current, read_tty,
};
use vanta::scheduler::descriptors::{
    epoll_create1_current, eventfd_current, open_ipc_pair_current, open_native_current,
    open_pipe_current,
};
use vanta::scheduler::io::{
    close_current, read_current, read_would_block, seek_current, write_current, Reading,
};
use vanta::scheduler::lifecycle::wait_child_current;
use vanta::scheduler::signals::{
    current_blocked_mask, default_signal_action, set_current_blocked_mask, set_signal_action,
    signal_action, SignalDefaultAction,
};
use vanta::scheduler::switch::{futex_wait_current, futex_wake, timer_tick, yield_current};
use vanta::scheduler::transfer::{duplicate_current, duplicate_to_current, stat_current};
use vanta::scheduler::{
    current_pid, task_count, InterruptContext, LinuxSigAction, PipeState, Scheduler, Shared,
    TaskState,
};
use vanta::syscall::dispatch::{native_call, NativeCall};
use vanta::syscall::{
    current_cpu_index, initialize_cpu_local, syscall_stack_top, UserContext,
};

fn program(entry: u64) -> Process {
    Process {
        space: AddressSpace { pml4_phys: 0 },
        entry,
        personality: ProcessPersonality::NativeVanta,
        fs_base: 0,
        user_stack_top: 0x7fff_0000,
        brk_start: 0x80_0000,
        brk_current: 0x80_0000,
        mmap_next: 0x1000_0000,
        mappings: Vec::new(),
        destroyed: false,
    }
}

/// A processor that runs one program.
fn running(shared: &mut Shared) -> Option<Scheduler> {
    start(AddressSpace { pml4_phys: 0 }, shared, vec![program(0x40_0000)]).map(|started| started.0)
}

/// A processor that runs two programs.
fn running_two(shared: &mut Shared) -> Option<Scheduler> {
    let programs = vec![program(0x40_0000), program(0x50_0000)];
    start(AddressSpace { pml4_phys: 0 }, shared, programs).map(|started| started.0)
}

fn context(scheduler: &Option<Scheduler>) -> UserContext {
    let scheduler = scheduler.as_ref().unwrap();
    scheduler.tasks[scheduler.current].context
}

#[test]
fn pipe_preserves_order_then_reports_eof_after_writer_close() {
    let mut pipe = PipeState::new(1);
    pipe.write(b"hello");
    assert_eq!(pipe.read(2), b"he");
    pipe.close();
    assert_eq!(pipe.read(8), b"llo");
    assert!(pipe.read(8).is_empty());
}

#[test]
fn duplicated_pipe_writer_keeps_pipe_open_until_last_descriptor_closes() {
    let mut shared = Shared::new();
    let mut scheduler = running(&mut shared);
    let (_, first) = open_pipe_current(&mut scheduler, &mut shared).unwrap();
    let second = duplicate_current(&mut scheduler, first).unwrap();

    assert!(close_current(&mut scheduler, first).is_ok());
    assert!(scheduler.as_ref().unwrap().objects.pipes.get(0).writer_open);
    assert!(close_current(&mut scheduler, second).is_ok());
    assert!(!scheduler.as_ref().unwrap().objects.pipes.get(0).writer_open);
}

#[test]
fn tty_decodes_printable_keys_and_line_endings() {
    assert_eq!(decode_tty_scancode(0x23), Some(b'h'));
    assert_eq!(decode_tty_scancode(0x1c), Some(b'\n'));
    assert_eq!(decode_tty_scancode(0xa3), None);
}

#[test]
fn a_file_gives_back_what_was_written() {
    let mut shared = Shared::new();
    let mut scheduler = running(&mut shared);
    let fd = open_native_current(
        &mut scheduler,
        &mut shared,
        b"/home/vanta/note".to_vec(),
        b"0123456789".to_vec(),
        true,
        false,
    )
    .unwrap();
    assert_eq!(seek_current(&mut scheduler, fd, 4, 0), Ok(4));
    assert!(write_current(&mut scheduler, fd, b"xy").is_ok());
    assert_eq!(seek_current(&mut scheduler, fd, 0, 0), Ok(0));
    assert!(matches!(
        read_current(&mut scheduler, fd, 16),
        Ok(Reading::Bytes(bytes)) if bytes == b"0123xy6789"
    ));
    assert_eq!(stat_current(&scheduler, fd), Ok((10, 0o100644)));
    assert!(close_current(&mut scheduler, fd).is_ok());
    assert!(close_current(&mut scheduler, fd).is_err());
}

#[test]
fn an_empty_pipe_blocks_until_something_is_written() {
    let mut shared = Shared::new();
    let mut scheduler = running(&mut shared);
    let (reader, writer) = open_pipe_current(&mut scheduler, &mut shared).unwrap();
    assert!(read_would_block(&scheduler, reader));
    assert!(write_current(&mut scheduler, writer, b"data").is_ok());
    assert!(!read_would_block(&scheduler, reader));
    let copy = duplicate_to_current(&mut scheduler, reader, 40).unwrap();
    assert_eq!(copy, 40);
    assert!(matches!(
        read_current(&mut scheduler, 40, 2),
        Ok(Reading::Bytes(bytes)) if bytes == b"da"
    ));
}

#[test]
fn a_pipe_ends_once_its_last_writer_is_closed() {
    let mut shared = Shared::new();
    let mut scheduler = running(&mut shared);
    let (reader, writer) = open_pipe_current(&mut scheduler, &mut shared).unwrap();
    assert!(write_current(&mut scheduler, writer, b"one").is_ok());
    assert!(write_current(&mut scheduler, writer, b"two").is_ok());
    assert!(close_current(&mut scheduler, writer).is_ok());
    assert!(matches!(
        read_current(&mut scheduler, reader, 4),
        Ok(Reading::Bytes(bytes)) if bytes == b"onet"
    ));
    assert!(matches!(
        read_current(&mut scheduler, reader, 9),
        Ok(Reading::Bytes(bytes)) if bytes == b"wo"
    ));
    assert!(!read_would_block(&scheduler, reader));
    assert!(matches!(
        read_current(&mut scheduler, reader, 9),
        Ok(Reading::Bytes(bytes)) if bytes.is_empty()
    ));
}

#[test]
fn messages_arrive_until_the_channel_is_revoked() {
    let mut shared = Shared::new();
    let mut scheduler = running(&mut shared);
    let (sender, receiver) = open_ipc_pair_current(&mut scheduler, &mut shared).unwrap();
    assert!(ipc_send_current(&mut scheduler, sender, b"first").is_ok());
    assert!(ipc_send_current(&mut scheduler, sender, b"second").is_ok());
    // A task does not get its own messages, but another of the same table does.
    assert_eq!(ipc_receive_current(&mut scheduler, receiver), Ok(None));
    scheduler.as_mut().unwrap().tasks[0].tgid = 99;
    assert_eq!(ipc_receive_current(&mut scheduler, receiver), Ok(Some(b"first".to_vec())));
    assert!(ipc_send_current(&mut scheduler, sender, &[0; 300]).is_err());
    assert!(ipc_revoke_current(&mut scheduler, sender).is_ok());
    assert!(ipc_send_current(&mut scheduler, sender, b"third").is_err());
}

#[test]
fn ready_descriptors_are_reported() {
    let mut shared = Shared::new();
    let mut scheduler = running(&mut shared);
    let epoll = epoll_create1_current(&mut scheduler, &mut shared, 0).unwrap();
    let event = eventfd_current(&mut scheduler, &mut shared, 3, 0).unwrap();
    assert!(epoll_ctl_current(&mut scheduler, epoll, 1, event, 1, 99).is_ok());
    assert_eq!(epoll_wait_current(&scheduler, epoll, 8), Ok(vec![(1, 99)]));
    assert!(matches!(
        read_current(&mut scheduler, event, 8),
        Ok(Reading::Bytes(bytes)) if bytes == 3_u64.to_le_bytes()
    ));
    assert_eq!(epoll_wait_current(&scheduler, epoll, 8), Ok(Vec::new()));
}

#[test]
fn tasks_take_turns() {
    let mut shared = Shared::new();
    let mut scheduler = running_two(&mut shared);
    assert_eq!(task_count(&scheduler), 2);
    let first = current_pid(&scheduler);
    let registers = context(&scheduler);
    let target = yield_current(scheduler.as_mut().unwrap(), registers);
    assert_eq!(target.context.instruction_pointer, 0x50_0000);
    assert_ne!(current_pid(&scheduler), first);
    let interrupted = InterruptContext::initial(0x50_0000, 0x7fff_0000);
    assert!(timer_tick(&mut scheduler, &interrupted).is_none());
    assert!(timer_tick(&mut scheduler, &interrupted).is_none());
    assert!(timer_tick(&mut scheduler, &interrupted).is_some());
    assert_eq!(current_pid(&scheduler), first);
}

#[test]
fn a_waiter_is_woken() {
    let mut shared = Shared::new();
    let mut scheduler = running_two(&mut shared);
    let registers = context(&scheduler);
    let waiting = current_pid(&scheduler);
    futex_wait_current(scheduler.as_mut().unwrap(), 0x1000, u32::MAX, registers);
    assert_ne!(current_pid(&scheduler), waiting);
    assert_eq!(futex_wake(&mut scheduler, 0x2000, 1, u32::MAX), 0);
    assert_eq!(futex_wake(&mut scheduler, 0x1000, 1, u32::MAX), 1);
    assert_eq!(futex_wake(&mut scheduler, 0x1000, 1, u32::MAX), 0);
}

#[test]
fn some_signals_cannot_be_blocked() {
    let mut shared = Shared::new();
    let mut scheduler = running(&mut shared);
    set_current_blocked_mask(&mut scheduler, u64::MAX);
    assert_eq!(current_blocked_mask(&scheduler), u64::MAX & !0x4_0100);
    let action = LinuxSigAction {
        sa_handler: 0x40_1000,
        sa_flags: 0,
        sa_restorer: 0,
        sa_mask: 0,
    };
    assert!(set_signal_action(&mut scheduler, 2, action).is_ok());
    assert_eq!(signal_action(&scheduler, 2), Some(action));
    assert!(set_signal_action(&mut scheduler, 9, action).is_err());
    assert!(matches!(default_signal_action(17), SignalDefaultAction::Ignore));
    assert!(matches!(default_signal_action(9), SignalDefaultAction::Terminate));
}

#[test]
fn the_terminal_takes_keys_and_serial_bytes() {
    let mut shared = Shared::new();
    let (bytes, serial, keys) = read_tty(&mut shared, b"ab", &[0x23, 0x1c], 8);
    assert_eq!(serial, 2);
    assert!(keys <= 2);
    assert_eq!(&bytes[..2], b"ab");
}

#[test]
fn only_an_owner_changes_a_path() {
    let mut shared = Shared::new();
    let scheduler = running(&mut shared);
    assert!(can_mutate_path(&scheduler, b"/etc/config"));
    assert!(!can_mutate_path(&None, b"/etc/config"));
}

#[test]
fn a_pair_of_sockets_keeps_the_order_of_bytes() {
    let mut shared = Shared::new();
    let mut scheduler = running(&mut shared).unwrap();
    let mut unix = UnixSockets::new();
    let (first, second) = create_socketpair(&mut unix, 1).unwrap();
    assert_eq!(send_af_unix(&mut unix, &mut scheduler, first, b"hel", Vec::new()), Ok(3));
    assert_eq!(send_af_unix(&mut unix, &mut scheduler, first, b"lo", Vec::new()), Ok(2));
    let (bytes, descriptors) = recv_af_unix(&mut unix, second, 16).unwrap();
    assert_eq!(bytes, b"hello");
    assert!(descriptors.is_empty());
    close(&mut unix, &mut scheduler, first);
    let (rest, _) = recv_af_unix(&mut unix, second, 16).unwrap();
    assert!(rest.is_empty());
}

#[test]
fn a_bound_socket_is_connected_to() {
    let mut shared = Shared::new();
    let mut scheduler = running(&mut shared).unwrap();
    let mut unix = UnixSockets::new();
    let listener = create_socket(&mut unix, 1).unwrap();
    let client = create_socket(&mut unix, 1).unwrap();
    let address = UnixAddress::Path(b"/run/service".to_vec());
    assert!(connect_af_unix(&mut unix, &mut scheduler, client, &address).is_err());
    bind_af_unix(&mut unix, listener, &address).unwrap();
    assert!(bind_af_unix(&mut unix, client, &address).is_err());
    listen_af_unix(&mut unix, listener, 4).unwrap();
    assert!(connect_af_unix(&mut unix, &mut scheduler, client, &address).is_ok());
    let served = accept_af_unix(&mut unix, listener, true).unwrap();
    send_af_unix(&mut unix, &mut scheduler, client, b"hi", Vec::new()).unwrap();
    assert_eq!(recv_af_unix(&mut unix, served, 8).unwrap().0, b"hi");
    assert!(accept_af_unix(&mut unix, listener, true).is_err());
}

#[test]
fn datagrams_keep_their_bounds() {
    let mut shared = Shared::new();
    let mut scheduler = running(&mut shared).unwrap();
    let mut unix = UnixSockets::new();
    let (first, second) = create_socketpair(&mut unix, 2).unwrap();
    send_af_unix(&mut unix, &mut scheduler, first, b"one", Vec::new()).unwrap();
    send_af_unix(&mut unix, &mut scheduler, first, b"two", Vec::new()).unwrap();
    assert_eq!(recv_af_unix(&mut unix, second, 16).unwrap().0, b"one");
    assert_eq!(recv_af_unix(&mut unix, second, 16).unwrap().0, b"two");
}

#[test]
fn native_calls_are_told_apart() {
    assert!(matches!(native_call(0xffff), NativeCall::Unknown));
}

#[test]
fn an_ended_child_is_told_of_once() {
    let mut shared = Shared::new();
    let mut scheduler = running_two(&mut shared);
    let tasks = &mut scheduler.as_mut().unwrap().tasks;
    let (parent, child) = (tasks[0].tgid, tasks[1].tgid);
    tasks[1].parent_pid = Some(parent);
    assert_eq!(wait_child_current(&mut scheduler, child), Ok(None));
    scheduler.as_mut().unwrap().tasks[1].state = TaskState::Zombie { exit_code: 7 };
    assert_eq!(wait_child_current(&mut scheduler, child), Ok(Some((child, 7))));
    assert_eq!(wait_child_current(&mut scheduler, child), Ok(None));
    assert_eq!(wait_child_current(&mut scheduler, child + 100), Err(()));
}

#[test]
fn messages_do_not_overtake() {
    let mut shared = Shared::new();
    let mut scheduler = running(&mut shared);
    let (sender, receiver) = open_ipc_pair_current(&mut scheduler, &mut shared).unwrap();
    for text in [&b"one"[..], b"two", b"three"] {
        assert!(ipc_send_current(&mut scheduler, sender, text).is_ok());
    }
    scheduler.as_mut().unwrap().tasks[0].tgid = 99;
    for text in [&b"one"[..], b"two", b"three"] {
        assert_eq!(ipc_receive_current(&mut scheduler, receiver), Ok(Some(text.to_vec())));
    }
    assert_eq!(ipc_receive_current(&mut scheduler, receiver), Ok(None));
}

#[test]
fn a_copied_descriptor_shares_the_position() {
    let mut shared = Shared::new();
    let mut scheduler = running(&mut shared);
    let (reader, writer) = open_pipe_current(&mut scheduler, &mut shared).unwrap();
    let copy = duplicate_current(&mut scheduler, reader).unwrap();
    assert_ne!(copy, reader);
    assert!(write_current(&mut scheduler, writer, b"data").is_ok());
    assert!(matches!(
        read_current(&mut scheduler, reader, 2),
        Ok(Reading::Bytes(bytes)) if bytes == b"da"
    ));
    assert!(matches!(
        read_current(&mut scheduler, copy, 2),
        Ok(Reading::Bytes(bytes)) if bytes == b"ta"
    ));
    assert!(duplicate_current(&mut scheduler, 200).is_err());
}

#[test]
fn a_processor_gets_its_own_block() {
    let local = initialize_cpu_local(3, 0x10_0000).unwrap();
    assert_eq!(current_cpu_index(&local), 3);
    assert_eq!(local.self_pointer, 0x10_0000);
    assert_eq!(local.syscall_stack_top, 0x12_0010);
    assert_eq!(initialize_cpu_local(7, 0x10_0008).unwrap().syscall_stack_top, 0x12_0010);
    assert_eq!((local.user_rsp, local.exit_code), (0, 0));
    assert!(initialize_cpu_local(8, 0).is_none());
    assert_eq!(syscall_stack_top(0x1008), 0x2_1000);
}
