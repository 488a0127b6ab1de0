//! Keys, pointers, the screen, the shell, clocks and chance.
use vanta::apic::{lapic_id, rearm_timer, tsc_frequency_hz, ApicMode, ClockLeaves, TimerPlan};
use vanta::acpi::{IoApicDescriptor, MadtInfo};
use vanta::framebuffer::{Geometry, Writer};
use vanta::input::{inject_key, inject_mouse_motion, poll_event, EventQueue, EVENT_KEY};
use vanta::interrupts::{
    end_of_interrupt, initialize_timer, page_fault_begin, page_fault_next, use_ioapic, Attempt,
    Controller, EndOfInterrupt, FaultAction, HwIrq, PageFaultContext,
};
use vanta::ioapic::{mask_irq, program, route_irq, IoApicError};
use vanta::keyboard::{pop_scancode, push_scancode, KeyboardState};
use vanta::mouse::{process_byte, MousePacket};
use vanta::pty::{close_master, create_pty, get_pty, list_ptys, PtyState, PtyTable, SIGINT};
use vanta::random::{
    active_entropy_source, chacha_block, get_hardware_entropy, get_random_bytes, init,
    quarter_round, ChaCha20Csprng, EntropySource, Filling, RandomState, Reading,
};
use vanta::serial::has_byte;
use vanta::shell::{described, parse_command, shown_contents, Command, KeyAction, Shell};
use vanta::smp::{plan_bootstrap, reported_cpu_count, MpReport, SmpState};

#[test]
fn scancodes_come_out_in_the_order_they_went_in() {
    let mut keyboard = KeyboardState::new();
    let mut events = EventQueue::new();
    assert!(!push_scancode(&mut keyboard, &mut events, 0x1e));
    assert!(!push_scancode(&mut keyboard, &mut events, 0x9e));
    assert_eq!(pop_scancode(&mut keyboard), Some(0x1e));
    assert_eq!(pop_scancode(&mut keyboard), Some(0x9e));
    assert_eq!(pop_scancode(&mut keyboard), None);
    assert_eq!(poll_event(&mut events).unwrap().event_type, EVENT_KEY);
}

#[test]
fn a_full_queue_of_scancodes_drops_the_newest() {
    let mut keyboard = KeyboardState::new();
    let mut events = EventQueue::new();
    for code in 0..70 {
        push_scancode(&mut keyboard, &mut events, code);
    }
    for code in 0..64 {
        assert_eq!(pop_scancode(&mut keyboard), Some(code));
    }
    assert_eq!(pop_scancode(&mut keyboard), None);
}

#[test]
fn control_c_interrupts() {
    let mut keyboard = KeyboardState::new();
    let mut events = EventQueue::new();
    assert!(!push_scancode(&mut keyboard, &mut events, 0x1d));
    assert!(push_scancode(&mut keyboard, &mut events, 0x2e));
    assert!(!push_scancode(&mut keyboard, &mut events, 0x9d));
    assert!(!push_scancode(&mut keyboard, &mut events, 0x2e));
}

#[test]
fn the_newest_events_are_kept() {
    let mut queue = EventQueue::new();
    for code in 0..300 {
        inject_key(&mut queue, code, true);
    }
    assert_eq!(poll_event(&mut queue).unwrap().code, 44);
    let mut moved = EventQueue::new();
    inject_mouse_motion(&mut moved, 3, -2, 1);
    let event = poll_event(&mut moved).unwrap();
    assert_eq!((event.x, event.y, event.code), (3, -2, 1));
    assert!(poll_event(&mut moved).is_none());
}

#[test]
fn three_bytes_make_a_motion() {
    let mut packet = MousePacket::new();
    let mut queue = EventQueue::new();
    process_byte(&mut packet, &mut queue, 0x09);
    process_byte(&mut packet, &mut queue, 5);
    assert!(poll_event(&mut queue).is_none());
    process_byte(&mut packet, &mut queue, 7);
    let event = poll_event(&mut queue).unwrap();
    assert_eq!((event.x, event.y), (5, -7));
}

fn type_line(codes: &[u8]) -> Vec<KeyAction> {
    let mut keyboard = KeyboardState::new();
    let mut events = EventQueue::new();
    let mut shell = Shell::new();
    let mut actions = Vec::new();
    for &code in codes {
        push_scancode(&mut keyboard, &mut events, code);
        actions.push(shell.step(&mut keyboard).unwrap());
    }
    assert!(shell.step(&mut keyboard).is_none());
    actions
}

#[test]
fn a_typed_line_runs() {
    // l, s and the line's end, each pressed and let go.
    let actions = type_line(&[0x26, 0xa6, 0x1f, 0x9f, 0x1c]);
    assert!(matches!(actions[0], KeyAction::Show('l')));
    assert!(matches!(actions[1], KeyAction::Nothing));
    assert!(matches!(actions[2], KeyAction::Show('s')));
    assert!(matches!(actions[4], KeyAction::Execute(Command::List)));
}

#[test]
fn a_letter_can_be_erased() {
    let actions = type_line(&[0x26, 0x0e, 0x0e, 0x1c]);
    assert!(matches!(actions[1], KeyAction::Erase));
    assert!(matches!(actions[2], KeyAction::Nothing));
    assert!(matches!(actions[3], KeyAction::Execute(Command::Nothing)));
}

fn command(text: &str) -> Command {
    let chars: Vec<char> = text.chars().collect();
    parse_command(&chars)
}

#[test]
fn commands_are_told_apart() {
    assert!(matches!(command("help"), Command::Help));
    assert!(matches!(command("status"), Command::Status));
    assert!(matches!(command(" status"), Command::Unknown(_)));
    assert!(matches!(command("cat /etc/motd"), Command::Cat(path)
        if path == "/etc/motd".chars().collect::<Vec<char>>()));
    assert!(matches!(command("write /a hello there"), Command::Write(_, text)
        if text == "hello there".chars().collect::<Vec<char>>()));
    assert!(matches!(command("write /a"), Command::WriteUsage));
    assert!(matches!(command("mv /a"), Command::MoveUsage));
    assert!(matches!(command("frobnicate"), Command::Unknown(_)));
}

#[test]
fn contents_are_shown_byte_by_byte_and_end_their_line() {
    let shown: String = shown_contents(b"text\n").into_iter().collect();
    assert_eq!(shown, "text\n");
    let open: String = shown_contents(&[b'a', 0xe9]).into_iter().collect();
    assert_eq!(open, "a\u{e9}\n");
}

fn screen() -> Writer {
    let geometry = Geometry {
        width: 64,
        height: 48,
        pitch: 256,
        bpp: 4,
        red_shift: 16,
        green_shift: 8,
        blue_shift: 0,
    };
    Writer::new(vec![0x55; 256 * 48], geometry)
}

#[test]
fn a_letter_leaves_ink_and_a_space_does_not() {
    let mut writer = screen();
    let blank = writer.memory.clone();
    assert!(blank.iter().all(|&byte| byte != 0x55) || blank.iter().all(|&byte| byte == blank[0]));
    let before = writer.x;
    writer.write_char(' ');
    assert_eq!(writer.memory, blank);
    writer.write_char('A');
    assert_ne!(writer.memory, blank);
    assert_eq!(writer.x, before + 14);
}

#[test]
fn text_moves_to_the_next_line() {
    let mut writer = screen();
    let line = writer.y;
    writer.write_chars(&['a', '\n', 'b']);
    assert_eq!(writer.y, line + 18);
    assert_eq!(writer.x, 4 + 7);
    writer.clear();
    assert_eq!((writer.x, writer.y), (4, 4));
}

#[test]
fn the_quarter_round_mixes_as_published() {
    let mut state = [0_u32; 16];
    state[0] = 0x1111_1111;
    state[1] = 0x0102_0304;
    state[2] = 0x9b8d_6f43;
    state[3] = 0x0123_4567;
    quarter_round(&mut state, 0, 1, 2, 3);
    assert_eq!(state[..4], [0xea2a_92f4, 0xcb1c_f8ce, 0x4581_472e, 0x5881_c4bb]);
}

#[test]
fn a_block_of_the_cipher_is_as_published() {
    let mut state = [0_u32; 16];
    state[0] = 0x6170_7865;
    state[1] = 0x3320_646e;
    state[2] = 0x7962_2d32;
    state[3] = 0x6b20_6574;
    for i in 0..8_u32 {
        let first = 4 * i;
        state[4 + i as usize] =
            first | (first + 1) << 8 | (first + 2) << 16 | (first + 3) << 24;
    }
    state[12] = 1;
    state[13] = 0x0900_0000;
    state[14] = 0x4a00_0000;
    state[15] = 0;
    let block = chacha_block(&state);
    assert_eq!(block[..8], [0x10, 0xf1, 0xe7, 0xe4, 0xd1, 0x3b, 0x59, 0x15]);
    assert_eq!(block.len(), 64);
}

#[test]
fn chance_asks_for_a_seed_first() {
    let mut state = RandomState {
        csprng: ChaCha20Csprng::new(),
        source: init(false, true),
        jitter: 1,
    };
    assert!(matches!(active_entropy_source(&state), EntropySource::RdRand));
    let mut bytes = [0_u8; 100];
    assert!(matches!(get_random_bytes(&mut state, &mut bytes, 0), Filling::NeedsSeed(0)));
    state.csprng.seed_with_entropy(&[7; 18]);
    assert!(matches!(get_random_bytes(&mut state, &mut bytes, 0), Filling::Done(100)));
    assert!(bytes.iter().any(|&byte| byte != 0));
}

#[test]
fn the_best_source_that_answers_is_used() {
    assert!(matches!(init(true, true), EntropySource::VirtioRng));
    assert!(matches!(init(false, false), EntropySource::RdtscFallback));
    let mut jitter = 5;
    let reading = Reading {
        virtio: Some(11),
        rdrand: Some(22),
        tsc: 33,
    };
    assert_eq!(get_hardware_entropy(reading, &mut jitter), 11);
}

#[test]
fn a_terminal_keeps_a_line_until_it_ends() {
    let mut pty = PtyState::new(0);
    assert!(pty.write_master(b"ls").is_empty());
    assert!(pty.read_slave(16).map_or(true, |bytes| bytes.is_empty()));
    pty.write_master(b"\r");
    assert_eq!(pty.read_slave(16).unwrap(), b"ls\n");
    assert!(pty.write_master(&[3]).is_empty());
    pty.fg_pgrp = 7;
    assert_eq!(pty.write_master(&[3]), vec![SIGINT]);
}

#[test]
fn a_raw_terminal_passes_bytes_through() {
    let mut pty = PtyState::new(0);
    pty.termios.c_lflag = 0;
    pty.termios.c_iflag = 0;
    pty.write_master(&[3, 13, 127]);
    assert_eq!(pty.read_slave(16).unwrap(), vec![3, 13, 127]);
}

#[test]
fn terminals_are_numbered_and_closed() {
    let mut table = PtyTable::new();
    assert_eq!(create_pty(&mut table), 0);
    assert_eq!(create_pty(&mut table), 1);
    assert_eq!(list_ptys(&table), vec![0, 1]);
    assert!(get_pty(&table, 1).unwrap().master_open);
    close_master(&mut table, 1);
    assert!(get_pty(&table, 1).map_or(true, |pty| !pty.master_open));
}

#[test]
fn interrupts_are_numbered_from_the_first_vector() {
    assert_eq!(HwIrq::Timer.as_u8(), 32);
    assert_eq!(HwIrq::Keyboard.as_u8(), 33);
    let mut controller = Controller::Pic;
    assert!(matches!(end_of_interrupt(controller, HwIrq::Keyboard), EndOfInterrupt::Pic(33)));
    use_ioapic(&mut controller);
    assert!(matches!(end_of_interrupt(controller, HwIrq::Keyboard), EndOfInterrupt::LocalApic));
    assert_eq!(initialize_timer(100), Some((0x9b, 0x2e)));
    assert_eq!(initialize_timer(0), None);
}

fn fault(error_code: u64, cs: u64) -> PageFaultContext {
    PageFaultContext {
        r15: 0,
        r14: 0,
        r13: 0,
        r12: 0,
        r11: 0,
        r10: 0,
        r9: 0,
        r8: 0,
        rdi: 0,
        rsi: 0,
        rbp: 0,
        rdx: 0,
        rcx: 0,
        rbx: 0,
        rax: 0,
        error_code,
        rip: 0x40_0000,
        cs,
        rflags: 0,
        rsp: 0,
        ss: 0,
    }
}

#[test]
fn a_resolved_fault_resumes() {
    let context = fault(0x7, 0x23);
    let first = page_fault_begin(&context);
    assert!(matches!(first, FaultAction::ResolveCow));
    assert!(matches!(
        page_fault_next(&context, 0x1000, first, Attempt::Resolved),
        FaultAction::Resume
    ));
}

#[test]
fn the_interrupt_router_is_programmed() {
    let madt = MadtInfo {
        local_apic_address: 0xfee0_0000,
        flags: 0,
        enabled_processors: 1,
        io_apics: 1,
        interrupt_source_overrides: 0,
        io_apic: Some(IoApicDescriptor {
            physical_address: 0xfec0_0000,
            global_irq_base: 0,
        }),
        timer_gsi: 2,
        keyboard_gsi: 1,
    };
    let (state, writes, result) = program(madt, 0, 0x0017_0011);
    assert_eq!(result.unwrap().entries, 24);
    assert_eq!(writes.len(), 4);
    assert!(writes.iter().any(|write| write.register == 0x14 && write.value == 32));
    assert!(writes.iter().any(|write| write.register == 0x12 && write.value == 33));
    assert!(route_irq(state, 11, 43, true, true).is_ok());
    assert_eq!(route_irq(state, 24, 43, true, true).err(), Some(IoApicError::GsiOutOfRange));
    assert_eq!(route_irq(None, 1, 43, true, true).err(), Some(IoApicError::Missing));
    let masked = mask_irq(state, 1, true, 33).unwrap();
    assert_eq!(masked.value, 0x1_0021);
    assert_eq!(mask_irq(state, 1, false, masked.value).unwrap().value, 33);
}

#[test]
fn clocks_are_worked_out_from_the_processor() {
    let leaves = ClockLeaves {
        highest: 0x16,
        denominator: 2,
        numerator: 200,
        crystal_hz: 24_000_000,
        base_mhz: 0,
    };
    assert_eq!(tsc_frequency_hz(leaves), Some(2_400_000_000));
    assert_eq!(lapic_id(ApicMode::XApic, 0x0300_0000), 3);
    assert_eq!(lapic_id(ApicMode::X2Apic, 3), 3);
    assert_eq!(rearm_timer(TimerPlan::Deadline { delta: 10 }, 5), Some(15));
    assert_eq!(rearm_timer(TimerPlan::Off, 5), None);
}

#[test]
fn processors_are_prepared_in_order() {
    let report = MpReport {
        lapic_ids: vec![0, 1, 2],
        bsp_lapic_id: 0,
        flags: 0,
    };
    assert_eq!(reported_cpu_count(Some(&report)), 3);
    assert_eq!(reported_cpu_count(None), 1);
    let mut state = SmpState::new();
    let started = plan_bootstrap(&mut state, &report, 2);
    assert_eq!(started, vec![1]);
}

#[test]
fn a_received_byte_sets_the_lowest_bit() {
    assert!(has_byte(0x61));
    assert!(!has_byte(0x60));
}

#[test]
fn a_directory_has_no_length() {
    let path: Vec<char> = "/bin".chars().collect();
    let text: String = described(&path, true, 512, 1).into_iter().collect();
    assert_eq!(text, "/bin: directory 0 (1 sector)\n");
    let text: String = described(&path, false, 700, 2).into_iter().collect();
    assert_eq!(text, "/bin: file 700 (2 sectors)\n");
}
