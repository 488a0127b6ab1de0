//! Pseudo-terminals: pairs of a master and a slave with a line discipline
//! between them, which edits lines, echoes and raises signals.
use vstd::prelude::*;

pub mod laws;

use crate::bytes::{drain_front, push_all};
use crate::ordmap::OrdMap;

verus! {

pub const ICRNL: u32 = 0x0100;

pub const IXON: u32 = 0x0400;

pub const OPOST: u32 = 0x0001;

pub const ONLCR: u32 = 0x0004;

pub const CS8: u32 = 0x0030;

pub const CREAD: u32 = 0x0080;

pub const B38400: u32 = 0x000f;

pub const ISIG: u32 = 0x0001;

pub const ICANON: u32 = 0x0002;

pub const ECHO: u32 = 0x0008;

pub const ECHOE: u32 = 0x0010;

pub const ECHOK: u32 = 0x0020;

pub const ECHOCTL: u32 = 0x0200;

pub const ECHOKE: u32 = 0x0800;

pub const IEXTEN: u32 = 0x8000;

pub const SIGINT: u32 = 2;

pub const SIGQUIT: u32 = 3;

pub const SIGTSTP: u32 = 20;

/// How a terminal treats what is typed and printed.
#[derive(Clone, Copy, Debug)]
pub struct Termios {
    pub c_iflag: u32,
    pub c_oflag: u32,
    pub c_cflag: u32,
    pub c_lflag: u32,
    pub c_line: u8,
    pub c_cc: [u8; 32],
    pub c_ispeed: u32,
    pub c_ospeed: u32,
}

/// The control characters of a new terminal.
pub open spec fn default_characters() -> Seq<u8> {
    seq![
        3u8, 28, 127, 21, 4, 0, 1, 0, 17, 19, 26, 0, 18, 15, 23, 22, 0, 0, 0, 0, 0, 0, 0, 0, 0, 0,
        0, 0, 0, 0, 0, 0,
    ]
}

pub open spec fn is_default(t: Termios) -> bool {
    &&& t.c_iflag == ICRNL | IXON
    &&& t.c_oflag == OPOST | ONLCR
    &&& t.c_cflag == B38400 | CS8 | CREAD
    &&& t.c_lflag == ISIG | ICANON | ECHO | ECHOE | ECHOK | ECHOCTL | ECHOKE | IEXTEN
    &&& t.c_line == 0
    &&& t.c_cc@ == default_characters()
    &&& t.c_ispeed == 38400
    &&& t.c_ospeed == 38400
}

impl Default for Termios {
    fn default() -> (r: Self)
        ensures
            is_default(r),
    {
        let c_cc: [u8; 32] = [
            3, 28, 127, 21, 4, 0, 1, 0, 17, 19, 26, 0, 18, 15, 23, 22, 0, 0, 0, 0, 0, 0, 0, 0, 0, 0,
            0, 0, 0, 0, 0, 0,
        ];
        assert(c_cc@ =~= default_characters());
        Termios {
            c_iflag: ICRNL | IXON,
            c_oflag: OPOST | ONLCR,
            c_cflag: B38400 | CS8 | CREAD,
            c_lflag: ISIG | ICANON | ECHO | ECHOE | ECHOK | ECHOCTL | ECHOKE | IEXTEN,
            c_line: 0,
            c_cc,
            c_ispeed: 38400,
            c_ospeed: 38400,
        }
    }
}

/// The size of a terminal, in characters and in pixels.
#[derive(Clone, Copy, Debug, PartialEq, Eq, Structural)]
pub struct WinSize {
    pub ws_row: u16,
    pub ws_col: u16,
    pub ws_xpixel: u16,
    pub ws_ypixel: u16,
}

impl Default for WinSize {
    fn default() -> (r: Self)
        ensures
            r == (WinSize { ws_row: 24, ws_col: 80, ws_xpixel: 1280, ws_ypixel: 800 }),
    {
        WinSize { ws_row: 24, ws_col: 80, ws_xpixel: 1280, ws_ypixel: 800 }
    }
}

/// One pseudo-terminal.
#[derive(Debug)]
pub struct PtyState {
    pub id: u32,
    pub master_open: bool,
    pub slave_open: bool,
    pub locked: bool,
    pub master_to_slave: Vec<u8>,
    pub line_buf: Vec<u8>,
    pub slave_to_master: Vec<u8>,
    pub termios: Termios,
    pub winsize: WinSize,
    pub fg_pgrp: u32,
    pub session_id: u32,
}

#[verifier::ext_equal]
pub struct PtyView {
    pub id: u32,
    pub master_open: bool,
    pub slave_open: bool,
    pub locked: bool,
    pub master_to_slave: Seq<u8>,
    pub line_buf: Seq<u8>,
    pub slave_to_master: Seq<u8>,
    pub termios: Termios,
    pub winsize: WinSize,
    pub fg_pgrp: u32,
    pub session_id: u32,
}

impl View for PtyState {
    type V = PtyView;

    open spec fn view(&self) -> PtyView {
        PtyView {
            id: self.id,
            master_open: self.master_open,
            slave_open: self.slave_open,
            locked: self.locked,
            master_to_slave: self.master_to_slave@,
            line_buf: self.line_buf@,
            slave_to_master: self.slave_to_master@,
            termios: self.termios,
            winsize: self.winsize,
            fg_pgrp: self.fg_pgrp,
            session_id: self.session_id,
        }
    }
}

// ---------------------------------------------------------------------------
// The line discipline
// ---------------------------------------------------------------------------
pub open spec fn is_on(flags: u32, flag: u32) -> bool {
    flags & flag != 0
}

/// Whether a byte is a control character that is in use.
pub open spec fn is_control(t: Termios, index: int, byte: u8) -> bool {
    t.c_cc@[index] == byte && byte != 0
}

/// The signal that a byte raises, and how it is shown.
pub open spec fn signal_of(t: Termios, byte: u8) -> Option<(u32, Seq<u8>)> {
    if !is_on(t.c_lflag, ISIG) {
        None
    } else if is_control(t, 0, byte) {
        Some((SIGINT, seq![0x5eu8, 0x43, 10]))
    } else if is_control(t, 10, byte) {
        Some((SIGTSTP, seq![0x5eu8, 0x5a, 10]))
    } else if is_control(t, 1, byte) {
        Some((SIGQUIT, seq![0x5eu8, 0x5c, 10]))
    } else {
        None
    }
}

pub open spec fn echoed(p: PtyView, shown: Seq<u8>) -> PtyView {
    if is_on(p.termios.c_lflag, ECHO) {
        PtyView { slave_to_master: p.slave_to_master + shown, ..p }
    } else {
        p
    }
}

/// What is printed of a byte: a line feed may get a carriage return.
pub open spec fn printed(t: Termios, byte: u8) -> Seq<u8> {
    if byte == 10 && is_on(t.c_oflag, ONLCR) {
        seq![13u8, 10]
    } else {
        seq![byte]
    }
}

/// What a byte is read as: a carriage return may become a line feed.
pub open spec fn read_as(t: Termios, byte: u8) -> u8 {
    if byte == 13 && is_on(t.c_iflag, ICRNL) {
        10
    } else {
        byte
    }
}

/// The line handed to the slave.
pub open spec fn line_done(p: PtyView) -> PtyView {
    PtyView { master_to_slave: p.master_to_slave + p.line_buf, line_buf: Seq::empty(), ..p }
}

/// One byte that is typed, without signals.
pub open spec fn edited(p: PtyView, byte: u8) -> PtyView {
    let t = p.termios;
    if is_on(t.c_lflag, ICANON) {
        if is_control(t, 2, byte) || byte == 0x7f || byte == 0x08 {
            if p.line_buf.len() > 0 {
                let q = PtyView { line_buf: p.line_buf.drop_last(), ..p };
                if is_on(t.c_lflag, ECHOE) {
                    echoed(q, seq![8u8, 32, 8])
                } else {
                    q
                }
            } else {
                p
            }
        } else if is_control(t, 4, byte) {
            if p.line_buf.len() > 0 {
                line_done(p)
            } else {
                p
            }
        } else if byte == 13 || byte == 10 {
            let ch = read_as(t, byte);
            line_done(
                echoed(PtyView { line_buf: p.line_buf.push(ch), ..p }, printed(t, ch)),
            )
        } else {
            echoed(PtyView { line_buf: p.line_buf.push(byte), ..p }, seq![byte])
        }
    } else {
        let ch = read_as(t, byte);
        echoed(
            PtyView { master_to_slave: p.master_to_slave.push(ch), ..p },
            printed(t, ch),
        )
    }
}

/// One byte that is typed, and the signal for the foreground group.
pub open spec fn typed(p: PtyView, byte: u8) -> (PtyView, Seq<u32>) {
    match signal_of(p.termios, byte) {
        Some((signal, shown)) => {
            let q = if signal == SIGINT {
                PtyView { line_buf: Seq::empty(), ..p }
            } else {
                p
            };
            (
                echoed(q, shown),
                if p.fg_pgrp != 0 {
                    seq![signal]
                } else {
                    Seq::empty()
                },
            )
        },
        None => (edited(p, byte), Seq::empty()),
    }
}

/// Bytes that are typed, and the signals for the foreground group.
pub open spec fn all_typed(p: PtyView, bytes: Seq<u8>) -> (PtyView, Seq<u32>)
    decreases bytes.len(),
{
    if bytes.len() == 0 {
        (p, Seq::empty())
    } else {
        let (q, before) = all_typed(p, bytes.drop_last());
        let (r, signals) = typed(q, bytes.last());
        (r, before + signals)
    }
}

/// What is printed of bytes.
pub open spec fn all_printed(t: Termios, bytes: Seq<u8>) -> Seq<u8>
    decreases bytes.len(),
{
    if bytes.len() == 0 {
        Seq::empty()
    } else {
        all_printed(t, bytes.drop_last()) + printed(t, bytes.last())
    }
}

/// What a reader finds in a buffer, and what is left. An empty buffer is the
/// end only where the other side is closed.
pub open spec fn taken(buffer: Seq<u8>, other_open: bool, length: usize) -> (
    Seq<u8>,
    Result<Seq<u8>, ()>,
) {
    if buffer.len() == 0 {
        if other_open {
            (buffer, Err(()))
        } else {
            (buffer, Ok(Seq::empty()))
        }
    } else {
        let n = if buffer.len() <= length {
            buffer.len() as int
        } else {
            length as int
        };
        (buffer.skip(n), Ok(buffer.take(n)))
    }
}

fn take_bytes(buffer: &mut Vec<u8>, other_open: bool, length: usize) -> (r: Result<Vec<u8>, ()>)
    ensures
        match r {
            Ok(bytes) => taken(old(buffer)@, other_open, length) == (
                final(buffer)@,
                Ok::<Seq<u8>, ()>(bytes@),
            ),
            Err(_) => taken(old(buffer)@, other_open, length) == (
                final(buffer)@,
                Err::<Seq<u8>, ()>(()),
            ),
        },
{
    if buffer.len() == 0 {
        if !other_open {
            let none: Vec<u8> = Vec::new();
            assert(none@ =~= Seq::<u8>::empty());
            return Ok(none);
        }
        return Err(());
    }
    let n: usize = if buffer.len() <= length {
        buffer.len()
    } else {
        length
    };
    Ok(drain_front(buffer, n))
}

impl PtyState {
    pub fn new(id: u32) -> (r: Self)
        ensures
            is_default(r.termios),
            r@ == (PtyView {
                id,
                master_open: true,
                slave_open: false,
                locked: true,
                master_to_slave: Seq::empty(),
                line_buf: Seq::empty(),
                slave_to_master: Seq::empty(),
                termios: r.termios,
                winsize: WinSize { ws_row: 24, ws_col: 80, ws_xpixel: 1280, ws_ypixel: 800 },
                fg_pgrp: 0,
                session_id: 0,
            }),
    {
        let r = PtyState {
            id,
            master_open: true,
            slave_open: false,
            locked: true,
            master_to_slave: Vec::new(),
            line_buf: Vec::new(),
            slave_to_master: Vec::new(),
            termios: Termios::default(),
            winsize: WinSize::default(),
            fg_pgrp: 0,
            session_id: 0,
        };
        assert(r.master_to_slave@ =~= Seq::<u8>::empty());
        r
    }

    fn echo(&mut self, shown: &[u8])
        ensures
            final(self)@ == echoed(old(self)@, shown@),
    {
        if self.termios.c_lflag & ECHO != 0 {
            push_all(&mut self.slave_to_master, shown);
        }
    }

    fn echo_printed(&mut self, byte: u8)
        ensures
            final(self)@ == echoed(old(self)@, printed(old(self).termios, byte)),
    {
        if byte == 10 && self.termios.c_oflag & ONLCR != 0 {
            let shown: [u8; 2] = [13, 10];
            assert(shown@ =~= seq![13u8, 10]);
            self.echo(&shown);
        } else {
            let shown: [u8; 1] = [byte];
            assert(shown@ =~= seq![byte]);
            self.echo(&shown);
        }
    }

    fn end_line(&mut self)
        ensures
            final(self)@ == line_done(old(self)@),
    {
        self.master_to_slave.append(&mut self.line_buf);
        assert(self@ =~= line_done(old(self)@));
    }

    fn find_signal(&self, byte: u8) -> (r: Option<(u32, [u8; 3])>)
        ensures
            match r {
                Some((signal, shown)) => signal_of(self.termios, byte) == Some((signal, shown@)),
                None => signal_of(self.termios, byte) is None,
            },
    {
        if self.termios.c_lflag & ISIG == 0 || byte == 0 {
            return None;
        }
        if self.termios.c_cc[0] == byte {
            let shown: [u8; 3] = [0x5e, 0x43, 10];
            assert(shown@ =~= seq![0x5eu8, 0x43, 10]);
            return Some((SIGINT, shown));
        }
        if self.termios.c_cc[10] == byte {
            let shown: [u8; 3] = [0x5e, 0x5a, 10];
            assert(shown@ =~= seq![0x5eu8, 0x5a, 10]);
            return Some((SIGTSTP, shown));
        }
        if self.termios.c_cc[1] == byte {
            let shown: [u8; 3] = [0x5e, 0x5c, 10];
            assert(shown@ =~= seq![0x5eu8, 0x5c, 10]);
            return Some((SIGQUIT, shown));
        }
        None
    }

    fn edit(&mut self, byte: u8)
        ensures
            final(self)@ == edited(old(self)@, byte),
    {
        let ghost p = self@;
        let ch: u8 = if byte == 13 && self.termios.c_iflag & ICRNL != 0 {
            10
        } else {
            byte
        };
        if self.termios.c_lflag & ICANON != 0 {
            if (self.termios.c_cc[2] == byte && byte != 0) || byte == 0x7f || byte == 0x08 {
                if self.line_buf.len() > 0 {
                    let _ = self.line_buf.pop();
                    assert(self.line_buf@ =~= p.line_buf.drop_last());
                    if self.termios.c_lflag & ECHOE != 0 {
                        let shown: [u8; 3] = [8, 32, 8];
                        assert(shown@ =~= seq![8u8, 32, 8]);
                        self.echo(&shown);
                    }
                }
            } else if self.termios.c_cc[4] == byte && byte != 0 {
                if self.line_buf.len() > 0 {
                    self.end_line();
                }
            } else if byte == 13 || byte == 10 {
                self.line_buf.push(ch);
                self.echo_printed(ch);
                self.end_line();
            } else {
                self.line_buf.push(byte);
                let shown: [u8; 1] = [byte];
                assert(shown@ =~= seq![byte]);
                self.echo(&shown);
            }
        } else {
            self.master_to_slave.push(ch);
            self.echo_printed(ch);
        }
    }

    /// Takes what the terminal's user types. The result are the signals for the
    /// foreground group.
    pub fn write_master(&mut self, bytes: &[u8]) -> (r: Vec<u32>)
        ensures
            (final(self)@, r@) == all_typed(old(self)@, bytes@),
    {
        let mut signals: Vec<u32> = Vec::new();
        let mut i: usize = 0;
        assert(bytes@.take(0) =~= Seq::<u8>::empty());
        assert(signals@ =~= Seq::<u32>::empty());
        while i < bytes.len()
            invariant
                i <= bytes.len(),
                (self@, signals@) == all_typed(old(self)@, bytes@.take(i as int)),
            decreases bytes.len() - i,
        {
            let byte: u8 = bytes[i];
            let ghost before = signals@;
            let ghost p = self@;
            match self.find_signal(byte) {
                Some((signal, shown)) => {
                    if signal == SIGINT {
                        self.line_buf.clear();
                        assert(self.line_buf@ =~= Seq::<u8>::empty());
                    }
                    self.echo(&shown);
                    if self.fg_pgrp != 0 {
                        signals.push(signal);
                        assert(signals@ =~= before + seq![signal]);
                    } else {
                        assert(signals@ =~= before + Seq::<u32>::empty());
                    }
                },
                None => {
                    self.edit(byte);
                    assert(signals@ =~= before + Seq::<u32>::empty());
                },
            }
            i += 1;
            proof {
                let upto = bytes@.take(i as int);
                assert(upto.drop_last() =~= bytes@.take(i - 1));
                assert(upto.last() == byte);
            }
        }
        assert(bytes@.take(i as int) =~= bytes@);
        signals
    }

    /// Reads what the slave has been given.
    pub fn read_slave(&mut self, length: usize) -> (r: Result<Vec<u8>, ()>)
        ensures
            final(self)@ == (PtyView {
                master_to_slave: taken(
                    old(self)@.master_to_slave,
                    old(self).master_open,
                    length,
                ).0,
                ..old(self)@
            }),
            match r {
                Ok(bytes) => taken(old(self)@.master_to_slave, old(self).master_open, length).1
                    == Ok::<Seq<u8>, ()>(bytes@),
                Err(_) => taken(
                    old(self)@.master_to_slave,
                    old(self).master_open,
                    length,
                ).1 is Err,
            },
    {
        take_bytes(&mut self.master_to_slave, self.master_open, length)
    }

    /// Prints from the slave's side.
    pub fn write_slave(&mut self, bytes: &[u8]) -> (r: Result<usize, ()>)
        ensures
            old(self).master_open ==> r == Ok::<usize, ()>(bytes@.len() as usize) && final(self)@
                == (PtyView {
                slave_to_master: old(self)@.slave_to_master + all_printed(
                    old(self).termios,
                    bytes@,
                ),
                ..old(self)@
            }),
            !old(self).master_open ==> r is Err && final(self)@ == old(self)@,
    {
        if !self.master_open {
            return Err(());
        }
        let onlcr: bool = self.termios.c_oflag & ONLCR != 0;
        let mut i: usize = 0;
        let ghost p = self@;
        assert(bytes@.take(0) =~= Seq::<u8>::empty());
        assert(p.slave_to_master + all_printed(p.termios, Seq::empty()) =~= p.slave_to_master);
        while i < bytes.len()
            invariant
                i <= bytes.len(),
                onlcr == is_on(p.termios.c_oflag, ONLCR),
                self@ == (PtyView {
                    slave_to_master: p.slave_to_master + all_printed(
                        p.termios,
                        bytes@.take(i as int),
                    ),
                    ..p
                }),
            decreases bytes.len() - i,
        {
            let byte: u8 = bytes[i];
            let ghost before = self@.slave_to_master;
            if byte == 10 && onlcr {
                self.slave_to_master.push(13);
                self.slave_to_master.push(10);
            } else {
                self.slave_to_master.push(byte);
            }
            assert(self.slave_to_master@ =~= before + printed(p.termios, byte));
            i += 1;
            proof {
                let upto = bytes@.take(i as int);
                assert(upto.drop_last() =~= bytes@.take(i - 1));
                assert(self@.slave_to_master =~= p.slave_to_master + all_printed(p.termios, upto));
            }
        }
        assert(bytes@.take(i as int) =~= bytes@);
        Ok(bytes.len())
    }

    /// Reads what was printed.
    pub fn read_master(&mut self, length: usize) -> (r: Result<Vec<u8>, ()>)
        ensures
            final(self)@ == (PtyView {
                slave_to_master: taken(
                    old(self)@.slave_to_master,
                    old(self).slave_open,
                    length,
                ).0,
                ..old(self)@
            }),
            match r {
                Ok(bytes) => taken(old(self)@.slave_to_master, old(self).slave_open, length).1
                    == Ok::<Seq<u8>, ()>(bytes@),
                Err(_) => taken(
                    old(self)@.slave_to_master,
                    old(self).slave_open,
                    length,
                ).1 is Err,
            },
    {
        take_bytes(&mut self.slave_to_master, self.slave_open, length)
    }
}

// ---------------------------------------------------------------------------
// The table
// ---------------------------------------------------------------------------
/// All pseudo-terminals, by number.
#[derive(Debug)]
pub struct PtyTable {
    pub next_id: u32,
    pub ptys: OrdMap<PtyState>,
}

/// What pseudo-terminals stand for.
pub open spec fn seen_ptys(ptys: Map<u64, PtyState>) -> Map<u64, PtyView> {
    Map::new(|k: u64| ptys.dom().contains(k), |k: u64| ptys[k]@)
}

proof fn lemma_ptys(ptys: Map<u64, PtyState>)
    ensures
        forall|k: u64, p: PtyState| #[trigger]
            seen_ptys(ptys.insert(k, p)) == seen_ptys(ptys).insert(k, p@),
        forall|k: u64| #[trigger] seen_ptys(ptys.remove(k)) == seen_ptys(ptys).remove(k),
{
    assert forall|k: u64, p: PtyState| #[trigger]
        seen_ptys(ptys.insert(k, p)) == seen_ptys(ptys).insert(k, p@) by {
        assert(seen_ptys(ptys.insert(k, p)) =~= seen_ptys(ptys).insert(k, p@));
    }
    assert forall|k: u64| #[trigger] seen_ptys(ptys.remove(k)) == seen_ptys(ptys).remove(k) by {
        assert(seen_ptys(ptys.remove(k)) =~= seen_ptys(ptys).remove(k));
    }
}

impl View for PtyTable {
    type V = Map<u64, PtyView>;

    open spec fn view(&self) -> Map<u64, PtyView> {
        seen_ptys(self.ptys@)
    }
}

impl PtyTable {
    pub open spec fn wf(&self) -> bool {
        self.ptys.wf() && forall|i: int|
            0 <= i < self.ptys.keys@.len() ==> (#[trigger] self.ptys.keys@[i]) <= u32::MAX
    }

    pub fn new() -> (r: Self)
        ensures
            r.wf(),
            r.next_id == 0,
            r@ == Map::<u64, PtyView>::empty(),
    {
        let r = PtyTable { next_id: 0, ptys: OrdMap::new() };
        proof {
            assert(r@ =~= Map::<u64, PtyView>::empty());
            if r.ptys.keys@.len() > 0 {
                assert(r.ptys.keys@.contains(r.ptys.keys@[0]));
                assert(r.ptys@.dom().contains(r.ptys.keys@[0]));
            }
        }
        r
    }
}

/// Makes a new pair, and says its number.
pub fn create_pty(table: &mut PtyTable) -> (r: u32)
    requires
        old(table).wf(),
    ensures
        final(table).wf(),
        r == old(table).next_id,
        final(table).next_id == if r == u32::MAX {
            0
        } else {
            (r + 1) as u32
        },
        ({
            let made = final(table)@[r as u64];
            &&& final(table)@ == old(table)@.insert(r as u64, made)
            &&& is_default(made.termios)
            &&& made == (PtyView {
                id: r,
                master_open: true,
                slave_open: false,
                locked: true,
                master_to_slave: Seq::empty(),
                line_buf: Seq::empty(),
                slave_to_master: Seq::empty(),
                termios: made.termios,
                winsize: WinSize { ws_row: 24, ws_col: 80, ws_xpixel: 1280, ws_ypixel: 800 },
                fg_pgrp: 0,
                session_id: 0,
            })
        }),
{
    let id: u32 = table.next_id;
    table.next_id = id.wrapping_add(1);
    proof {
        lemma_ptys(table.ptys@);
    }
    let ghost before = table.ptys;
    table.ptys.insert(id as u64, PtyState::new(id));
    proof {
        assert forall|i: int| 0 <= i < table.ptys.keys@.len() implies (
        #[trigger] table.ptys.keys@[i]) <= u32::MAX by {
            let k = table.ptys.keys@[i];
            assert(table.ptys.keys@.contains(k));
            assert(table.ptys@.dom().contains(k));
            if k != id {
                assert(before@.dom().contains(k));
                let j = before.keys@.index_of(k);
                assert(before.keys@[j] == k);
            }
        }
    }
    id
}

/// A pair by its number.
pub fn get_pty(table: &PtyTable, id: u32) -> (r: Option<&PtyState>)
    requires
        table.wf(),
    ensures
        match r {
            Some(pty) => table@.dom().contains(id as u64) && pty@ == table@[id as u64],
            None => !table@.dom().contains(id as u64),
        },
{
    table.ptys.get(id as u64)
}

pub fn has_pty(table: &PtyTable, id: u32) -> (r: bool)
    requires
        table.wf(),
    ensures
        r == table@.dom().contains(id as u64),
{
    table.ptys.contains_key(id as u64)
}

/// The numbers of all pairs, ascending.
pub fn list_ptys(table: &PtyTable) -> (r: Vec<u32>)
    requires
        table.wf(),
    ensures
        forall|i: int, j: int| 0 <= i < j < r@.len() ==> r@[i] < r@[j],
        forall|id: u32| #[trigger] r@.contains(id) <==> table@.dom().contains(id as u64),
{
    let mut ids: Vec<u32> = Vec::new();
    let mut i: usize = 0;
    while i < table.ptys.keys.len()
        invariant
            i <= table.ptys.keys.len(),
            table.wf(),
            ids@.len() == i,
            forall|j: int| 0 <= j < i ==> (#[trigger] ids@[j]) == table.ptys.keys@[j],
        decreases table.ptys.keys.len() - i,
    {
        ids.push(table.ptys.keys[i] as u32);
        i += 1;
    }
    proof {
        assert forall|id: u32| #[trigger] ids@.contains(id) <==> table@.dom().contains(
            id as u64,
        ) by {
            if ids@.contains(id) {
                let j = ids@.index_of(id);
                assert(table.ptys.keys@[j] == id as u64);
                assert(table.ptys.keys@.contains(id as u64));
            }
            if table@.dom().contains(id as u64) {
                let j = table.ptys.keys@.index_of(id as u64);
                assert(table.ptys.keys@[j] == id as u64);
                assert(ids@[j] == id);
            }
        }
    }
    ids
}

/// The table after one side of a pair was closed: the pair is gone if both are.
pub open spec fn side_closed(table: Map<u64, PtyView>, id: u32, master: bool) -> Map<u64, PtyView> {
    if !table.dom().contains(id as u64) {
        table
    } else {
        let p = table[id as u64];
        let q = if master {
            PtyView { master_open: false, ..p }
        } else {
            PtyView { slave_open: false, ..p }
        };
        if q.master_open || q.slave_open {
            table.insert(id as u64, q)
        } else {
            table.remove(id as u64)
        }
    }
}

fn close_side(table: &mut PtyTable, id: u32, master: bool)
    requires
        old(table).wf(),
    ensures
        final(table).wf(),
        final(table).next_id == old(table).next_id,
        final(table)@ == side_closed(old(table)@, id, master),
{
    if !table.ptys.contains_key(id as u64) {
        return;
    }
    proof {
        lemma_ptys(table.ptys@);
    }
    let ghost before = table@;
    let pty = table.ptys.at_mut(id as u64);
    if master {
        pty.master_open = false;
    } else {
        pty.slave_open = false;
    }
    let gone: bool = !pty.master_open && !pty.slave_open;
    let ghost kept = table.ptys;
    if gone {
        proof {
            lemma_ptys(table.ptys@);
        }
        let _ = table.ptys.remove(id as u64);
        proof {
            assert(table@ =~= before.remove(id as u64));
            assert forall|i: int| 0 <= i < table.ptys.keys@.len() implies (
            #[trigger] table.ptys.keys@[i]) <= u32::MAX by {
                let k = table.ptys.keys@[i];
                assert(table.ptys.keys@.contains(k));
                assert(table.ptys@.dom().contains(k));
                assert(kept@.dom().contains(k));
                let j = kept.keys@.index_of(k);
                assert(kept.keys@[j] == k);
            }
        }
    }
}

pub fn close_master(table: &mut PtyTable, id: u32)
    requires
        old(table).wf(),
    ensures
        final(table).wf(),
        final(table).next_id == old(table).next_id,
        final(table)@ == side_closed(old(table)@, id, true),
{
    close_side(table, id, true)
}

pub fn close_slave(table: &mut PtyTable, id: u32)
    requires
        old(table).wf(),
    ensures
        final(table).wf(),
        final(table).next_id == old(table).next_id,
        final(table)@ == side_closed(old(table)@, id, false),
{
    close_side(table, id, false)
}

// ---------------------------------------------------------------------------
// Laws
// ---------------------------------------------------------------------------
/// Typing in two pieces is typing at once.
pub proof fn law_typing_in_pieces(p: PtyView, first: Seq<u8>, second: Seq<u8>)
    ensures
        ({
            let (q, s1) = all_typed(p, first);
            let (r, s2) = all_typed(q, second);
            all_typed(p, first + second) == (r, s1 + s2)
        }),
    decreases second.len(),
{
    let (q, s1) = all_typed(p, first);
    if second.len() == 0 {
        assert(first + second =~= first);
        assert(s1 + Seq::<u32>::empty() =~= s1);
    } else {
        law_typing_in_pieces(p, first, second.drop_last());
        assert((first + second).drop_last() =~= first + second.drop_last());
        let (m, s2) = all_typed(q, second.drop_last());
        let (r, s3) = typed(m, second.last());
        assert((s1 + s2) + s3 =~= s1 + (s2 + s3));
    }
}

/// In raw mode, without signals and without a change of line ends, the slave
/// reads exactly the bytes typed.
pub proof fn law_raw_passes_through(p: PtyView, bytes: Seq<u8>)
    requires
        !is_on(p.termios.c_lflag, ISIG),
        !is_on(p.termios.c_lflag, ICANON),
        !is_on(p.termios.c_iflag, ICRNL),
    ensures
        all_typed(p, bytes).0.master_to_slave == p.master_to_slave + bytes,
        all_typed(p, bytes).0.termios == p.termios,
        all_typed(p, bytes).1 == Seq::<u32>::empty(),
    decreases bytes.len(),
{
    if bytes.len() == 0 {
        assert(p.master_to_slave + bytes =~= p.master_to_slave);
    } else {
        law_raw_passes_through(p, bytes.drop_last());
        let q = all_typed(p, bytes.drop_last()).0;
        assert(p.master_to_slave + bytes =~= (p.master_to_slave + bytes.drop_last()).push(
            bytes.last(),
        ));
        assert(all_typed(p, bytes).1 =~= Seq::<u32>::empty());
    }
}

/// A line is kept back until it is ended: typing characters that mean nothing
/// special gives the slave nothing.
pub proof fn law_line_kept_back(p: PtyView, byte: u8)
    requires
        is_on(p.termios.c_lflag, ICANON),
        signal_of(p.termios, byte) is None,
        byte != 13,
        byte != 10,
        !is_control(p.termios, 4, byte),
    ensures
        typed(p, byte).0.master_to_slave == p.master_to_slave,
{
}

} // verus!
