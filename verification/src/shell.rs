//! The kernel's own terminal: a line that is typed, and the commands it can
//! hold.
use vstd::prelude::*;
use vstd::string::*;

use crate::keyboard::{
    self, decode, new_decoder, pop_scancode, KeyDecoder, KeyStep, KeyboardState,
};
use crate::network::NetworkInfo;
use crate::text::{self, decimal_bytes};

verus! {

// ---------------------------------------------------------------------------
// Text
// ---------------------------------------------------------------------------
pub open spec fn chars_of(bytes: Seq<u8>) -> Seq<char> {
    Seq::new(bytes.len(), |i: int| bytes[i] as char)
}

pub open spec fn number_chars(n: nat) -> Seq<char> {
    chars_of(text::decimal_text(n))
}

fn push_chars(text: &mut Vec<char>, part: &[char])
    ensures
        final(text)@ == old(text)@ + part@,
{
    let mut i: usize = 0;
    assert(text@ =~= old(text)@ + part@.take(0));
    while i < part.len()
        invariant
            i <= part@.len(),
            text@ == old(text)@ + part@.take(i as int),
        decreases part@.len() - i,
    {
        text.push(part[i]);
        i += 1;
        assert(text@ =~= old(text)@ + part@.take(i as int));
    }
    assert(part@.take(i as int) =~= part@);
}

fn push_text(text: &mut Vec<char>, part: &str)
    ensures
        final(text)@ == old(text)@ + part@,
{
    let n: usize = part.unicode_len();
    let mut i: usize = 0;
    assert(text@ =~= old(text)@ + part@.take(0));
    while i < n
        invariant
            i <= n,
            n == part@.len(),
            text@ == old(text)@ + part@.take(i as int),
        decreases n - i,
    {
        text.push(part.get_char(i));
        i += 1;
        assert(text@ =~= old(text)@ + part@.take(i as int));
    }
    assert(part@.take(i as int) =~= part@);
}

fn push_bytes(text: &mut Vec<char>, bytes: &[u8])
    ensures
        final(text)@ == old(text)@ + chars_of(bytes@),
{
    let mut i: usize = 0;
    assert(text@ =~= old(text)@ + chars_of(bytes@.take(0)));
    while i < bytes.len()
        invariant
            i <= bytes@.len(),
            text@ == old(text)@ + chars_of(bytes@.take(i as int)),
        decreases bytes@.len() - i,
    {
        text.push(bytes[i] as char);
        i += 1;
        assert(text@ =~= old(text)@ + chars_of(bytes@.take(i as int)));
    }
    assert(bytes@.take(i as int) =~= bytes@);
}

fn push_number(text: &mut Vec<char>, n: u64)
    ensures
        final(text)@ == old(text)@ + number_chars(n as nat),
{
    let digits: Vec<u8> = decimal_bytes(n);
    push_bytes(text, digits.as_slice());
}

pub open spec fn ip_chars(ip: Seq<u8>) -> Seq<char> {
    chars_of(crate::procfs::ip_text(ip))
}

fn push_ip(text: &mut Vec<char>, ip: &[u8; 4])
    ensures
        final(text)@ == old(text)@ + ip_chars(ip@),
{
    let mut bytes: Vec<u8> = Vec::new();
    crate::procfs::push_ip(&mut bytes, ip);
    assert(bytes@ =~= crate::procfs::ip_text(ip@));
    push_bytes(text, bytes.as_slice());
}

pub open spec fn hex_pair(byte: u8) -> Seq<u8> {
    crate::fs::hex_digits(byte as int, 2)
}

/// A hardware address: six pairs of hexadecimal digits.
pub open spec fn mac_bytes(mac: Seq<u8>, upto: int) -> Seq<u8>
    decreases upto,
{
    if upto <= 0 {
        Seq::empty()
    } else if upto == 1 {
        hex_pair(mac[0])
    } else {
        mac_bytes(mac, upto - 1).push(58) + hex_pair(mac[upto - 1])
    }
}

pub open spec fn mac_chars(mac: Seq<u8>) -> Seq<char> {
    chars_of(mac_bytes(mac, 6))
}

fn push_mac(text: &mut Vec<char>, mac: &[u8; 6])
    ensures
        final(text)@ == old(text)@ + mac_chars(mac@),
{
    let mut bytes: Vec<u8> = Vec::new();
    let mut i: usize = 0;
    assert(bytes@ =~= mac_bytes(mac@, 0));
    while i < 6
        invariant
            i <= 6,
            bytes@ == mac_bytes(mac@, i as int),
        decreases 6 - i,
    {
        let ghost before = bytes@;
        if i > 0 {
            bytes.push(58);
        }
        let ghost start = bytes@;
        crate::fs::push_digit(&mut bytes, (mac[i] / 16) as u32);
        crate::fs::push_digit(&mut bytes, (mac[i] % 16) as u32);
        proof {
            reveal_with_fuel(crate::fs::hex_digits, 3);
            let pair = hex_pair(mac@[i as int]);
            assert(bytes@ =~= start + pair);
            if i == 0 {
                assert(start + pair =~= pair);
            }
        }
        i += 1;
    }
    push_bytes(text, bytes.as_slice());
}

// ---------------------------------------------------------------------------
// What is printed
// ---------------------------------------------------------------------------

/// The first lines.
#[verifier::opaque]
pub open spec fn banner_text() -> Seq<char> {
    "vanta os | kernel terminal\n"@ + "type 'help' for available commands\n"@ + "\nvanta> "@
}

pub fn banner() -> (r: Vec<char>)
    ensures
        r@ == banner_text(),
{
    let mut text: Vec<char> = Vec::new();
    proof {
        reveal(banner_text);
        assert(text@ + "vanta os | kernel terminal\n"@ =~= "vanta os | kernel terminal\n"@);
    }
    push_text(&mut text, "vanta os | kernel terminal\n");
    push_text(&mut text, "type 'help' for available commands\n");
    push_text(&mut text, "\nvanta> ");
    text
}

/// What stands before a command.
#[verifier::opaque]
pub open spec fn prompt_text() -> Seq<char> {
    "vanta> "@
}

pub fn prompt() -> (r: Vec<char>)
    ensures
        r@ == prompt_text(),
{
    let mut text: Vec<char> = Vec::new();
    proof {
        reveal(prompt_text);
        assert(text@ + "vanta> "@ =~= "vanta> "@);
    }
    push_text(&mut text, "vanta> ");
    text
}

/// The commands that there are.
#[verifier::opaque]
pub open spec fn help_text() -> Seq<char> {
    "help  status  ls  cat <path>  write <path> <text>\n"@ + "mkdir <path>  stat <path>  mv <old> <new>  rm <path>\n"@ + "run <path>  net  clear\n"@
}

pub fn help() -> (r: Vec<char>)
    ensures
        r@ == help_text(),
{
    let mut text: Vec<char> = Vec::new();
    proof {
        reveal(help_text);
        assert(text@ + "help  status  ls  cat <path>  write <path> <text>\n"@ =~= "help  status  ls  cat <path>  write <path> <text>\n"@);
    }
    push_text(&mut text, "help  status  ls  cat <path>  write <path> <text>\n");
    push_text(&mut text, "mkdir <path>  stat <path>  mv <old> <new>  rm <path>\n");
    push_text(&mut text, "run <path>  net  clear\n");
    text
}

/// What is said of the system.
#[verifier::opaque]
pub open spec fn status_text() -> Seq<char> {
    "kernel: rust-native | userspace: ring 3 spawn/wait/exec/socket | storage: VantaFS\n"@
}

pub fn status() -> (r: Vec<char>)
    ensures
        r@ == status_text(),
{
    let mut text: Vec<char> = Vec::new();
    proof {
        reveal(status_text);
        assert(text@ + "kernel: rust-native | userspace: ring 3 spawn/wait/exec/socket | storage: VantaFS\n"@ =~= "kernel: rust-native | userspace: ring 3 spawn/wait/exec/socket | storage: VantaFS\n"@);
    }
    push_text(&mut text, "kernel: rust-native | userspace: ring 3 spawn/wait/exec/socket | storage: VantaFS\n");
    text
}

/// What is said of the network.
#[verifier::opaque]
pub open spec fn net_text(info: NetworkInfo, gateway: [u8; 6]) -> Seq<char> {
    "net: "@ + ip_chars(info.local_ip@) + " mac="@ + mac_chars(info.mac@) + "\ngateway: "@ + mac_chars(gateway@) + "\ndns: "@ + ip_chars(info.dns_server@) + "\ntcp target: "@ + ip_chars(info.tcp_host@) + ":"@ + number_chars(info.tcp_port as nat) + "\nicmp: "@ + (if info.gateway_echoed { "ok"@ } else { "unavailable"@ }) + "\nudp dns: "@ + (if info.dns_replied { "ok"@ } else { "unavailable"@ }) + "\ntcp socket: "@ + (if info.tcp_connected { "last connection ok"@ } else { "not connected"@ }) + "\n"@
}

pub fn net(info: NetworkInfo, gateway: [u8; 6]) -> (r: Vec<char>)
    ensures
        r@ == net_text(info, gateway),
{
    let mut text: Vec<char> = Vec::new();
    proof {
        reveal(net_text);
        assert(text@ + "net: "@ =~= "net: "@);
    }
    push_text(&mut text, "net: ");
    push_ip(&mut text, &info.local_ip);
    push_text(&mut text, " mac=");
    push_mac(&mut text, &info.mac);
    push_text(&mut text, "\ngateway: ");
    push_mac(&mut text, &gateway);
    push_text(&mut text, "\ndns: ");
    push_ip(&mut text, &info.dns_server);
    push_text(&mut text, "\ntcp target: ");
    push_ip(&mut text, &info.tcp_host);
    push_text(&mut text, ":");
    push_number(&mut text, info.tcp_port as u64);
    push_text(&mut text, "\nicmp: ");
    if info.gateway_echoed {
        push_text(&mut text, "ok");
    } else {
        push_text(&mut text, "unavailable");
    }
    push_text(&mut text, "\nudp dns: ");
    if info.dns_replied {
        push_text(&mut text, "ok");
    } else {
        push_text(&mut text, "unavailable");
    }
    push_text(&mut text, "\ntcp socket: ");
    if info.tcp_connected {
        push_text(&mut text, "last connection ok");
    } else {
        push_text(&mut text, "not connected");
    }
    push_text(&mut text, "\n");
    text
}

/// A line of a listing.
#[verifier::opaque]
pub open spec fn listed_text(path: Seq<char>) -> Seq<char> {
    path + "\n"@
}

pub fn listed(path: &[char]) -> (r: Vec<char>)
    ensures
        r@ == listed_text(path@),
{
    let mut text: Vec<char> = Vec::new();
    proof {
        reveal(listed_text);
        assert(text@ + path@ =~= path@);
    }
    push_chars(&mut text, path);
    push_text(&mut text, "\n");
    text
}

/// What is not there.
#[verifier::opaque]
pub open spec fn not_found_text(path: Seq<char>) -> Seq<char> {
    path + ": not found\n"@
}

pub fn not_found(path: &[char]) -> (r: Vec<char>)
    ensures
        r@ == not_found_text(path@),
{
    let mut text: Vec<char> = Vec::new();
    proof {
        reveal(not_found_text);
        assert(text@ + path@ =~= path@);
    }
    push_chars(&mut text, path);
    push_text(&mut text, ": not found\n");
    text
}

/// What is no command.
#[verifier::opaque]
pub open spec fn unknown_text(path: Seq<char>) -> Seq<char> {
    path + ": command not found\n"@
}

pub fn unknown(path: &[char]) -> (r: Vec<char>)
    ensures
        r@ == unknown_text(path@),
{
    let mut text: Vec<char> = Vec::new();
    proof {
        reveal(unknown_text);
        assert(text@ + path@ =~= path@);
    }
    push_chars(&mut text, path);
    push_text(&mut text, ": command not found\n");
    text
}

/// What was written.
#[verifier::opaque]
pub open spec fn wrote_text(path: Seq<char>, bytes: usize) -> Seq<char> {
    "wrote "@ + number_chars(bytes as nat) + " bytes to "@ + path + "\n"@
}

pub fn wrote(path: &[char], bytes: usize) -> (r: Vec<char>)
    ensures
        r@ == wrote_text(path@, bytes),
{
    let mut text: Vec<char> = Vec::new();
    proof {
        reveal(wrote_text);
        assert(text@ + "wrote "@ =~= "wrote "@);
    }
    push_text(&mut text, "wrote ");
    push_number(&mut text, bytes as u64);
    push_text(&mut text, " bytes to ");
    push_chars(&mut text, path);
    push_text(&mut text, "\n");
    text
}

/// What could not be written.
#[verifier::opaque]
pub open spec fn write_failed_text(path: Seq<char>) -> Seq<char> {
    "write: failed for "@ + path + "\n"@
}

pub fn write_failed(path: &[char]) -> (r: Vec<char>)
    ensures
        r@ == write_failed_text(path@),
{
    let mut text: Vec<char> = Vec::new();
    proof {
        reveal(write_failed_text);
        assert(text@ + "write: failed for "@ =~= "write: failed for "@);
    }
    push_text(&mut text, "write: failed for ");
    push_chars(&mut text, path);
    push_text(&mut text, "\n");
    text
}

/// What is said of a file; a directory has no length.
#[verifier::opaque]
pub open spec fn described_text(path: Seq<char>, is_directory: bool, length: u64, sectors: u64) -> Seq<char> {
    path + ": "@ + (if is_directory { "directory"@ } else { "file"@ }) + " "@ + number_chars(if is_directory { 0 } else { length as nat }) + " ("@ + number_chars(sectors as nat) + " sector"@ + (if sectors == 1 { ""@ } else { "s"@ }) + ")\n"@
}

pub fn described(path: &[char], is_directory: bool, length: u64, sectors: u64) -> (r: Vec<char>)
    ensures
        r@ == described_text(path@, is_directory, length, sectors),
{
    let mut text: Vec<char> = Vec::new();
    proof {
        reveal(described_text);
        assert(text@ + path@ =~= path@);
    }
    push_chars(&mut text, path);
    push_text(&mut text, ": ");
    if is_directory {
        push_text(&mut text, "directory");
    } else {
        push_text(&mut text, "file");
    }
    push_text(&mut text, " ");
    let shown: u64 = if is_directory {
        0
    } else {
        length
    };
    push_number(&mut text, shown);
    push_text(&mut text, " (");
    push_number(&mut text, sectors as u64);
    push_text(&mut text, " sector");
    if sectors == 1 {
        push_text(&mut text, "");
    } else {
        push_text(&mut text, "s");
    }
    push_text(&mut text, ")\n");
    text
}

/// What was renamed.
#[verifier::opaque]
pub open spec fn renamed_text(old_path: Seq<char>, new_path: Seq<char>) -> Seq<char> {
    "renamed "@ + old_path + " to "@ + new_path + "\n"@
}

pub fn renamed(old_path: &[char], new_path: &[char]) -> (r: Vec<char>)
    ensures
        r@ == renamed_text(old_path@, new_path@),
{
    let mut text: Vec<char> = Vec::new();
    proof {
        reveal(renamed_text);
        assert(text@ + "renamed "@ =~= "renamed "@);
    }
    push_text(&mut text, "renamed ");
    push_chars(&mut text, old_path);
    push_text(&mut text, " to ");
    push_chars(&mut text, new_path);
    push_text(&mut text, "\n");
    text
}

/// What could not be renamed.
#[verifier::opaque]
pub open spec fn rename_failed_text(path: Seq<char>) -> Seq<char> {
    "mv: failed for "@ + path + "\n"@
}

pub fn rename_failed(path: &[char]) -> (r: Vec<char>)
    ensures
        r@ == rename_failed_text(path@),
{
    let mut text: Vec<char> = Vec::new();
    proof {
        reveal(rename_failed_text);
        assert(text@ + "mv: failed for "@ =~= "mv: failed for "@);
    }
    push_text(&mut text, "mv: failed for ");
    push_chars(&mut text, path);
    push_text(&mut text, "\n");
    text
}

/// A directory that was made.
#[verifier::opaque]
pub open spec fn made_directory_text(path: Seq<char>) -> Seq<char> {
    "created "@ + path + "\n"@
}

pub fn made_directory(path: &[char]) -> (r: Vec<char>)
    ensures
        r@ == made_directory_text(path@),
{
    let mut text: Vec<char> = Vec::new();
    proof {
        reveal(made_directory_text);
        assert(text@ + "created "@ =~= "created "@);
    }
    push_text(&mut text, "created ");
    push_chars(&mut text, path);
    push_text(&mut text, "\n");
    text
}

/// A directory that could not be made.
#[verifier::opaque]
pub open spec fn make_directory_failed_text(path: Seq<char>) -> Seq<char> {
    "mkdir: failed for "@ + path + "\n"@
}

pub fn make_directory_failed(path: &[char]) -> (r: Vec<char>)
    ensures
        r@ == make_directory_failed_text(path@),
{
    let mut text: Vec<char> = Vec::new();
    proof {
        reveal(make_directory_failed_text);
        assert(text@ + "mkdir: failed for "@ =~= "mkdir: failed for "@);
    }
    push_text(&mut text, "mkdir: failed for ");
    push_chars(&mut text, path);
    push_text(&mut text, "\n");
    text
}

/// What was removed.
#[verifier::opaque]
pub open spec fn removed_text(path: Seq<char>) -> Seq<char> {
    "removed "@ + path + "\n"@
}

pub fn removed(path: &[char]) -> (r: Vec<char>)
    ensures
        r@ == removed_text(path@),
{
    let mut text: Vec<char> = Vec::new();
    proof {
        reveal(removed_text);
        assert(text@ + "removed "@ =~= "removed "@);
    }
    push_text(&mut text, "removed ");
    push_chars(&mut text, path);
    push_text(&mut text, "\n");
    text
}

/// What could not be removed.
#[verifier::opaque]
pub open spec fn remove_failed_text(path: Seq<char>) -> Seq<char> {
    "rm: failed for "@ + path + "\n"@
}

pub fn remove_failed(path: &[char]) -> (r: Vec<char>)
    ensures
        r@ == remove_failed_text(path@),
{
    let mut text: Vec<char> = Vec::new();
    proof {
        reveal(remove_failed_text);
        assert(text@ + "rm: failed for "@ =~= "rm: failed for "@);
    }
    push_text(&mut text, "rm: failed for ");
    push_chars(&mut text, path);
    push_text(&mut text, "\n");
    text
}

/// A program that is not there.
#[verifier::opaque]
pub open spec fn run_not_found_text(path: Seq<char>) -> Seq<char> {
    "run: "@ + path + ": not found\n"@
}

pub fn run_not_found(path: &[char]) -> (r: Vec<char>)
    ensures
        r@ == run_not_found_text(path@),
{
    let mut text: Vec<char> = Vec::new();
    proof {
        reveal(run_not_found_text);
        assert(text@ + "run: "@ =~= "run: "@);
    }
    push_text(&mut text, "run: ");
    push_chars(&mut text, path);
    push_text(&mut text, ": not found\n");
    text
}

/// A file that is no program.
#[verifier::opaque]
pub open spec fn run_not_executable_text(path: Seq<char>) -> Seq<char> {
    "run: "@ + path + ": not an executable\n"@
}

pub fn run_not_executable(path: &[char]) -> (r: Vec<char>)
    ensures
        r@ == run_not_executable_text(path@),
{
    let mut text: Vec<char> = Vec::new();
    proof {
        reveal(run_not_executable_text);
        assert(text@ + "run: "@ =~= "run: "@);
    }
    push_text(&mut text, "run: ");
    push_chars(&mut text, path);
    push_text(&mut text, ": not an executable\n");
    text
}

/// A program that starts.
#[verifier::opaque]
pub open spec fn starting_text(path: Seq<char>) -> Seq<char> {
    "starting "@ + path + "\n"@
}

pub fn starting(path: &[char]) -> (r: Vec<char>)
    ensures
        r@ == starting_text(path@),
{
    let mut text: Vec<char> = Vec::new();
    proof {
        reveal(starting_text);
        assert(text@ + "starting "@ =~= "starting "@);
    }
    push_text(&mut text, "starting ");
    push_chars(&mut text, path);
    push_text(&mut text, "\n");
    text
}

/// How to write.
#[verifier::opaque]
pub open spec fn write_usage_text() -> Seq<char> {
    "usage: write <path> <text>\n"@
}

pub fn write_usage() -> (r: Vec<char>)
    ensures
        r@ == write_usage_text(),
{
    let mut text: Vec<char> = Vec::new();
    proof {
        reveal(write_usage_text);
        assert(text@ + "usage: write <path> <text>\n"@ =~= "usage: write <path> <text>\n"@);
    }
    push_text(&mut text, "usage: write <path> <text>\n");
    text
}

/// How to rename.
#[verifier::opaque]
pub open spec fn move_usage_text() -> Seq<char> {
    "usage: mv <old> <new>\n"@
}

pub fn move_usage() -> (r: Vec<char>)
    ensures
        r@ == move_usage_text(),
{
    let mut text: Vec<char> = Vec::new();
    proof {
        reveal(move_usage_text);
        assert(text@ + "usage: mv <old> <new>\n"@ =~= "usage: mv <old> <new>\n"@);
    }
    push_text(&mut text, "usage: mv <old> <new>\n");
    text
}

/// That nothing can be listed.
#[verifier::opaque]
pub open spec fn list_failed_text() -> Seq<char> {
    "ls: VFS unavailable\n"@
}

pub fn list_failed() -> (r: Vec<char>)
    ensures
        r@ == list_failed_text(),
{
    let mut text: Vec<char> = Vec::new();
    proof {
        reveal(list_failed_text);
        assert(text@ + "ls: VFS unavailable\n"@ =~= "ls: VFS unavailable\n"@);
    }
    push_text(&mut text, "ls: VFS unavailable\n");
    text
}

/// That there is no network.
#[verifier::opaque]
pub open spec fn net_unavailable_text() -> Seq<char> {
    "net: unavailable\n"@
}

pub fn net_unavailable() -> (r: Vec<char>)
    ensures
        r@ == net_unavailable_text(),
{
    let mut text: Vec<char> = Vec::new();
    proof {
        reveal(net_unavailable_text);
        assert(text@ + "net: unavailable\n"@ =~= "net: unavailable\n"@);
    }
    push_text(&mut text, "net: unavailable\n");
    text
}

/// What wipes a terminal.
#[verifier::opaque]
pub open spec fn clear_screen_text() -> Seq<char> {
    "\x1b[2J\x1b[H"@
}

pub fn clear_screen() -> (r: Vec<char>)
    ensures
        r@ == clear_screen_text(),
{
    let mut text: Vec<char> = Vec::new();
    proof {
        reveal(clear_screen_text);
        assert(text@ + "\x1b[2J\x1b[H"@ =~= "\x1b[2J\x1b[H"@);
    }
    push_text(&mut text, "\x1b[2J\x1b[H");
    text
}

/// The contents of a file, with a line end after them where there is none.
pub open spec fn contents_text(contents: Seq<u8>) -> Seq<char> {
    if contents.len() > 0 && contents.last() == 10 {
        chars_of(contents)
    } else {
        chars_of(contents).push('\n')
    }
}

pub fn shown_contents(contents: &[u8]) -> (r: Vec<char>)
    ensures
        r@ == contents_text(contents@),
{
    let mut text: Vec<char> = Vec::new();
    push_bytes(&mut text, contents);
    assert(text@ =~= chars_of(contents@));
    assert(contents@.len() == contents.len());
    if contents.len() == 0 || contents[contents.len() - 1] != 10 {
        text.push('\n');
    }
    text
}

// ---------------------------------------------------------------------------
// Commands
// ---------------------------------------------------------------------------
#[derive(Debug)]
pub enum Command {
    Nothing,
    Help,
    Status,
    Net,
    List,
    Cat(Vec<char>),
    Write(Vec<char>, Vec<char>),
    WriteUsage,
    Stat(Vec<char>),
    Move(Vec<char>, Vec<char>),
    MoveUsage,
    MakeDirectory(Vec<char>),
    Remove(Vec<char>),
    Run(Vec<char>),
    Clear,
    Unknown(Vec<char>),
}

pub enum CommandView {
    Nothing,
    Help,
    Status,
    Net,
    List,
    Cat(Seq<char>),
    Write(Seq<char>, Seq<char>),
    WriteUsage,
    Stat(Seq<char>),
    Move(Seq<char>, Seq<char>),
    MoveUsage,
    MakeDirectory(Seq<char>),
    Remove(Seq<char>),
    Run(Seq<char>),
    Clear,
    Unknown(Seq<char>),
}

impl View for Command {
    type V = CommandView;

    open spec fn view(&self) -> CommandView {
        match self {
            Command::Nothing => CommandView::Nothing,
            Command::Help => CommandView::Help,
            Command::Status => CommandView::Status,
            Command::Net => CommandView::Net,
            Command::List => CommandView::List,
            Command::Cat(path) => CommandView::Cat(path@),
            Command::Write(path, contents) => CommandView::Write(path@, contents@),
            Command::WriteUsage => CommandView::WriteUsage,
            Command::Stat(path) => CommandView::Stat(path@),
            Command::Move(from, to) => CommandView::Move(from@, to@),
            Command::MoveUsage => CommandView::MoveUsage,
            Command::MakeDirectory(path) => CommandView::MakeDirectory(path@),
            Command::Remove(path) => CommandView::Remove(path@),
            Command::Run(path) => CommandView::Run(path@),
            Command::Clear => CommandView::Clear,
            Command::Unknown(text) => CommandView::Unknown(text@),
        }
    }
}

pub open spec fn begins(text: Seq<char>, start: Seq<char>) -> bool {
    text.len() >= start.len() && text.take(start.len() as int) == start
}

/// What follows a beginning.
pub open spec fn after(text: Seq<char>, start: Seq<char>) -> Seq<char> {
    text.skip(start.len() as int)
}

/// Where the first space stands; the length if there is none.
pub open spec fn first_space(text: Seq<char>) -> int
    decreases text.len(),
{
    if text.len() == 0 || text[0] == ' ' {
        0
    } else {
        1 + first_space(text.skip(1))
    }
}

/// The two words around the first space.
pub open spec fn split_once(text: Seq<char>) -> Option<(Seq<char>, Seq<char>)> {
    let i = first_space(text);
    if i < text.len() {
        Some((text.take(i), text.skip(i + 1)))
    } else {
        None
    }
}

/// The command that a line stands for.
pub open spec fn command_of(text: Seq<char>) -> CommandView {
    if text.len() == 0 {
        CommandView::Nothing
    } else if text == "help"@ {
        CommandView::Help
    } else if text == "status"@ {
        CommandView::Status
    } else if text == "net"@ {
        CommandView::Net
    } else if text == "ls"@ {
        CommandView::List
    } else if begins(text, "cat "@) {
        CommandView::Cat(after(text, "cat "@))
    } else if begins(text, "write "@) {
        match split_once(after(text, "write "@)) {
            Some((first, second)) => CommandView::Write(first, second),
            None => CommandView::WriteUsage,
        }
    } else if begins(text, "stat "@) {
        CommandView::Stat(after(text, "stat "@))
    } else if begins(text, "mv "@) {
        match split_once(after(text, "mv "@)) {
            Some((first, second)) => CommandView::Move(first, second),
            None => CommandView::MoveUsage,
        }
    } else if begins(text, "mkdir "@) {
        CommandView::MakeDirectory(after(text, "mkdir "@))
    } else if begins(text, "rm "@) {
        CommandView::Remove(after(text, "rm "@))
    } else if begins(text, "run "@) {
        CommandView::Run(after(text, "run "@))
    } else if text == "clear"@ {
        CommandView::Clear
    } else {
        CommandView::Unknown(text)
    }
}

proof fn lemma_first_space(text: Seq<char>, i: int)
    requires
        0 <= i <= text.len(),
        forall|k: int| 0 <= k < i ==> text[k] != ' ',
        i < text.len() ==> text[i] == ' ',
    ensures
        first_space(text) == i,
    decreases text.len(),
{
    if text.len() > 0 && text[0] != ' ' {
        lemma_first_space(text.skip(1), i - 1);
    }
}

fn is_text(text: &[char], literal: &str) -> (r: bool)
    ensures
        r == (text@ == literal@),
{
    let n: usize = literal.unicode_len();
    assert(text@.len() == text.len());
    if text.len() != n {
        return false;
    }
    let mut i: usize = 0;
    while i < n
        invariant
            i <= n,
            n == literal@.len(),
            n == text@.len(),
            forall|k: int| 0 <= k < i ==> text@[k] == literal@[k],
        decreases n - i,
    {
        if text[i] != literal.get_char(i) {
            return false;
        }
        i += 1;
    }
    assert(text@ =~= literal@);
    true
}

/// What follows a beginning, if the text has it.
fn strip(text: &[char], start: &str) -> (r: Option<Vec<char>>)
    ensures
        match r {
            Some(rest) => begins(text@, start@) && rest@ == after(text@, start@),
            None => !begins(text@, start@),
        },
{
    let n: usize = start.unicode_len();
    assert(text@.len() == text.len());
    if text.len() < n {
        return None;
    }
    let head = vstd::slice::slice_subrange(text, 0, n);
    assert(head@ =~= text@.take(n as int));
    if !is_text(head, start) {
        return None;
    }
    let rest = vstd::slice::slice_subrange(text, n, text.len());
    assert(rest@ =~= text@.skip(n as int));
    Some(vstd::slice::slice_to_vec(rest))
}

fn split_at_space(text: &[char]) -> (r: Option<(Vec<char>, Vec<char>)>)
    ensures
        match r {
            Some((first, second)) => split_once(text@) == Some((first@, second@)),
            None => split_once(text@) is None,
        },
{
    let mut i: usize = 0;
    assert(text@.len() == text.len());
    while i < text.len() && text[i] != ' '
        invariant
            i <= text@.len(),
            text@.len() == text.len(),
            forall|k: int| 0 <= k < i ==> text@[k] != ' ',
        decreases text@.len() - i,
    {
        i += 1;
    }
    proof {
        lemma_first_space(text@, i as int);
    }
    if i < text.len() {
        let first = vstd::slice::slice_subrange(text, 0, i);
        let second = vstd::slice::slice_subrange(text, i + 1, text.len());
        assert(first@ =~= text@.take(i as int));
        assert(second@ =~= text@.skip(i + 1));
        Some((vstd::slice::slice_to_vec(first), vstd::slice::slice_to_vec(second)))
    } else {
        None
    }
}

/// The command that a line stands for.
pub fn parse_command(text: &[char]) -> (r: Command)
    ensures
        r@ == command_of(text@),
{
    if text.len() == 0 {
        return Command::Nothing;
    }
    if is_text(text, "help") {
        return Command::Help;
    }
    if is_text(text, "status") {
        return Command::Status;
    }
    if is_text(text, "net") {
        return Command::Net;
    }
    if is_text(text, "ls") {
        return Command::List;
    }
    if let Some(rest) = strip(text, "cat ") {
        return Command::Cat(rest);
    }
    if let Some(rest) = strip(text, "write ") {
        return match split_at_space(rest.as_slice()) {
            Some((first, second)) => Command::Write(first, second),
            None => Command::WriteUsage,
        };
    }
    if let Some(rest) = strip(text, "stat ") {
        return Command::Stat(rest);
    }
    if let Some(rest) = strip(text, "mv ") {
        return match split_at_space(rest.as_slice()) {
            Some((first, second)) => Command::Move(first, second),
            None => Command::MoveUsage,
        };
    }
    if let Some(rest) = strip(text, "mkdir ") {
        return Command::MakeDirectory(rest);
    }
    if let Some(rest) = strip(text, "rm ") {
        return Command::Remove(rest);
    }
    if let Some(rest) = strip(text, "run ") {
        return Command::Run(rest);
    }
    if is_text(text, "clear") {
        return Command::Clear;
    }
    Command::Unknown(vstd::slice::slice_to_vec(text))
}

// ---------------------------------------------------------------------------
// The line
// ---------------------------------------------------------------------------
/// What a key leads to.
#[derive(Debug)]
pub enum KeyAction {
    Nothing,
    /// A character is to be shown.
    Show(char),
    /// The last character is to be wiped.
    Erase,
    /// The line is to be run.
    Execute(Command),
}

pub struct Shell {
    pub decoder: KeyDecoder,
    pub input: Vec<char>,
}

pub open spec fn is_end(c: char) -> bool {
    c == '\n' || c == '\r'
}

pub open spec fn is_backspace(c: char) -> bool {
    c as u32 == 8 || c as u32 == 0x7f
}

/// The line after a key.
pub open spec fn line_after(line: Seq<char>, c: char) -> Seq<char> {
    if is_end(c) {
        Seq::empty()
    } else if is_backspace(c) {
        if line.len() > 0 {
            line.drop_last()
        } else {
            line
        }
    } else if c as u32 >= 0x20 {
        line.push(c)
    } else {
        line
    }
}

/// Whether an action is what a key leads to.
pub open spec fn leads_to(line: Seq<char>, c: char, action: KeyAction) -> bool {
    if is_end(c) {
        action matches KeyAction::Execute(command) && command@ == command_of(line)
    } else if is_backspace(c) {
        action == if line.len() > 0 {
            KeyAction::Erase
        } else {
            KeyAction::Nothing
        }
    } else if c as u32 >= 0x20 {
        action == KeyAction::Show(c)
    } else {
        action == KeyAction::Nothing
    }
}

/// Takes a character that was typed.
pub fn handle_key(input: &mut Vec<char>, c: char) -> (r: KeyAction)
    ensures
        final(input)@ == line_after(old(input)@, c),
        leads_to(old(input)@, c, r),
{
    if c == '\n' || c == '\r' {
        let command = parse_command(input.as_slice());
        input.clear();
        assert(input@ =~= Seq::<char>::empty());
        return KeyAction::Execute(command);
    }
    if c as u32 == 8 || c as u32 == 0x7f {
        if input.len() > 0 {
            let _ = input.pop();
            assert(input@ =~= old(input)@.drop_last());
            return KeyAction::Erase;
        }
        return KeyAction::Nothing;
    }
    if c as u32 >= 0x20 {
        input.push(c);
        return KeyAction::Show(c);
    }
    KeyAction::Nothing
}

impl Shell {
    /// What was done with scancodes, the first step first.
    pub open spec fn steps(&self) -> Seq<KeyStep> {
        keyboard::steps_taken(self.decoder)
    }

    pub fn new() -> (r: Self)
        ensures
            r.input@ == Seq::<char>::empty(),
            r.steps() == Seq::<KeyStep>::empty(),
    {
        let r = Shell { decoder: new_decoder(), input: Vec::new() };
        assert(r.input@ =~= Seq::<char>::empty());
        r
    }

    /// Takes the next scancode that waits; none if no scancode waits.
    pub fn step(&mut self, keyboard: &mut KeyboardState) -> (r: Option<KeyAction>)
        ensures
            final(keyboard).waiting() == if old(keyboard).waiting().len() > 0 {
                old(keyboard).waiting().skip(1)
            } else {
                old(keyboard).waiting()
            },
            final(keyboard).ctrl_held == old(keyboard).ctrl_held,
            final(keyboard).irq_count == old(keyboard).irq_count,
            final(self).steps() == if old(keyboard).waiting().len() > 0 {
                keyboard::decoded(old(self).steps(), old(keyboard).waiting()[0]).0
            } else {
                old(self).steps()
            },
            if old(keyboard).waiting().len() == 0 {
                r is None && final(self).input@ == old(self).input@
            } else {
                match keyboard::decoded(old(self).steps(), old(keyboard).waiting()[0]).1 {
                    None => r == Some(KeyAction::Nothing) && final(self).input@ == old(self).input@,
                    Some(c) => final(self).input@ == line_after(old(self).input@, c) && (
                    r matches Some(action) && leads_to(old(self).input@, c, action)),
                }
            },
    {
        match pop_scancode(keyboard) {
            None => None,
            Some(scancode) => match decode(&mut self.decoder, scancode) {
                None => Some(KeyAction::Nothing),
                Some(c) => Some(handle_key(&mut self.input, c)),
            },
        }
    }
}

/// The line that typed characters make.
pub open spec fn line_typed(line: Seq<char>, keys: Seq<char>) -> Seq<char>
    decreases keys.len(),
{
    if keys.len() == 0 {
        line
    } else {
        line_after(line_typed(line, keys.drop_last()), keys.last())
    }
}

/// A line that is typed on an empty line is run as it was typed.
pub proof fn law_typed_line_runs(keys: Seq<char>, action: KeyAction)
    requires
        forall|i: int|
            0 <= i < keys.len() ==> (#[trigger] keys[i]) as u32 >= 0x20 && keys[i] as u32 != 0x7f,
        leads_to(line_typed(Seq::empty(), keys), '\n', action),
    ensures
        action matches KeyAction::Execute(command) && command@ == command_of(keys),
{
    lemma_line_typed(keys);
}

proof fn lemma_line_typed(keys: Seq<char>)
    requires
        forall|i: int|
            0 <= i < keys.len() ==> (#[trigger] keys[i]) as u32 >= 0x20 && keys[i] as u32 != 0x7f,
    ensures
        line_typed(Seq::empty(), keys) == keys,
    decreases keys.len(),
{
    if keys.len() == 0 {
        assert(line_typed(Seq::empty(), keys) =~= keys);
    } else {
        let before = keys.drop_last();
        assert forall|i: int| 0 <= i < before.len() implies (#[trigger] before[i]) as u32 >= 0x20
            && before[i] as u32 != 0x7f by {
            assert(before[i] == keys[i]);
        }
        lemma_line_typed(before);
        assert(keys[keys.len() - 1] as u32 >= 0x20);
        assert(before.push(keys.last()) =~= keys);
    }
}

} // verus!
