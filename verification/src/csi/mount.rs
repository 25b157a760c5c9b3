//! Node-side rules: which device nodes count, how filesystems are created,
//! checked, mounted and stacked, and what is recorded about a published volume.
//!
//! The commands themselves are run by the caller; this module says which ones,
//! with which arguments, and how their outcomes are read.

use vstd::prelude::*;

use crate::paths;
use crate::table;
use crate::table::Table;
use crate::text;

verus! {

/// A command line: a program and its arguments.
#[derive(Debug)]
pub struct CommandLine {
    pub program: String,
    pub args: Vec<String>,
}

// ── Ports and device nodes ──────────────────────────────────────────────────

/// The ports to try, in order: `span` of them from `start` on, as far as there
/// are ports.
pub fn port_candidates(start: u16, span: u16) -> (r: Vec<u16>)
    ensures
        r@.len() == (if start + span <= 65536 {
            span as int
        } else {
            65536 - start
        }),
        forall|i: int| 0 <= i < r@.len() ==> #[trigger] r@[i] == start + i,
{
    let mut r: Vec<u16> = Vec::new();
    let mut i: u32 = 0;
    while i < span as u32 && start as u32 + i < 65536
        invariant
            i <= span,
            start + i <= 65536,
            r@.len() == i,
            forall|j: int| 0 <= j < r@.len() ==> #[trigger] r@[j] == start + j,
        decreases span - i,
    {
        r.push((start as u32 + i) as u16);
        i = i + 1;
    }
    r
}

/// `name` is `prefix` followed by a decimal number.
pub open spec fn numbered(name: Seq<char>, prefix: Seq<char>) -> bool {
    &&& text::begins(name, prefix)
    &&& name.len() > prefix.len()
    &&& text::all_digits(name.skip(prefix.len() as int))
}

/// Whether `name` is `prefix` followed by a decimal number, as the block devices
/// `ublkbN` and `nbdN` are named (and control nodes are not).
pub fn is_numbered(name: &str, prefix: &str) -> (r: bool)
    ensures
        r == numbered(name@, prefix@),
{
    match text::after_prefix(name, prefix) {
        None => false,
        Some(rest) => {
            let v = text::chars_of(rest.as_str());
            if v.len() == 0 {
                return false;
            }
            let mut i: usize = 0;
            while i < v.len()
                invariant
                    v@ == rest@,
                    rest@ == name@.skip(prefix@.len() as int),
                    i <= v@.len(),
                    forall|j: int| 0 <= j < i ==> text::is_digit(#[trigger] v@[j]),
                decreases v@.len() - i,
            {
                if !text::is_digit_char(v[i]) {
                    assert(!text::is_digit(rest@[i as int]));
                    return false;
                }
                i = i + 1;
            }
            true
        },
    }
}

/// The device nodes among the first `n` names of `/dev`.
pub open spec fn nodes(names: Seq<Seq<char>>, prefix: Seq<char>, n: int) -> Seq<Seq<char>>
    decreases n,
{
    if n <= 0 || n > names.len() {
        Seq::empty()
    } else if numbered(names[n - 1], prefix) {
        nodes(names, prefix, n - 1).push("/dev/"@ + names[n - 1])
    } else {
        nodes(names, prefix, n - 1)
    }
}

/// The device nodes called `prefix` and a number among the entries of `/dev`.
pub fn device_nodes(names: &Vec<String>, prefix: &str) -> (r: Vec<String>)
    ensures
        text::views(r@) == nodes(text::views(names@), prefix@, names@.len() as int),
{
    let mut r: Vec<String> = Vec::new();
    let mut i: usize = 0;
    let ghost all = text::views(names@);
    assert(text::views(r@) == nodes(all, prefix@, 0));
    while i < names.len()
        invariant
            i <= names@.len(),
            all == text::views(names@),
            text::views(r@) == nodes(all, prefix@, i as int),
        decreases names@.len() - i,
    {
        assert(all[i as int] == names@[i as int]@);
        if is_numbered(names[i].as_str(), prefix) {
            let node = text::concat("/dev/", names[i].as_str());
            text::put(&mut r, node.as_str());
        }
        i = i + 1;
    }
    r
}

/// The ublk devices among the entries of `/dev`.
pub fn list_ublk_devices(names: &Vec<String>) -> (r: Vec<String>)
    ensures
        text::views(r@) == nodes(text::views(names@), "ublkb"@, names@.len() as int),
{
    device_nodes(names, "ublkb")
}

/// Those of the first `n` devices that are not in use.
pub open spec fn unused(all: Seq<Seq<char>>, used: Seq<Seq<char>>, n: int) -> Seq<Seq<char>>
    decreases n,
{
    if n <= 0 || n > all.len() {
        Seq::empty()
    } else if used.contains(all[n - 1]) {
        unused(all, used, n - 1)
    } else {
        unused(all, used, n - 1).push(all[n - 1])
    }
}

/// The NBD devices among the entries of `/dev` that no client has connected.
pub fn list_available_nbd_devices(names: &Vec<String>, connected: &Vec<String>) -> (r: Vec<String>)
    ensures
        ({
            let all = nodes(text::views(names@), "nbd"@, names@.len() as int);
            text::views(r@) == unused(all, text::views(connected@), all.len() as int)
        }),
{
    let found = device_nodes(names, "nbd");
    let mut r: Vec<String> = Vec::new();
    let mut i: usize = 0;
    let ghost all = text::views(found@);
    let ghost used = text::views(connected@);
    assert(text::views(r@) == unused(all, used, 0));
    while i < found.len()
        invariant
            i <= found@.len(),
            all == text::views(found@),
            used == text::views(connected@),
            text::views(r@) == unused(all, used, i as int),
        decreases found@.len() - i,
    {
        assert(all[i as int] == found@[i as int]@);
        if !text::among(connected, found[i].as_str()) {
            text::put(&mut r, found[i].as_str());
        }
        i = i + 1;
    }
    r
}

/// The file in which the kernel records the client of a connected NBD device: a
/// device is in use exactly while that file exists.
pub fn nbd_pid_file(device: &str) -> (r: Option<String>)
    ensures
        text::opt_view(r) == (match paths::file_name(device@) {
            Some(name) => Some("/sys/block/"@ + name + "/pid"@),
            None => None,
        }),
{
    match paths::file_name_of(device) {
        Some(name) => Some(text::concat3("/sys/block/", name.as_str(), "/pid")),
        None => None,
    }
}

/// The process id in such a file.
pub fn recorded_pid(content: &str) -> (r: Option<u32>)
    ensures
        match r {
            Some(n) => text::number(text::trim(content@), u32::MAX as nat) == Some(n as nat),
            None => text::number(text::trim(content@), u32::MAX as nat) is None,
        },
{
    text::parse_u32(text::trimmed(content).as_str())
}

/// A device node that was not there before, if one has appeared.
pub fn new_device(now: &Vec<String>, before: &Vec<String>) -> (r: Option<String>)
    ensures
        match r {
            Some(d) => text::views(now@).contains(d@) && !text::views(before@).contains(d@),
            None => forall|i: int|
                0 <= i < now@.len() ==> text::views(before@).contains(
                    #[trigger] text::views(now@)[i],
                ),
        },
{
    let mut i: usize = 0;
    while i < now.len()
        invariant
            i <= now@.len(),
            forall|j: int|
                0 <= j < i ==> text::views(before@).contains(#[trigger] text::views(now@)[j]),
        decreases now@.len() - i,
    {
        if !text::among(before, now[i].as_str()) {
            assert(text::views(now@)[i as int] == now@[i as int]@);
            return Some(now[i].clone());
        }
        i = i + 1;
    }
    None
}

/// Why no ublk device has appeared.
#[derive(Debug)]
pub enum WaitError {
    /// The child has exited, with a status in words.
    Exited(String),
    /// The time is up.
    TimedOut,
}

/// What one look at the devices decides: a device that was not there `before` is
/// the child's, though the child has exited meanwhile; the wait ends without a
/// device when the time is up or the child has exited; and goes on otherwise.
pub fn wait_for_new_device(
    now: &Vec<String>,
    before: &Vec<String>,
    exited: Option<String>,
    expired: bool,
) -> (r: Option<Result<String, WaitError>>)
    ensures
        ({
            let appeared = exists|i: int|
                0 <= i < now@.len() && !text::views(before@).contains(
                    #[trigger] text::views(now@)[i],
                );
            if expired {
                r == Some(Err::<String, _>(WaitError::TimedOut))
            } else if appeared {
                r matches Some(Ok(d)) && text::views(now@).contains(d@) && !text::views(
                    before@,
                ).contains(d@)
            } else {
                match exited {
                    Some(why) => r == Some(Err::<String, _>(WaitError::Exited(why))),
                    None => r is None,
                }
            }
        }),
{
    if expired {
        return Some(Err(WaitError::TimedOut));
    }
    match new_device(now, before) {
        Some(d) => Some(Ok(d)),
        None => match exited {
            Some(why) => Some(Err(WaitError::Exited(why))),
            None => None,
        },
    }
}

/// The arguments of a device child: `run --size N`, and the listen address in NBD
/// mode.
pub fn run_args(size: u64, nbd_listen: &Option<String>) -> (r: Vec<String>)
    ensures
        text::views(r@) == (seq!["run"@, "--size"@, text::decimal(size as nat)] + (
        match text::opt_view(*nbd_listen) {
            Some(l) => seq!["--nbd"@, l],
            None => Seq::empty(),
        })),
{
    let mut r: Vec<String> = Vec::new();
    assert(text::views(r@) == Seq::<Seq<char>>::empty());
    text::put(&mut r, "run");
    text::put(&mut r, "--size");
    text::put(&mut r, text::decimal_of(size).as_str());
    match nbd_listen {
        Some(l) => {
            text::put(&mut r, "--nbd");
            text::put(&mut r, l.as_str());
        },
        None => {},
    }
    r
}

// ── Connecting an NBD device ────────────────────────────────────────────────

/// Why an NBD device could not be connected.
#[derive(Debug)]
pub enum ConnectError {
    /// The listen address is not `host:port`.
    BadAddress,
    /// The port is no port number.
    BadPort,
    /// The server exited, with a status and its output in words.
    ServerExited(String),
    /// Every NBD device is in use.
    NoDevice,
    /// The client could not attach the device.
    AttachFailed(String),
    /// The device never reported a size.
    NoSize { device: String, last: u64 },
}

/// The host and port of a listen address.
pub fn listen_parts(listen: &str) -> (r: Result<(String, u16), ConnectError>)
    ensures
        ({
            let p = text::split(listen@, ':');
            if p.len() != 2 {
                r matches Err(ConnectError::BadAddress)
            } else {
                match text::number(p[1], u16::MAX as nat) {
                    None => r matches Err(ConnectError::BadPort),
                    Some(n) => r matches Ok((host, port)) && host@ == p[0] && port == n,
                }
            }
        }),
{
    let p = text::split_at(listen, ':');
    proof {
        assert(text::views(p@).len() == p@.len());
    }
    if p.len() != 2 {
        return Err(ConnectError::BadAddress);
    }
    proof {
        assert(text::views(p@)[0] == p@[0]@);
        assert(text::views(p@)[1] == p@[1]@);
    }
    match text::parse_u16(p[1].as_str()) {
        None => Err(ConnectError::BadPort),
        Some(port) => Ok((p[0].clone(), port)),
    }
}

/// Where connecting an NBD device stands.
#[derive(Debug)]
pub enum ConnectState {
    /// Waiting for the server to listen.
    AwaitServer,
    /// About to look once more whether the server is alive.
    CheckServer,
    /// About to look for an unused device.
    PickDevice,
    /// About to run the client on a device.
    Attach { device: String },
    /// Waiting for the kernel to publish the device's size.
    AwaitSize { device: String, last: u64 },
    /// Done, with the device or the reason why there is none.
    Finished(Result<String, ConnectError>),
}

/// What was found out while connecting.
#[derive(Debug)]
pub enum ConnectEvent {
    /// The time is up.
    Expired,
    /// The server has exited.
    Exited(String),
    /// The server is alive; `listening` says whether it accepts connections.
    Alive { listening: bool },
    /// The unused devices.
    Devices(Vec<String>),
    /// The client has run.
    Attached(Result<(), String>),
    /// What the device reports as its size; nothing while it cannot be asked.
    Size(Option<String>),
}

/// The size that a report stands for: 0 for one that is no number.
pub open spec fn reported_size(t: Seq<char>) -> nat {
    match text::number(text::trim(t), u64::MAX as nat) {
        Some(n) => n,
        None => 0,
    }
}

/// The connection protocol, as a relation between a state, what was found out, and
/// the next state.
pub open spec fn connects(s: ConnectState, e: ConnectEvent, n: ConnectState) -> bool {
    match (s, e) {
        (ConnectState::AwaitServer, ConnectEvent::Expired) => n == ConnectState::CheckServer,
        (ConnectState::AwaitServer, ConnectEvent::Exited(w)) => n == ConnectState::Finished(
            Err(ConnectError::ServerExited(w)),
        ),
        (ConnectState::AwaitServer, ConnectEvent::Alive { listening }) => n == (if listening {
            ConnectState::CheckServer
        } else {
            ConnectState::AwaitServer
        }),
        (ConnectState::CheckServer, ConnectEvent::Exited(w)) => n == ConnectState::Finished(
            Err(ConnectError::ServerExited(w)),
        ),
        (ConnectState::CheckServer, ConnectEvent::Alive { .. }) => n == ConnectState::PickDevice,
        (ConnectState::PickDevice, ConnectEvent::Devices(d)) => if d@.len() == 0 {
            n == ConnectState::Finished(Err(ConnectError::NoDevice))
        } else {
            n matches ConnectState::Attach { device } && device@ == d@[0]@
        },
        (ConnectState::Attach { device }, ConnectEvent::Attached(r)) => n == (match r {
            Ok(_) => ConnectState::AwaitSize { device, last: 0 },
            Err(w) => ConnectState::Finished(Err(ConnectError::AttachFailed(w))),
        }),
        (ConnectState::AwaitSize { device, last }, ConnectEvent::Expired) => n
            == ConnectState::Finished(Err(ConnectError::NoSize { device, last })),
        (ConnectState::AwaitSize { device, last }, ConnectEvent::Size(Some(t))) => if reported_size(
            t@,
        ) > 0 {
            n == ConnectState::Finished(Ok(device))
        } else {
            n == ConnectState::AwaitSize { device, last: 0 }
        },
        _ => n == s,
    }
}

/// Take one step of connecting an NBD device.
///
/// The server must be listening, or the time for it be up with the server still
/// alive, before a device is picked; the first unused device is attached; and the
/// device is handed out only once it reports a non-zero size, since making a
/// filesystem earlier would fail. What does not fit the state changes nothing.
pub fn connect_step(s: ConnectState, e: ConnectEvent) -> (n: ConnectState)
    ensures
        connects(s, e, n),
{
    match (s, e) {
        (ConnectState::AwaitServer, ConnectEvent::Expired) => ConnectState::CheckServer,
        (ConnectState::AwaitServer, ConnectEvent::Exited(w)) => ConnectState::Finished(
            Err(ConnectError::ServerExited(w)),
        ),
        (ConnectState::AwaitServer, ConnectEvent::Alive { listening }) => {
            if listening {
                ConnectState::CheckServer
            } else {
                ConnectState::AwaitServer
            }
        },
        (ConnectState::CheckServer, ConnectEvent::Exited(w)) => ConnectState::Finished(
            Err(ConnectError::ServerExited(w)),
        ),
        (ConnectState::CheckServer, ConnectEvent::Alive { .. }) => ConnectState::PickDevice,
        (ConnectState::PickDevice, ConnectEvent::Devices(d)) => {
            if d.len() == 0 {
                ConnectState::Finished(Err(ConnectError::NoDevice))
            } else {
                ConnectState::Attach { device: d[0].clone() }
            }
        },
        (ConnectState::Attach { device }, ConnectEvent::Attached(r)) => {
            match r {
                Ok(_) => ConnectState::AwaitSize { device, last: 0 },
                Err(w) => ConnectState::Finished(Err(ConnectError::AttachFailed(w))),
            }
        },
        (ConnectState::AwaitSize { device, last }, ConnectEvent::Expired) => ConnectState::Finished(
            Err(ConnectError::NoSize { device, last }),
        ),
        (ConnectState::AwaitSize { device, last }, ConnectEvent::Size(Some(t))) => {
            let size: u64 = match text::parse_u64(text::trimmed(t.as_str()).as_str()) {
                Some(n) => n,
                None => 0,
            };
            if size > 0 {
                ConnectState::Finished(Ok(device))
            } else {
                ConnectState::AwaitSize { device, last: size }
            }
        },
        (s, _) => s,
    }
}

/// The states that a run of the protocol goes through.
pub open spec fn connect_run(states: Seq<ConnectState>, events: Seq<ConnectEvent>) -> bool {
    &&& states.len() == events.len() + 1
    &&& states[0] is AwaitServer
    &&& forall|i: int|
        0 <= i < events.len() ==> connects(#[trigger] states[i], events[i], states[i + 1])
}

/// A device has reported a size.
pub open spec fn reports_size(e: ConnectEvent) -> bool {
    e matches ConnectEvent::Size(Some(t)) && reported_size(t@) > 0
}

/// A device is handed out only after it was attached and reported a size.
pub proof fn a_connected_device_has_a_size(states: Seq<ConnectState>, events: Seq<ConnectEvent>)
    requires
        connect_run(states, events),
        states.last() matches ConnectState::Finished(Ok(_)),
    ensures
        exists|i: int|
            0 <= i < events.len() && #[trigger] reports_size(events[i]) && states[i] is AwaitSize,
    decreases events.len(),
{
    let n = events.len() as int;
    assert(n > 0);
    let s = states[n - 1];
    let e = events[n - 1];
    assert(connects(s, e, states[n]));
    if s matches ConnectState::Finished(Ok(_)) {
        let fewer = states.take(n);
        let before = events.take(n - 1);
        assert(fewer.last() == s);
        assert forall|i: int| 0 <= i < before.len() implies connects(
            #[trigger] fewer[i],
            before[i],
            fewer[i + 1],
        ) by {
            assert(connects(states[i], events[i], states[i + 1]));
        }
        a_connected_device_has_a_size(fewer, before);
        let i = choose|i: int|
            0 <= i < before.len() && #[trigger] reports_size(before[i]) && fewer[i] is AwaitSize;
        assert(reports_size(events[i]));
    } else {
        assert(reports_size(events[n - 1]) && states[n - 1] is AwaitSize);
    }
}

/// The arguments of the NBD client: host, port, device, and the legacy interface
/// that older kernels need.
pub fn nbd_client_args(host: &str, port: u16, device: &str) -> (r: Vec<String>)
    ensures
        text::views(r@) == seq![host@, text::decimal(port as nat), device@, "-L"@],
{
    let mut r: Vec<String> = Vec::new();
    assert(text::views(r@) == Seq::<Seq<char>>::empty());
    text::put(&mut r, host);
    text::put(&mut r, text::decimal_of(port as u64).as_str());
    text::put(&mut r, device);
    text::put(&mut r, "-L");
    assert(text::views(r@) =~= seq![host@, text::decimal(port as nat), device@, "-L"@]);
    r
}

// ── Filesystems ─────────────────────────────────────────────────────────────

/// Built-in `mkfs` and mount options of a filesystem type.
#[derive(Debug)]
pub struct FsProfile {
    /// Options passed to `mkfs.<fs>` before the device, or `None` when the
    /// filesystem cannot be created on a live device.
    pub mkfs_options: Option<Vec<String>>,
    /// Default mount `-o` options.
    pub mount_options: Vec<String>,
}

/// An ext filesystem.
pub open spec fn is_ext(fs: Seq<char>) -> bool {
    fs == "ext2"@ || fs == "ext3"@ || fs == "ext4"@
}

/// The `mkfs` options of a filesystem type; nothing for one that is only ever
/// mounted from a template (squashfs, zfs, ntfs) and for an unknown one.
pub open spec fn mkfs_options(fs: Seq<char>) -> Option<Seq<Seq<char>>> {
    if is_ext(fs) {
        Some(seq!["-F"@, "-E"@, "nodiscard,lazy_itable_init=1,lazy_journal_init=1"@])
    } else if fs == "xfs"@ || fs == "btrfs"@ {
        Some(seq!["-f"@])
    } else {
        None
    }
}

fn is_ext_fs(fs: &str) -> (r: bool)
    ensures
        r == is_ext(fs@),
{
    text::same(fs, "ext2") || text::same(fs, "ext3") || text::same(fs, "ext4")
}

/// The texts of an optional list.
pub open spec fn opt_views(o: Option<Vec<String>>) -> Option<Seq<Seq<char>>> {
    match o {
        Some(v) => Some(text::views(v@)),
        None => None,
    }
}

/// The built-in formatting and mount profile of `fs_type`.
pub fn fs_profile(fs_type: &str) -> (r: FsProfile)
    ensures
        opt_views(r.mkfs_options) == mkfs_options(fs_type@),
        r.mount_options@.len() == 0,
{
    let mut v: Vec<String> = Vec::new();
    assert(text::views(v@) == Seq::<Seq<char>>::empty());
    if is_ext_fs(fs_type) {
        text::put(&mut v, "-F");
        text::put(&mut v, "-E");
        text::put(&mut v, "nodiscard,lazy_itable_init=1,lazy_journal_init=1");
        assert(text::views(v@) =~= mkfs_options(fs_type@)->0);
        FsProfile { mkfs_options: Some(v), mount_options: Vec::new() }
    } else if text::same(fs_type, "xfs") || text::same(fs_type, "btrfs") {
        text::put(&mut v, "-f");
        assert(text::views(v@) =~= mkfs_options(fs_type@)->0);
        FsProfile { mkfs_options: Some(v), mount_options: Vec::new() }
    } else {
        FsProfile { mkfs_options: None, mount_options: Vec::new() }
    }
}

/// A filesystem type that cannot be created on a live device.
#[derive(Debug)]
pub struct Unformattable {
    pub dev: String,
    pub fs_type: String,
}

impl Unformattable {
    /// The refusal, in words.
    pub fn message(&self) -> (r: String)
        ensures
            r@ == "filesystem type \""@ + self.fs_type@
                + "\" does not support mkfs (cannot format "@ + self.dev@ + ")"@,
    {
        let mut r = text::concat3(
            "filesystem type \"",
            self.fs_type.as_str(),
            "\" does not support mkfs (cannot format ",
        );
        r.append(self.dev.as_str());
        r.append(")");
        r
    }
}

/// The command that creates a filesystem of type `fs_type` on the blank device
/// `dev`. Refused for types that cannot be created on a live device.
pub fn mkfs(dev: &str, fs_type: &str) -> (r: Result<CommandLine, Unformattable>)
    ensures
        match mkfs_options(fs_type@) {
            Some(o) => r matches Ok(c) && c.program@ == "mkfs."@ + fs_type@ && text::views(c.args@)
                == o.push(dev@),
            None => r matches Err(e) && e.dev@ == dev@ && e.fs_type@ == fs_type@,
        },
{
    match fs_profile(fs_type).mkfs_options {
        Some(o) => {
            let mut args = o;
            text::put(&mut args, dev);
            Ok(CommandLine { program: text::concat("mkfs.", fs_type), args })
        },
        None => Err(Unformattable { dev: dev.to_owned(), fs_type: fs_type.to_owned() }),
    }
}

/// How to run `fsck` on a device before mounting it.
#[derive(Clone, Copy, Debug, PartialEq, Eq, Structural)]
pub enum FsckMode {
    /// Don't run `fsck` (default).
    Off,
    /// `fsck -a`: automatically repair (preen) the filesystem.
    Preen,
    /// `fsck -f -y`: force a full check and answer "yes" to every repair prompt.
    Force,
}

/// The mode that a setting names, whatever its case and surrounding space.
pub open spec fn fsck_mode(value: Seq<char>) -> Option<FsckMode> {
    let v = text::lower_text(text::trim(value));
    if v.len() == 0 || v == "false"@ || v == "off"@ || v == "no"@ || v == "none"@ || v == "0"@ {
        Some(FsckMode::Off)
    } else if v == "true"@ || v == "auto"@ || v == "preen"@ || v == "yes"@ || v == "on"@ || v
        == "1"@ {
        Some(FsckMode::Preen)
    } else if v == "force"@ || v == "full"@ {
        Some(FsckMode::Force)
    } else {
        None
    }
}

/// A setting that names no mode.
#[derive(Clone, Copy, Debug, PartialEq, Eq, Structural)]
pub struct UnknownFsckMode {}

impl FsckMode {
    /// Parse an `fsck` setting. Recognised values (in any case):
    /// empty, `false`, `off`, `no`, `none`, `0` for [`FsckMode::Off`];
    /// `true`, `auto`, `preen`, `yes`, `on`, `1` for [`FsckMode::Preen`];
    /// `force`, `full` for [`FsckMode::Force`].
    pub fn parse(value: &str) -> (r: Result<FsckMode, UnknownFsckMode>)
        ensures
            match fsck_mode(value@) {
                Some(m) => r == Ok::<FsckMode, UnknownFsckMode>(m),
                None => r is Err,
            },
    {
        let v = text::to_lower(text::trimmed(value).as_str());
        let s = v.as_str();
        if s.is_empty() || text::same(s, "false") || text::same(s, "off") || text::same(s, "no")
            || text::same(s, "none") || text::same(s, "0") {
            Ok(FsckMode::Off)
        } else if text::same(s, "true") || text::same(s, "auto") || text::same(s, "preen")
            || text::same(s, "yes") || text::same(s, "on") || text::same(s, "1") {
            Ok(FsckMode::Preen)
        } else if text::same(s, "force") || text::same(s, "full") {
            Ok(FsckMode::Force)
        } else {
            Err(UnknownFsckMode {  })
        }
    }
}

/// The arguments of `fsck`; nothing when it is not to be run.
pub fn fsck_args(dev: &str, fs_type: &str, mode: FsckMode) -> (r: Option<Vec<String>>)
    ensures
        opt_views(r) == (match mode {
            FsckMode::Off => None,
            FsckMode::Preen => Some(seq!["-t"@, fs_type@, "-a"@, dev@]),
            FsckMode::Force => Some(seq!["-t"@, fs_type@, "-f"@, "-y"@, dev@]),
        }),
{
    let mut v: Vec<String> = Vec::new();
    assert(text::views(v@) == Seq::<Seq<char>>::empty());
    text::put(&mut v, "-t");
    text::put(&mut v, fs_type);
    match mode {
        FsckMode::Off => None,
        FsckMode::Preen => {
            text::put(&mut v, "-a");
            text::put(&mut v, dev);
            assert(text::views(v@) =~= seq!["-t"@, fs_type@, "-a"@, dev@]);
            Some(v)
        },
        FsckMode::Force => {
            text::put(&mut v, "-f");
            text::put(&mut v, "-y");
            text::put(&mut v, dev);
            assert(text::views(v@) =~= seq!["-t"@, fs_type@, "-f"@, "-y"@, dev@]);
            Some(v)
        },
    }
}

/// Whether an exit code of `fsck` is success: 0 (clean) and 1 (errors corrected)
/// are; every other one, and no code at all, is not.
pub fn fsck_passed(code: Option<i32>) -> (r: bool)
    ensures
        r == (code == Some(0i32) || code == Some(1i32)),
{
    match code {
        Some(c) => c == 0 || c == 1,
        None => false,
    }
}

/// The mount options: the given flags and, for a read-only mount, `ro` and (on an
/// ext filesystem, whose journal cannot be replayed) `noload`.
pub open spec fn mount_options(fs: Seq<char>, flags: Seq<Seq<char>>, readonly: bool) -> Seq<
    Seq<char>,
> {
    if readonly {
        let o = flags.push("ro"@);
        if is_ext(fs) && !o.contains("noload"@) {
            o.push("noload"@)
        } else {
            o
        }
    } else {
        flags
    }
}

/// The arguments of a mount.
pub open spec fn mount_line(
    dev: Seq<char>,
    target: Seq<char>,
    fs: Seq<char>,
    flags: Seq<Seq<char>>,
    readonly: bool,
) -> Seq<Seq<char>> {
    let o = mount_options(fs, flags, readonly);
    seq!["-t"@, fs] + (if o.len() > 0 {
        seq!["-o"@, text::join(o, ","@)]
    } else {
        Seq::empty()
    }) + seq![dev, target]
}

/// The arguments that mount `dev` at `target`.
pub fn mount_args(
    dev: &str,
    target: &str,
    fs_type: &str,
    mount_flags: &Vec<String>,
    readonly: bool,
) -> (r: Vec<String>)
    ensures
        text::views(r@) == mount_line(
            dev@,
            target@,
            fs_type@,
            text::views(mount_flags@),
            readonly,
        ),
{
    let mut options: Vec<String> = Vec::new();
    assert(text::views(options@) == Seq::<Seq<char>>::empty());
    text::put_all(&mut options, mount_flags);
    assert(text::views(options@) =~= text::views(mount_flags@));
    if readonly {
        text::put(&mut options, "ro");
        if is_ext_fs(fs_type) && !text::among(&options, "noload") {
            text::put(&mut options, "noload");
        }
    }
    let ghost o = mount_options(fs_type@, text::views(mount_flags@), readonly);
    assert(text::views(options@) == o);
    assert(options@.len() == o.len());
    let mut args: Vec<String> = Vec::new();
    assert(text::views(args@) == Seq::<Seq<char>>::empty());
    text::put(&mut args, "-t");
    text::put(&mut args, fs_type);
    if options.len() > 0 {
        text::put(&mut args, "-o");
        assert(text::views(options@).skip(0) == text::views(options@));
        text::put(&mut args, text::join_all(&options, 0, ",").as_str());
    }
    text::put(&mut args, dev);
    text::put(&mut args, target);
    assert(text::views(args@) =~= mount_line(
        dev@,
        target@,
        fs_type@,
        text::views(mount_flags@),
        readonly,
    ));
    args
}

/// A read-only mount always says so.
pub proof fn a_read_only_mount_is_read_only(fs: Seq<char>, flags: Seq<Seq<char>>)
    ensures
        mount_options(fs, flags, true).contains("ro"@),
        is_ext(fs) ==> mount_options(fs, flags, true).contains("noload"@),
{
    let o = flags.push("ro"@);
    assert(o[flags.len() as int] == "ro"@);
    assert(mount_options(fs, flags, true)[flags.len() as int] == "ro"@);
    if is_ext(fs) && !o.contains("noload"@) {
        assert(mount_options(fs, flags, true)[o.len() as int] == "noload"@);
    }
}

/// Whether unmounting has left the target unmounted: the command succeeded, or it
/// complained that nothing was mounted there.
pub fn unmounted(success: bool, stderr: &str) -> (r: bool)
    ensures
        r == (success || text::has_text(stderr@, "not mounted"@) || text::has_text(
            stderr@,
            "not currently mounted"@,
        )),
{
    success || text::contains_text(stderr, "not mounted") || text::contains_text(
        stderr,
        "not currently mounted",
    )
}

// ── Ephemeral overlays ──────────────────────────────────────────────────────

/// Node-local scratch directories backing an *ephemeral overlay* mount.
///
/// The immutable filesystem is mounted at `lower`, and an overlay with a writable
/// `upper` and an empty `work` is stacked on top. `lower` is a hidden sibling of
/// the CSI target. `upper` and `work` share one filesystem outside the merged
/// mount: they are hidden siblings too, or lie under an operator-chosen base.
#[derive(Clone, Debug, PartialEq, Eq)]
pub struct OverlayDirs {
    /// Read-only mount point of the immutable lower filesystem.
    pub lower: String,
    /// Writable upper layer (pod-local changes land here).
    pub upper: String,
    /// Overlay work directory.
    pub work: String,
    /// Per-volume scratch root holding `upper` and `work` when an operator-chosen
    /// scratch base is used.
    pub scratch_root: Option<String>,
}

/// The texts of overlay directories.
pub struct DirsView {
    pub lower: Seq<char>,
    pub upper: Seq<char>,
    pub work: Seq<char>,
    pub scratch_root: Option<Seq<char>>,
}

impl View for OverlayDirs {
    type V = DirsView;

    open spec fn view(&self) -> DirsView {
        DirsView {
            lower: self.lower@,
            upper: self.upper@,
            work: self.work@,
            scratch_root: text::opt_view(self.scratch_root),
        }
    }
}

/// The character that stands for `c` in a path component.
pub open spec fn component_char(c: char) -> char {
    if text::is_alnum(c) || c == '-' || c == '_' {
        c
    } else {
        '_'
    }
}

/// `s` as one path component.
pub open spec fn component(s: Seq<char>) -> Seq<char> {
    s.map_values(|c: char| component_char(c))
}

/// Sanitize a string to a filesystem-safe component (alphanumerics plus `-` and
/// `_`), so that a volume id cannot leave the directory it names a place in.
pub fn sanitize_component(s: &str) -> (r: String)
    ensures
        r@ == component(s@),
{
    let v = text::chars_of(s);
    let mut r = String::new();
    let mut i: usize = 0;
    while i < v.len()
        invariant
            v@ == s@,
            i <= v@.len(),
            r@ == component(s@.take(i as int)),
        decreases v@.len() - i,
    {
        let c = v[i];
        let d = if text::is_alnum_char(c) || c == '-' || c == '_' {
            c
        } else {
            '_'
        };
        r.push(d);
        assert(component(s@.take(i + 1)) == component(s@.take(i as int)).push(
            component_char(s@[i as int]),
        ));
        i = i + 1;
    }
    assert(s@.take(s@.len() as int) == s@);
    r
}

/// A sanitized component holds no separator and is neither `.` nor `..`.
pub proof fn components_do_not_traverse(s: Seq<char>)
    ensures
        !text::has_char(component(s), '/'),
        !text::has_char(component(s), '.'),
        component(s).len() == s.len(),
{
    assert forall|i: int| 0 <= i < component(s).len() implies component(s)[i] != '/'
        && component(s)[i] != '.' by {
        assert(component(s)[i] == component_char(s[i]));
    }
    text::lemma_index_free(component(s), '/');
    text::lemma_index_free(component(s), '.');
}

/// A hidden sibling of a target.
pub open spec fn sibling(target: Seq<char>, name: Seq<char>) -> Seq<char> {
    paths::join(
        match paths::parent(target) {
            Some(p) => p,
            None => "/"@,
        },
        name,
    )
}

/// The overlay directories of a volume.
pub open spec fn overlay_layout(
    target: Seq<char>,
    scratch_base: Option<Seq<char>>,
    volume_id: Seq<char>,
) -> DirsView {
    match scratch_base {
        Some(base) => {
            let root = paths::join(base, component(volume_id));
            DirsView {
                lower: sibling(target, ".ublk-overlay-lower"@),
                upper: paths::join(root, "upper"@),
                work: paths::join(root, "work"@),
                scratch_root: Some(root),
            }
        },
        None => DirsView {
            lower: sibling(target, ".ublk-overlay-lower"@),
            upper: sibling(target, ".ublk-overlay-upper"@),
            work: sibling(target, ".ublk-overlay-work"@),
            scratch_root: None,
        },
    }
}

/// Where a component lies below a scratch base, and a name below that.
proof fn lemma_below(base: Seq<char>, c: Seq<char>, name: Seq<char>)
    requires
        !text::has_char(c, '/'),
        name.len() > 0,
        name[0] != '/',
    ensures
        ({
            let front = if base.len() > 0 && base.last() != '/' {
                base + "/"@
            } else {
                base
            };
            let root = paths::join(base, c);
            &&& root == front + c
            &&& paths::join(root, name) == front + (if c.len() > 0 {
                c + "/"@ + name
            } else {
                name
            })
        }),
{
    reveal_strlit("/");
    let front = if base.len() > 0 && base.last() != '/' {
        base + "/"@
    } else {
        base
    };
    let root = paths::join(base, c);
    if c.len() > 0 {
        text::lemma_free_index(c, '/');
        assert(root.last() == c.last());
        assert(paths::join(root, name) =~= front + (c + "/"@ + name));
    } else {
        assert(root =~= front);
        assert(paths::join(root, name) =~= front + name);
    }
}

proof fn lemma_below_differs(base: Seq<char>, a: Seq<char>, b: Seq<char>, name: Seq<char>)
    requires
        !text::has_char(a, '/'),
        !text::has_char(b, '/'),
        a != b,
        name.len() > 0,
        name[0] != '/',
    ensures
        paths::join(base, a) != paths::join(base, b),
        paths::join(paths::join(base, a), name) != paths::join(paths::join(base, b), name),
{
    reveal_strlit("/");
    lemma_below(base, a, name);
    lemma_below(base, b, name);
    let front = if base.len() > 0 && base.last() != '/' {
        base + "/"@
    } else {
        base
    };
    let k = front.len() as int;
    if paths::join(base, a) == paths::join(base, b) {
        assert((front + a).skip(k) =~= a);
        assert((front + b).skip(k) =~= b);
    }
    if paths::join(paths::join(base, a), name) == paths::join(paths::join(base, b), name) {
        let x = paths::join(paths::join(base, a), name);
        assert(x.len() == k + name.len() + (if a.len() > 0 {
            a.len() + 1
        } else {
            0
        }));
        assert(x.len() == k + name.len() + (if b.len() > 0 {
            b.len() + 1
        } else {
            0
        }));
        assert(x.subrange(k, k + a.len()) =~= a);
        assert(x.subrange(k, k + b.len()) =~= b);
    }
}

/// Volumes whose ids differ once sanitized have writable overlay directories of their
/// own under one scratch base.
pub proof fn volumes_do_not_share_overlay_directories(
    target_a: Seq<char>,
    target_b: Seq<char>,
    base: Seq<char>,
    a: Seq<char>,
    b: Seq<char>,
)
    requires
        component(a) != component(b),
    ensures
        ({
            let x = overlay_layout(target_a, Some(base), a);
            let y = overlay_layout(target_b, Some(base), b);
            x.upper != y.upper && x.work != y.work && x.scratch_root != y.scratch_root
        }),
{
    components_do_not_traverse(a);
    components_do_not_traverse(b);
    reveal_strlit("upper");
    reveal_strlit("work");
    lemma_below_differs(base, component(a), component(b), "upper"@);
    lemma_below_differs(base, component(a), component(b), "work"@);
}

fn sibling_of(target: &str, name: &str) -> (r: String)
    ensures
        r@ == sibling(target@, name@),
{
    match paths::parent_of(target) {
        Some(p) => paths::joined(p.as_str(), name),
        None => paths::joined("/", name),
    }
}

/// Derive the per-volume overlay scratch directories from the CSI `target` path.
///
/// Without a scratch base they are hidden siblings of the target; with one, the
/// writable pair lies under `<base>/<sanitized volume id>/{upper,work}`.
pub fn overlay_dirs(target: &str, scratch_base: Option<&str>, volume_id: &str) -> (r: OverlayDirs)
    ensures
        r@ == overlay_layout(
            target@,
            match scratch_base {
                Some(b) => Some(b@),
                None => None,
            },
            volume_id@,
        ),
{
    let lower = sibling_of(target, ".ublk-overlay-lower");
    match scratch_base {
        Some(base) => {
            let root = paths::joined(base, sanitize_component(volume_id).as_str());
            OverlayDirs {
                lower,
                upper: paths::joined(root.as_str(), "upper"),
                work: paths::joined(root.as_str(), "work"),
                scratch_root: Some(root),
            }
        },
        None => OverlayDirs {
            lower,
            upper: sibling_of(target, ".ublk-overlay-upper"),
            work: sibling_of(target, ".ublk-overlay-work"),
            scratch_root: None,
        },
    }
}

/// The options of an overlay mount.
pub open spec fn overlay_options(d: DirsView) -> Seq<char> {
    "lowerdir="@ + d.lower + ",upperdir="@ + d.upper + ",workdir="@ + d.work
}

/// The arguments that stack the overlay at `target`.
pub fn overlay_args(target: &str, dirs: &OverlayDirs) -> (r: Vec<String>)
    ensures
        text::views(r@) == seq![
            "-t"@,
            "overlay"@,
            "overlay"@,
            "-o"@,
            overlay_options(dirs@),
            target@,
        ],
{
    let mut o = text::concat3("lowerdir=", dirs.lower.as_str(), ",upperdir=");
    o.append(dirs.upper.as_str());
    o.append(",workdir=");
    o.append(dirs.work.as_str());
    let mut r: Vec<String> = Vec::new();
    assert(text::views(r@) == Seq::<Seq<char>>::empty());
    text::put(&mut r, "-t");
    text::put(&mut r, "overlay");
    text::put(&mut r, "overlay");
    text::put(&mut r, "-o");
    text::put(&mut r, o.as_str());
    text::put(&mut r, target);
    assert(text::views(r@) =~= seq![
        "-t"@,
        "overlay"@,
        "overlay"@,
        "-o"@,
        overlay_options(dirs@),
        target@,
    ]);
    r
}

// ── Published volumes ───────────────────────────────────────────────────────

/// Persisted, node-local record of a published volume, written next to the CSI
/// target and reloaded when the node plugin starts again.
#[derive(Debug, Clone, PartialEq, Eq)]
pub struct VolumeMeta {
    pub volume_id: String,
    /// Backing device node (`/dev/nbdN` or `/dev/ublkbN`).
    pub device: String,
    /// PID of the child process serving the device.
    pub pid: u32,
    /// Whether the device is served over NBD (`/dev/nbdN`) or ublk.
    pub nbd: bool,
    /// Overlay scratch dirs when the volume is published through an ephemeral
    /// overlay.
    pub overlay: Option<OverlayDirs>,
}

/// The texts of a record.
pub struct MetaView {
    pub volume_id: Seq<char>,
    pub device: Seq<char>,
    pub pid: nat,
    pub nbd: bool,
    pub overlay: Option<DirsView>,
}

impl View for VolumeMeta {
    type V = MetaView;

    open spec fn view(&self) -> MetaView {
        MetaView {
            volume_id: self.volume_id@,
            device: self.device@,
            pid: self.pid as nat,
            nbd: self.nbd,
            overlay: match self.overlay {
                Some(o) => Some(o@),
                None => None,
            },
        }
    }
}

/// `true` or `false`.
pub open spec fn bool_text(b: bool) -> Seq<char> {
    if b {
        "true"@
    } else {
        "false"@
    }
}

/// The fields of a record, in order.
pub open spec fn meta_fields(m: MetaView) -> Seq<(Seq<char>, Seq<char>)> {
    let head = seq![
        ("volume_id"@, m.volume_id),
        ("device"@, m.device),
        ("pid"@, text::decimal(m.pid)),
        ("nbd"@, bool_text(m.nbd)),
    ];
    match m.overlay {
        Some(o) => {
            let dirs = head + seq![
                ("overlay"@, "true"@),
                ("lower"@, o.lower),
                ("upper"@, o.upper),
                ("work"@, o.work),
            ];
            match o.scratch_root {
                Some(root) => dirs.push(("scratch_root"@, root)),
                None => dirs,
            }
        },
        None => head.push(("overlay"@, "false"@)),
    }
}

/// One line of a record.
pub open spec fn field_line(f: (Seq<char>, Seq<char>)) -> Seq<char> {
    f.0 + "\t"@ + f.1
}

/// A record as text: one `key<TAB>value` line per field.
pub open spec fn record_text(fields: Seq<(Seq<char>, Seq<char>)>) -> Seq<char>
    decreases fields.len(),
{
    if fields.len() == 0 {
        Seq::empty()
    } else {
        record_text(fields.drop_last()) + field_line(fields.last()) + "\n"@
    }
}

/// The fields of a text's first `n` lines: each line with a tab is split at the
/// first one, and its key trimmed.
pub open spec fn fields_upto(lines: Seq<Seq<char>>, n: int) -> Seq<(Seq<char>, Seq<char>)>
    decreases n,
{
    if n <= 0 || n > lines.len() {
        Seq::empty()
    } else {
        let line = lines[n - 1];
        let k = text::find_from(line, '\t', 0);
        if k < line.len() {
            fields_upto(lines, n - 1).push((text::trim(line.take(k)), line.skip(k + 1)))
        } else {
            fields_upto(lines, n - 1)
        }
    }
}

/// What a record's text says: for each key, the last value.
pub open spec fn record_table(t: Seq<char>) -> Map<Seq<char>, Seq<char>> {
    let lines = text::lines(t);
    table::settings(fields_upto(lines, lines.len() as int))
}

/// The record that a table of fields stands for; nothing where a required field
/// is missing or malformed.
pub open spec fn meta_from(t: Map<Seq<char>, Seq<char>>) -> Option<MetaView> {
    match (
        table::value(t, "volume_id"@),
        table::value(t, "device"@),
        table::value(t, "pid"@),
    ) {
        (Some(volume_id), Some(device), Some(p)) => match text::number(p, u32::MAX as nat) {
            Some(pid) => {
                let nbd = table::value(t, "nbd"@) == Some("true"@);
                if table::value(t, "overlay"@) == Some("true"@) {
                    match (
                        table::value(t, "lower"@),
                        table::value(t, "upper"@),
                        table::value(t, "work"@),
                    ) {
                        (Some(lower), Some(upper), Some(work)) => Some(
                            MetaView {
                                volume_id,
                                device,
                                pid,
                                nbd,
                                overlay: Some(
                                    DirsView {
                                        lower,
                                        upper,
                                        work,
                                        scratch_root: table::value(t, "scratch_root"@),
                                    },
                                ),
                            },
                        ),
                        _ => None,
                    }
                } else {
                    Some(MetaView { volume_id, device, pid, nbd, overlay: None })
                }
            },
            None => None,
        },
        _ => None,
    }
}

/// An optional record over views.
pub open spec fn meta_view(m: Option<VolumeMeta>) -> Option<MetaView> {
    match m {
        Some(x) => Some(x@),
        None => None,
    }
}

/// Path of the metadata sidecar for `target`: a hidden sibling of it.
pub fn meta_path(target: &str) -> (r: String)
    ensures
        r@ == sibling(target@, ".ublk-volume-meta"@),
{
    sibling_of(target, ".ublk-volume-meta")
}

fn put_field(s: &mut String, key: &str, value: &str, Ghost(fields): Ghost<Seq<(Seq<char>, Seq<char>)>>)
    requires
        old(s)@ == record_text(fields),
    ensures
        final(s)@ == record_text(fields.push((key@, value@))),
{
    s.append(key);
    s.append("\t");
    s.append(value);
    s.append("\n");
    proof {
        let more = fields.push((key@, value@));
        assert(more.drop_last() == fields);
        assert(s@ == record_text(fields) + field_line((key@, value@)) + "\n"@);
    }
}

impl VolumeMeta {
    /// Serialize to a simple tab-separated `key<TAB>value` line format.
    pub fn serialize(&self) -> (r: String)
        ensures
            r@ == record_text(meta_fields(self@)),
    {
        let mut s = String::new();
        let ghost f: Seq<(Seq<char>, Seq<char>)> = Seq::empty();
        put_field(&mut s, "volume_id", self.volume_id.as_str(), Ghost(f));
        let ghost f = f.push(("volume_id"@, self.volume_id@));
        put_field(&mut s, "device", self.device.as_str(), Ghost(f));
        let ghost f = f.push(("device"@, self.device@));
        put_field(&mut s, "pid", text::decimal_of(self.pid as u64).as_str(), Ghost(f));
        let ghost f = f.push(("pid"@, text::decimal(self.pid as nat)));
        let nbd = if self.nbd {
            "true"
        } else {
            "false"
        };
        put_field(&mut s, "nbd", nbd, Ghost(f));
        let ghost f = f.push(("nbd"@, bool_text(self.nbd)));
        match &self.overlay {
            Some(o) => {
                put_field(&mut s, "overlay", "true", Ghost(f));
                let ghost f = f.push(("overlay"@, "true"@));
                put_field(&mut s, "lower", o.lower.as_str(), Ghost(f));
                let ghost f = f.push(("lower"@, o.lower@));
                put_field(&mut s, "upper", o.upper.as_str(), Ghost(f));
                let ghost f = f.push(("upper"@, o.upper@));
                put_field(&mut s, "work", o.work.as_str(), Ghost(f));
                let ghost f = f.push(("work"@, o.work@));
                match &o.scratch_root {
                    Some(root) => {
                        put_field(&mut s, "scratch_root", root.as_str(), Ghost(f));
                        let ghost f = f.push(("scratch_root"@, root@));
                        assert(f =~= meta_fields(self@));
                    },
                    None => {
                        assert(f =~= meta_fields(self@));
                    },
                }
            },
            None => {
                put_field(&mut s, "overlay", "false", Ghost(f));
                let ghost f = f.push(("overlay"@, "false"@));
                assert(f =~= meta_fields(self@));
            },
        }
        s
    }

    /// Parse the tab-separated format; nothing if a required field is missing or
    /// malformed.
    pub fn parse(text: &str) -> (r: Option<VolumeMeta>)
        ensures
            meta_view(r) == meta_from(record_table(text@)),
    {
        let t = read_fields(text);
        let volume_id = match t.get("volume_id") {
            Some(v) => v,
            None => {
                return None;
            },
        };
        let device = match t.get("device") {
            Some(v) => v,
            None => {
                return None;
            },
        };
        let pid_text = match t.get("pid") {
            Some(v) => v,
            None => {
                return None;
            },
        };
        let pid: u32 = match text::parse_u32(pid_text.as_str()) {
            Some(n) => n,
            None => {
                return None;
            },
        };
        let nbd = says_true(&t.get("nbd"));
        if says_true(&t.get("overlay")) {
            match (t.get("lower"), t.get("upper"), t.get("work")) {
                (Some(lower), Some(upper), Some(work)) => {
                    let scratch_root = t.get("scratch_root");
                    let overlay = Some(OverlayDirs { lower, upper, work, scratch_root });
                    Some(VolumeMeta { volume_id, device, pid, nbd, overlay })
                },
                _ => None,
            }
        } else {
            Some(VolumeMeta { volume_id, device, pid, nbd, overlay: None })
        }
    }
}

fn says_true(v: &Option<String>) -> (r: bool)
    ensures
        r == (text::opt_view(*v) == Some("true"@)),
{
    match v {
        Some(x) => text::same(x.as_str(), "true"),
        None => false,
    }
}

fn read_fields(t: &str) -> (r: Table)
    ensures
        r@ == record_table(t@),
{
    let lines = text::lines_of(t);
    let ghost all = text::lines(t@);
    let mut r = Table::new();
    let mut i: usize = 0;
    assert(r@ == table::settings(fields_upto(all, 0)));
    while i < lines.len()
        invariant
            i <= lines@.len(),
            all == text::views(lines@),
            all.len() == lines@.len(),
            r@ == table::settings(fields_upto(all, i as int)),
        decreases lines@.len() - i,
    {
        assert(all[i as int] == lines@[i as int]@);
        let v = text::chars_of(lines[i].as_str());
        let k: usize = text::find_char(&v, '\t', 0);
        proof {
            text::lemma_find_from(v@, '\t', 0);
        }
        if k < v.len() {
            let key = text::trimmed(text::slice_of(&v, 0, k).as_str());
            let value = text::slice_of(&v, k + 1, v.len());
            proof {
                assert(v@.subrange(0, k as int) == v@.take(k as int));
                assert(v@.subrange(k + 1, v@.len() as int) == v@.skip(k + 1));
                let front = fields_upto(all, i as int);
                assert(front.push((key@, value@)).drop_last() == front);
            }
            r.insert(key.as_str(), value);
        }
        i = i + 1;
    }
    r
}

/// A value that a line can hold: it has no line feed and no trailing carriage
/// return.
pub open spec fn line_safe(s: Seq<char>) -> bool {
    &&& !text::has_char(s, '\n')
    &&& s.len() > 0 ==> s.last() != '\r'
}

/// A record whose values can stand in lines.
pub open spec fn meta_safe(m: MetaView) -> bool {
    &&& line_safe(m.volume_id)
    &&& line_safe(m.device)
    &&& m.pid <= u32::MAX
    &&& m.overlay matches Some(o) ==> {
        &&& line_safe(o.lower)
        &&& line_safe(o.upper)
        &&& line_safe(o.work)
        &&& o.scratch_root matches Some(root) ==> line_safe(root)
    }
}

/// A key of a record: no white space, no tab, not empty.
pub open spec fn key_safe(k: Seq<char>) -> bool {
    &&& k.len() > 0
    &&& forall|i: int| 0 <= i < k.len() ==> !text::is_space(#[trigger] k[i])
}

proof fn lemma_record_fields(fields: Seq<(Seq<char>, Seq<char>)>)
    requires
        forall|i: int|
            0 <= i < fields.len() ==> key_safe((#[trigger] fields[i]).0) && line_safe(fields[i].1),
    ensures
        text::lines(record_text(fields)).len() == fields.len(),
        fields_upto(text::lines(record_text(fields)), fields.len() as int) == fields,
    decreases fields.len(),
{
    reveal_strlit("\n");
    reveal_strlit("\t");
    if fields.len() == 0 {
        assert(text::lines(record_text(fields)) =~= Seq::<Seq<char>>::empty());
        assert(fields_upto(Seq::empty(), 0) =~= fields);
    } else {
        let front = fields.drop_last();
        lemma_record_fields(front);
        let f = fields.last();
        let line = field_line(f);
        assert(key_safe(fields[fields.len() - 1].0) && line_safe(fields[fields.len() - 1].1));
        text::lemma_free_index(f.1, '\n');
        assert forall|i: int| 0 <= i < line.len() implies line[i] != '\n' by {
            if i < f.0.len() {
                assert(line[i] == f.0[i]);
                assert(text::is_space('\n'));
            } else if i == f.0.len() {
                assert(line[i] == '\t');
            } else {
                assert(line[i] == f.1[i - f.0.len() - 1]);
            }
        }
        text::lemma_index_free(line, '\n');
        assert(line.last() != '\r') by {
            if f.1.len() > 0 {
                assert(line.last() == f.1.last());
            } else {
                assert(line.last() == '\t');
            }
        }
        lemma_record_ends(front);
        text::lemma_lines_push(record_text(front), line);
        let before = text::lines(record_text(front));
        let all = text::lines(record_text(fields));
        assert("\n"@ =~= seq!['\n']);
        assert(record_text(front) + line + "\n"@ == record_text(fields));
        assert(all == before.push(line));
        lemma_fields_prefix(before, all, front.len() as int);
        let k = f.0.len() as int;
        assert(line[k] == '\t');
        assert forall|i: int| 0 <= i < k implies line[i] != '\t' by {
            assert(line[i] == f.0[i]);
            assert(text::is_space('\t'));
        }
        text::lemma_find_at(line, '\t', 0, k);
        assert(line.take(k) =~= f.0);
        assert(line.skip(k + 1) =~= f.1);
        assert(text::trim(f.0) == f.0) by {
            text::lemma_trim_id(f.0);
        }
        assert(fields_upto(all, fields.len() as int) =~= front.push(f));
        assert(front.push(f) =~= fields);
    }
}

proof fn lemma_record_ends(fields: Seq<(Seq<char>, Seq<char>)>)
    ensures
        record_text(fields).len() > 0 ==> record_text(fields).last() == '\n',
{
    reveal_strlit("\n");
}

proof fn lemma_fields_prefix(a: Seq<Seq<char>>, b: Seq<Seq<char>>, n: int)
    requires
        0 <= n <= a.len(),
        a.len() <= b.len(),
        forall|i: int| 0 <= i < n ==> #[trigger] a[i] == b[i],
    ensures
        fields_upto(a, n) == fields_upto(b, n),
    decreases n,
{
    if n > 0 {
        lemma_fields_prefix(a, b, n - 1);
    }
}

/// A record of a published volume reads back as it was written, as long as its
/// values can stand in lines.
pub proof fn volume_meta_reads_back(m: MetaView)
    requires
        meta_safe(m),
    ensures
        meta_from(record_table(record_text(meta_fields(m)))) == Some(m),
{
    let fields = meta_fields(m);
    reveal_strlit("volume_id");
    reveal_strlit("device");
    reveal_strlit("pid");
    reveal_strlit("nbd");
    reveal_strlit("overlay");
    reveal_strlit("lower");
    reveal_strlit("upper");
    reveal_strlit("work");
    reveal_strlit("scratch_root");
    reveal_strlit("true");
    reveal_strlit("false");
    text::lemma_decimal(m.pid);
    text::number_reads_decimal(m.pid, u32::MAX as nat);
    text::lemma_digits_free(text::decimal(m.pid), '\n');
    text::lemma_index_free("true"@, '\n');
    text::lemma_index_free("false"@, '\n');
    assert(line_safe(text::decimal(m.pid)));
    assert(forall|i: int|
        0 <= i < fields.len() ==> key_safe((#[trigger] fields[i]).0) && line_safe(fields[i].1));
    lemma_record_fields(fields);
    assert("true"@ != "false"@);
    assert("volume_id"@.len() == 9 && "device"@.len() == 6 && "pid"@.len() == 3 && "nbd"@.len() == 3);
    assert("overlay"@.len() == 7 && "lower"@.len() == 5 && "upper"@.len() == 5 && "work"@.len() == 4);
    assert("scratch_root"@.len() == 12);
    assert("pid"@[0] == 'p' && "nbd"@[0] == 'n');
    assert("lower"@[0] == 'l' && "upper"@[0] == 'u');
    let t = table::settings(fields);
    let head = seq![
        ("volume_id"@, m.volume_id),
        ("device"@, m.device),
        ("pid"@, text::decimal(m.pid)),
        ("nbd"@, bool_text(m.nbd)),
    ];
    let t0 = Map::<Seq<char>, Seq<char>>::empty().insert("volume_id"@, m.volume_id).insert(
        "device"@,
        m.device,
    ).insert("pid"@, text::decimal(m.pid)).insert("nbd"@, bool_text(m.nbd));
    assert(table::settings(head) == t0) by {
        reveal_with_fuel(table::settings, 6);
        assert(head.drop_last().drop_last().drop_last().drop_last() =~= Seq::<
            (Seq<char>, Seq<char>),
        >::empty());
    }
    match m.overlay {
        None => {
            assert(fields.drop_last() =~= head);
            assert(t == t0.insert("overlay"@, "false"@));
            assert(table::value(t, "overlay"@) == Some("false"@));
            assert(table::value(t, "pid"@) == Some(text::decimal(m.pid)));
            assert(table::value(t, "nbd"@) == Some(bool_text(m.nbd)));
            assert(table::value(t, "device"@) == Some(m.device));
            assert(table::value(t, "volume_id"@) == Some(m.volume_id));
            assert(meta_from(t) == Some(m));
        },
        Some(o) => {
            let t1 = t0.insert("overlay"@, "true"@).insert("lower"@, o.lower).insert(
                "upper"@,
                o.upper,
            ).insert("work"@, o.work);
            let dirs = head + seq![
                ("overlay"@, "true"@),
                ("lower"@, o.lower),
                ("upper"@, o.upper),
                ("work"@, o.work),
            ];
            assert(table::settings(dirs) == t1) by {
                reveal_with_fuel(table::settings, 6);
                assert(dirs.drop_last().drop_last().drop_last().drop_last() =~= head);
            }
            assert(table::value(t1, "work"@) == Some(o.work));
            assert(table::value(t1, "upper"@) == Some(o.upper));
            assert(table::value(t1, "lower"@) == Some(o.lower));
            assert(table::value(t1, "overlay"@) == Some("true"@));
            assert(table::value(t1, "nbd"@) == Some(bool_text(m.nbd)));
            assert(table::value(t1, "pid"@) == Some(text::decimal(m.pid)));
            assert(table::value(t1, "device"@) == Some(m.device));
            assert(table::value(t0, "volume_id"@) == Some(m.volume_id));
            assert(table::value(t1, "volume_id"@) == Some(m.volume_id));
            assert(table::value(t0, "scratch_root"@) is None);
            assert(table::value(t1, "scratch_root"@) is None);
            match o.scratch_root {
                Some(root) => {
                    assert(fields.drop_last() =~= dirs);
                    assert(t == t1.insert("scratch_root"@, root));
                    assert(meta_from(t) == Some(m));
                },
                None => {
                    assert(fields == dirs);
                    assert(meta_from(t) == Some(m));
                },
            }
        },
    }
}

// ── Mounts ──────────────────────────────────────────────────────────────────

/// One parsed line of `/proc/self/mountinfo`.
#[derive(Debug, Clone, PartialEq, Eq)]
pub struct MountEntry {
    pub mountpoint: String,
    pub fstype: String,
    pub source: String,
    pub super_opts: String,
}

/// The texts of a mount entry.
pub struct EntryView {
    pub mountpoint: Seq<char>,
    pub fstype: Seq<char>,
    pub source: Seq<char>,
    pub super_opts: Seq<char>,
}

impl View for MountEntry {
    type V = EntryView;

    open spec fn view(&self) -> EntryView {
        EntryView {
            mountpoint: self.mountpoint@,
            fstype: self.fstype@,
            source: self.source@,
            super_opts: self.super_opts@,
        }
    }
}

/// The position of the first `-` word from `i` on, or the end.
pub open spec fn dash(words: Seq<Seq<char>>, i: int) -> int
    decreases words.len() - i,
{
    if i < 0 || i >= words.len() || words[i] == "-"@ {
        i
    } else {
        dash(words, i + 1)
    }
}

/// The entry of a line: the fifth word is the mount point, and the three words
/// after the first `-` are type, source and options.
pub open spec fn entry_of(line: Seq<char>) -> Option<EntryView> {
    let w = text::words(line);
    let sep = dash(w, 0);
    if w.len() >= 5 && sep + 3 < w.len() {
        Some(
            EntryView {
                mountpoint: w[4],
                fstype: w[sep + 1],
                source: w[sep + 2],
                super_opts: w[sep + 3],
            },
        )
    } else {
        None
    }
}

/// The entries of the first `n` lines.
pub open spec fn entries_upto(lines: Seq<Seq<char>>, n: int) -> Seq<EntryView>
    decreases n,
{
    if n <= 0 || n > lines.len() {
        Seq::empty()
    } else {
        match entry_of(lines[n - 1]) {
            Some(e) => entries_upto(lines, n - 1).push(e),
            None => entries_upto(lines, n - 1),
        }
    }
}

/// The views of a list of entries.
pub open spec fn entry_views(v: Seq<MountEntry>) -> Seq<EntryView> {
    v.map_values(|e: MountEntry| e@)
}

/// Parse `/proc/self/mountinfo` content into entries. The format has a variable
/// number of optional fields terminated by a single `-`, followed by
/// `<fstype> <source> <super_opts>`.
pub fn parse_mountinfo(content: &str) -> (r: Vec<MountEntry>)
    ensures
        entry_views(r@) == entries_upto(text::lines(content@), text::lines(content@).len() as int),
{
    let lines = text::lines_of(content);
    let ghost all = text::lines(content@);
    let mut r: Vec<MountEntry> = Vec::new();
    let mut i: usize = 0;
    assert(entry_views(r@) == entries_upto(all, 0));
    while i < lines.len()
        invariant
            i <= lines@.len(),
            all == text::views(lines@),
            all.len() == lines@.len(),
            entry_views(r@) == entries_upto(all, i as int),
        decreases lines@.len() - i,
    {
        assert(all[i as int] == lines@[i as int]@);
        let w = text::words_of(lines[i].as_str());
        let ghost words = text::words(lines@[i as int]@);
        assert(words.len() == w@.len());
        let mut sep: usize = 0;
        while sep < w.len() && !text::same(w[sep].as_str(), "-")
            invariant
                words == text::views(w@),
                words.len() == w@.len(),
                sep <= w@.len(),
                dash(words, 0) == dash(words, sep as int),
            decreases w@.len() - sep,
        {
            assert(words[sep as int] == w@[sep as int]@);
            sep = sep + 1;
        }
        proof {
            if sep < w@.len() {
                assert(words[sep as int] == w@[sep as int]@);
            }
            assert(sep == dash(words, 0));
        }
        if w.len() >= 5 && w.len() - sep > 3 {
            proof {
                assert(words[4] == w@[4]@);
                assert(words[sep + 1] == w@[sep + 1]@);
                assert(words[sep + 2] == w@[sep + 2]@);
                assert(words[sep + 3] == w@[sep + 3]@);
            }
            let e = MountEntry {
                mountpoint: w[4].clone(),
                fstype: w[sep + 1].clone(),
                source: w[sep + 2].clone(),
                super_opts: w[sep + 3].clone(),
            };
            let ghost had = r@;
            let ghost ev = e@;
            r.push(e);
            assert(entry_views(r@) == entry_views(had).push(ev));
        }
        i = i + 1;
    }
    r
}

/// A mount is a CSI target of this driver: an overlay over one of our lowers, or
/// one of our devices mounted directly; the lowers themselves are not.
pub open spec fn is_ours(e: EntryView) -> bool {
    &&& !text::ends(e.mountpoint, "/.ublk-overlay-lower"@)
    &&& (e.fstype == "overlay"@ && text::has_text(e.super_opts, "/.ublk-overlay-lower"@))
        || text::begins(e.source, "/dev/nbd"@) || text::begins(e.source, "/dev/ublkb"@)
}

/// The targets among the first `n` entries.
pub open spec fn targets_upto(v: Seq<EntryView>, n: int) -> Seq<Seq<char>>
    decreases n,
{
    if n <= 0 || n > v.len() {
        Seq::empty()
    } else if is_ours(v[n - 1]) {
        targets_upto(v, n - 1).push(v[n - 1].mountpoint)
    } else {
        targets_upto(v, n - 1)
    }
}

/// The CSI *target* mount points that this driver owns.
pub fn our_target_mounts(entries: &Vec<MountEntry>) -> (r: Vec<String>)
    ensures
        text::views(r@) == targets_upto(entry_views(entries@), entries@.len() as int),
{
    let mut r: Vec<String> = Vec::new();
    let ghost all = entry_views(entries@);
    let mut i: usize = 0;
    assert(text::views(r@) == targets_upto(all, 0));
    while i < entries.len()
        invariant
            i <= entries@.len(),
            all == entry_views(entries@),
            text::views(r@) == targets_upto(all, i as int),
        decreases entries@.len() - i,
    {
        assert(all[i as int] == entries@[i as int]@);
        let e = &entries[i];
        let lower = text::ends_with(e.mountpoint.as_str(), "/.ublk-overlay-lower");
        let overlay = text::same(e.fstype.as_str(), "overlay") && text::contains_text(
            e.super_opts.as_str(),
            "/.ublk-overlay-lower",
        );
        let device = text::begins_with(e.source.as_str(), "/dev/nbd") || text::begins_with(
            e.source.as_str(),
            "/dev/ublkb",
        );
        if !lower && (overlay || device) {
            text::put(&mut r, e.mountpoint.as_str());
        }
        i = i + 1;
    }
    r
}

// ── What the rules come to ──────────────────────────────────────────────────

/// A component keeps each ASCII letter, digit, `-` and `_` in its place and puts a
/// `_` in the place of anything else.
pub proof fn a_component_is_made_of_plain_characters(s: Seq<char>, i: int)
    ensures
        component(s).len() == s.len(),
        0 <= i < s.len() && (text::is_alnum(s[i]) || s[i] == '-' || s[i] == '_') ==> component(s)[i]
            == s[i],
        0 <= i < s.len() && !(text::is_alnum(s[i]) || s[i] == '-' || s[i] == '_') ==> component(s)[i]
            == '_',
        0 <= i < s.len() ==> component(s)[i] != '/' && component(s)[i] != '.',
        component(component(s)) == component(s),
{
    assert(component(component(s)) =~= component(s));
}

/// A device node is its prefix and a number, and the other way round.
pub proof fn a_device_node_is_a_prefix_and_a_number(prefix: Seq<char>, t: Seq<char>, n: nat)
    ensures
        numbered(prefix + text::decimal(n), prefix),
        numbered(prefix + t, prefix) <==> t.len() > 0 && forall|i: int|
            0 <= i < t.len() ==> text::is_digit(#[trigger] t[i]),
        forall|name: Seq<char>| #[trigger]
            numbered(name, prefix) ==> name == prefix + name.skip(prefix.len() as int),
{
    text::lemma_decimal(n);
    text::a_beginning_is_what_stands_in_front(prefix, t);
    text::a_beginning_is_what_stands_in_front(prefix, text::decimal(n));
    assert forall|name: Seq<char>| #[trigger] numbered(name, prefix) implies name == prefix
        + name.skip(prefix.len() as int) by {
        assert(text::begins(name, prefix));
    }
}

/// The devices that are listed are the numbered entries of `/dev`, all of them and
/// no others, under their full path.
pub proof fn the_numbered_entries_are_listed(
    names: Seq<Seq<char>>,
    prefix: Seq<char>,
    n: int,
    x: Seq<char>,
)
    requires
        0 <= n <= names.len(),
    ensures
        nodes(names, prefix, n).contains(x) <==> exists|i: int|
            0 <= i < n && numbered(#[trigger] names[i], prefix) && x == "/dev/"@ + names[i],
    decreases n,
{
    if n > 0 {
        the_numbered_entries_are_listed(names, prefix, n - 1, x);
        let less = nodes(names, prefix, n - 1);
        let all = nodes(names, prefix, n);
        if numbered(names[n - 1], prefix) {
            let node = "/dev/"@ + names[n - 1];
            assert(all == less.push(node));
            if all.contains(x) {
                let i = choose|i: int| 0 <= i < all.len() && all[i] == x;
                if i < less.len() {
                    assert(less[i] == x);
                    assert(less.contains(x));
                } else {
                    assert(numbered(names[n - 1], prefix));
                }
            }
            if less.contains(x) {
                let i = choose|i: int| 0 <= i < less.len() && less[i] == x;
                assert(all[i] == x);
            }
            assert(all[less.len() as int] == node);
        }
    }
}

/// The devices that may be used are those that are not in use, all of them.
pub proof fn a_device_in_use_is_left_out(
    all: Seq<Seq<char>>,
    used: Seq<Seq<char>>,
    n: int,
    x: Seq<char>,
)
    requires
        0 <= n <= all.len(),
    ensures
        unused(all, used, n).contains(x) <==> all.take(n).contains(x) && !used.contains(x),
    decreases n,
{
    if n > 0 {
        a_device_in_use_is_left_out(all, used, n - 1, x);
        let less = unused(all, used, n - 1);
        let more = unused(all, used, n);
        assert(all.take(n) =~= all.take(n - 1).push(all[n - 1]));
        if all.take(n - 1).contains(x) {
            let few = all.take(n - 1);
            let i = choose|i: int| 0 <= i < few.len() && few[i] == x;
            assert(all.take(n)[i] == x);
        }
        assert(all.take(n)[n - 1] == all[n - 1]);
        if all.take(n).contains(x) && x != all[n - 1] {
            let many = all.take(n);
            let i = choose|i: int| 0 <= i < many.len() && many[i] == x;
            assert(all.take(n - 1)[i] == x);
        }
        if !used.contains(all[n - 1]) {
            assert(more == less.push(all[n - 1]));
            assert(more[less.len() as int] == all[n - 1]);
            if less.contains(x) {
                let i = choose|i: int| 0 <= i < less.len() && less[i] == x;
                assert(more[i] == x);
            }
            if more.contains(x) && x != all[n - 1] {
                let i = choose|i: int| 0 <= i < more.len() && more[i] == x;
                assert(less[i] == x);
            }
        }
    }
}

/// Connecting goes forward: a dead server ends it, a server that listens or that
/// has had its time is checked once more, and then the first unused device is
/// attached.
pub proof fn connecting_attaches_the_first_unused_device(
    s: ConnectState,
    e: ConnectEvent,
    n: ConnectState,
)
    requires
        connects(s, e, n),
    ensures
        (s is AwaitServer || s is CheckServer) && e is Exited ==> (n matches ConnectState::Finished(
            Err(ConnectError::ServerExited(w)),
        ) && e == ConnectEvent::Exited(w)),
        s is AwaitServer && e == (ConnectEvent::Alive { listening: false }) ==> n is AwaitServer,
        s is AwaitServer && e == (ConnectEvent::Alive { listening: true }) ==> n is CheckServer,
        s is AwaitServer && e is Expired ==> n is CheckServer,
        s is CheckServer && e is Alive ==> n is PickDevice,
        s is PickDevice ==> (e matches ConnectEvent::Devices(d) ==> d@.len() > 0 ==> (
        n matches ConnectState::Attach { device } && device@ == d@[0]@)),
        s is PickDevice ==> (e matches ConnectEvent::Devices(d) ==> d@.len() == 0 ==> (
        n matches ConnectState::Finished(Err(ConnectError::NoDevice)))),
        n is PickDevice && s !is PickDevice ==> s is CheckServer && e is Alive,
        n is Attach && s !is Attach ==> s is PickDevice && e is Devices,
{
}

/// A device that was attached is handed out when it reports a size above zero, and
/// given up when the time is up; until then it is asked again.
pub proof fn an_attached_device_is_asked_for_its_size(
    s: ConnectState,
    e: ConnectEvent,
    n: ConnectState,
)
    requires
        connects(s, e, n),
    ensures
        s matches ConnectState::Attach { device } ==> e == ConnectEvent::Attached(Ok(())) ==> n == (
        ConnectState::AwaitSize { device, last: 0 }),
        s matches ConnectState::AwaitSize { device, .. } ==> (e matches ConnectEvent::Size(Some(t))
            ==> reported_size(t@) > 0 ==> n == ConnectState::Finished(Ok(device))),
        s is AwaitSize ==> (e matches ConnectEvent::Size(Some(t)) ==> reported_size(t@) == 0 ==> n
            is AwaitSize),
        s is AwaitSize && e == ConnectEvent::Size(None) ==> n == s,
        s matches ConnectState::AwaitSize { device, last } ==> e is Expired ==> n
            == ConnectState::Finished(Err(ConnectError::NoSize { device, last })),
        s is Finished ==> n == s,
        n matches ConnectState::Finished(Ok(d)) ==> s !is Finished ==> (
        s matches ConnectState::AwaitSize { device, .. } && device == d),
{
}

/// A size is read from a report whatever white space stands around it.
pub proof fn a_reported_size_is_read_as_written(n: u64, t: Seq<char>)
    ensures
        text::trim(t) == text::decimal(n as nat) ==> reported_size(t) == n,
        text::number(text::trim(t), u64::MAX as nat) is None ==> reported_size(t) == 0,
{
    text::number_reads_decimal(n as nat, u64::MAX as nat);
}

proof fn lemma_fs_names()
    ensures
        "ext2"@.len() == 4,
        "ext3"@.len() == 4,
        "ext4"@.len() == 4,
        "xfs"@.len() == 3,
        "btrfs"@.len() == 5,
        "zfs"@.len() == 3,
        "ntfs"@.len() == 4,
        "squashfs"@.len() == 8,
        "zfs"@ != "xfs"@,
        "ntfs"@ != "ext2"@,
        "ntfs"@ != "ext3"@,
        "ntfs"@ != "ext4"@,
{
    reveal_strlit("ext2");
    reveal_strlit("ext3");
    reveal_strlit("ext4");
    reveal_strlit("xfs");
    reveal_strlit("btrfs");
    reveal_strlit("zfs");
    reveal_strlit("ntfs");
    reveal_strlit("squashfs");
    assert("zfs"@[0] != "xfs"@[0]);
    assert("ntfs"@[0] != "ext2"@[0]);
    assert("ntfs"@[0] != "ext3"@[0]);
    assert("ntfs"@[0] != "ext4"@[0]);
}

/// The filesystems that can be made on a device are the ext family, xfs and btrfs,
/// each without a question asked; the image formats cannot.
pub proof fn only_writable_filesystems_are_made(fs: Seq<char>)
    ensures
        mkfs_options("ext4"@) == Some(
            seq!["-F"@, "-E"@, "nodiscard,lazy_itable_init=1,lazy_journal_init=1"@],
        ),
        mkfs_options("ext3"@) == mkfs_options("ext4"@),
        mkfs_options("ext2"@) == mkfs_options("ext4"@),
        mkfs_options("xfs"@) == Some(seq!["-f"@]),
        mkfs_options("btrfs"@) == Some(seq!["-f"@]),
        mkfs_options("squashfs"@) is None,
        mkfs_options("zfs"@) is None,
        mkfs_options("ntfs"@) is None,
        mkfs_options(fs) is Some ==> fs == "ext2"@ || fs == "ext3"@ || fs == "ext4"@ || fs == "xfs"@
            || fs == "btrfs"@,
{
    lemma_fs_names();
}

/// The words of an `fsck` setting, in any case and with any white space around.
pub proof fn an_fsck_setting_is_named_by_its_words(value: Seq<char>)
    ensures
        fsck_mode(value) == fsck_mode(text::lower_text(text::trim(value))),
        text::trim(value).len() == 0 ==> fsck_mode(value) == Some(FsckMode::Off),
        ({
            let v = text::lower_text(text::trim(value));
            &&& (v == "force"@ || v == "full"@ ==> fsck_mode(value) == Some(FsckMode::Force))
            &&& (v == "true"@ || v == "auto"@ || v == "preen"@ || v == "yes"@ || v == "on"@ || v
                == "1"@ ==> fsck_mode(value) == Some(FsckMode::Preen))
            &&& (v == "false"@ || v == "off"@ || v == "no"@ || v == "none"@ || v == "0"@
                ==> fsck_mode(value) == Some(FsckMode::Off))
            &&& (fsck_mode(value) == Some(FsckMode::Force) ==> v == "force"@ || v == "full"@)
            &&& (fsck_mode(value) == Some(FsckMode::Preen) ==> v == "true"@ || v == "auto"@ || v
                == "preen"@ || v == "yes"@ || v == "on"@ || v == "1"@)
        }),
{
    reveal_strlit("force");
    reveal_strlit("full");
    reveal_strlit("true");
    reveal_strlit("auto");
    reveal_strlit("preen");
    reveal_strlit("yes");
    reveal_strlit("on");
    reveal_strlit("1");
    reveal_strlit("false");
    reveal_strlit("off");
    reveal_strlit("no");
    reveal_strlit("none");
    reveal_strlit("0");
    let t = text::trim(value);
    let v = text::lower_text(t);
    text::trimming_takes_white_space_off_the_ends(value);
    assert(text::lower_text(v) =~= v);
    if v.len() > 0 {
        assert(v[0] == text::lower(t[0]));
        assert(v.last() == text::lower(t.last()));
    }
    text::lemma_trim_id(v);
    assert("force"@[1] == 'o');
    assert("false"@[1] == 'a');
    assert("preen"@[0] == 'p');
    assert("full"@[0] == 'f');
    assert("true"@[0] == 't');
    assert("auto"@[0] == 'a');
    assert("none"@[0] == 'n');
    assert("yes"@[0] == 'y');
    assert("off"@[0] == 'o');
    assert("on"@[0] == 'o');
    assert("no"@[0] == 'n');
    assert("1"@[0] == '1');
    assert("0"@[0] == '0');
    assert("force"@[0] == 'f');
}

/// A mount names its type first and its device and target last; between them stand
/// its options, separated by commas, if there are any. A writable mount has the
/// given flags as they are; a read-only one begins with them and says `ro`, and
/// `noload` once for the ext family.
pub proof fn a_mount_is_spelled_out(
    dev: Seq<char>,
    target: Seq<char>,
    fs: Seq<char>,
    flags: Seq<Seq<char>>,
)
    ensures
        mount_options(fs, flags, false) == flags,
        mount_options(fs, flags, true).take(flags.len() as int + 1) == flags.push("ro"@),
        !is_ext(fs) || flags.contains("noload"@) ==> mount_options(fs, flags, true) == flags.push(
            "ro"@,
        ),
        is_ext("ext4"@) && is_ext("ext3"@) && is_ext("ext2"@) && !is_ext("xfs"@) && !is_ext(
            "squashfs"@,
        ),
        flags.len() == 0 ==> mount_line(dev, target, fs, flags, false) == seq![
            "-t"@,
            fs,
            dev,
            target,
        ],
        flags.len() > 0 ==> mount_line(dev, target, fs, flags, false) == seq![
            "-t"@,
            fs,
            "-o"@,
            text::join(flags, seq![',']),
            dev,
            target,
        ],
        mount_line(dev, target, fs, flags, true) == seq![
            "-t"@,
            fs,
            "-o"@,
            text::join(mount_options(fs, flags, true), seq![',']),
            dev,
            target,
        ],
{
    lemma_fs_names();
    reveal_strlit(",");
    assert(","@ =~= seq![',']);
    let o = flags.push("ro"@);
    assert(mount_options(fs, flags, true).take(flags.len() as int + 1) =~= o);
    if flags.contains("noload"@) {
        let i = choose|i: int| 0 <= i < flags.len() && flags[i] == "noload"@;
        assert(o[i] == "noload"@);
    }
    let line = mount_line(dev, target, fs, flags, false);
    if flags.len() == 0 {
        assert(line =~= seq!["-t"@, fs, dev, target]);
    } else {
        assert(line =~= seq!["-t"@, fs, "-o"@, text::join(flags, seq![',']), dev, target]);
    }
    assert(mount_line(dev, target, fs, flags, true) =~= seq![
        "-t"@,
        fs,
        "-o"@,
        text::join(mount_options(fs, flags, true), seq![',']),
        dev,
        target,
    ]);
}

/// The directories of an overlay lie next to its target, or, with a scratch base,
/// the writable ones lie in a directory of the volume under that base.
pub proof fn an_overlay_lies_next_to_its_target(
    dir: Seq<char>,
    name: Seq<char>,
    volume_id: Seq<char>,
    base: Seq<char>,
)
    requires
        dir.len() > 0,
        paths::stripped(dir) == dir,
        dir.last() != '/',
        name.len() > 0,
        name != seq!['.'],
        !text::has_char(name, '/'),
        base.len() > 0,
        base.last() != '/',
        volume_id.len() > 0,
    ensures
        overlay_layout(dir + seq!['/'] + name, None, volume_id) == (DirsView {
            lower: dir + "/.ublk-overlay-lower"@,
            upper: dir + "/.ublk-overlay-upper"@,
            work: dir + "/.ublk-overlay-work"@,
            scratch_root: None,
        }),
        overlay_layout(dir + seq!['/'] + name, Some(base), volume_id) == (DirsView {
            lower: dir + "/.ublk-overlay-lower"@,
            upper: base + seq!['/'] + component(volume_id) + "/upper"@,
            work: base + seq!['/'] + component(volume_id) + "/work"@,
            scratch_root: Some(base + seq!['/'] + component(volume_id)),
        }),
{
    let c = component(volume_id);
    let root = base + seq!['/'] + c;
    components_do_not_traverse(volume_id);
    text::lemma_free_index(c, '/');
    paths::a_name_below_a_directory_is_found_there(dir, name);
    lemma_overlay_names();
    lemma_scratch_names();
    lemma_joined(dir, ".ublk-overlay-lower"@, "/.ublk-overlay-lower"@);
    lemma_joined(dir, ".ublk-overlay-upper"@, "/.ublk-overlay-upper"@);
    lemma_joined(dir, ".ublk-overlay-work"@, "/.ublk-overlay-work"@);
    paths::joining_puts_one_slash_between(base, c);
    assert(root.last() == c.last());
    lemma_joined(root, "upper"@, "/upper"@);
    lemma_joined(root, "work"@, "/work"@);
}

proof fn lemma_joined(dir: Seq<char>, name: Seq<char>, below: Seq<char>)
    requires
        dir.len() > 0,
        dir.last() != '/',
        name.len() > 0,
        name[0] != '/',
        below == seq!['/'] + name,
    ensures
        paths::join(dir, name) == dir + below,
{
    paths::joining_puts_one_slash_between(dir, name);
    assert(dir + seq!['/'] + name =~= dir + below);
}

proof fn lemma_overlay_names()
    ensures
        "/.ublk-overlay-lower"@ == seq!['/'] + ".ublk-overlay-lower"@,
        "/.ublk-overlay-upper"@ == seq!['/'] + ".ublk-overlay-upper"@,
        "/.ublk-overlay-work"@ == seq!['/'] + ".ublk-overlay-work"@,
        ".ublk-overlay-lower"@.len() > 0,
        ".ublk-overlay-upper"@.len() > 0,
        ".ublk-overlay-work"@.len() > 0,
        ".ublk-overlay-lower"@[0] != '/',
        ".ublk-overlay-upper"@[0] != '/',
        ".ublk-overlay-work"@[0] != '/',
{
    reveal_strlit("/.ublk-overlay-lower");
    reveal_strlit("/.ublk-overlay-upper");
    reveal_strlit("/.ublk-overlay-work");
    reveal_strlit(".ublk-overlay-lower");
    reveal_strlit(".ublk-overlay-upper");
    reveal_strlit(".ublk-overlay-work");
}

proof fn lemma_scratch_names()
    ensures
        "/upper"@ == seq!['/'] + "upper"@,
        "/work"@ == seq!['/'] + "work"@,
        "upper"@.len() > 0,
        "work"@.len() > 0,
        "upper"@[0] != '/',
        "work"@[0] != '/',
{
    reveal_strlit("/upper");
    reveal_strlit("/work");
    reveal_strlit("upper");
    reveal_strlit("work");
}

/// An overlay is mounted with its three directories under their names.
pub proof fn an_overlay_names_its_directories(d: DirsView)
    ensures
        overlay_options(d) == "lowerdir="@ + d.lower + ",upperdir="@ + d.upper + ",workdir="@
            + d.work,
        text::begins(overlay_options(d), "lowerdir="@ + d.lower + seq![',']),
        text::ends(overlay_options(d), ",workdir="@ + d.work),
{
    reveal_strlit(",upperdir=");
    reveal_strlit("upperdir=");
    let o = overlay_options(d);
    let front = "lowerdir="@ + d.lower + seq![','];
    let back = ",workdir="@ + d.work;
    assert(o =~= front + (",upperdir="@.skip(1) + d.upper + back));
    text::a_beginning_is_what_stands_in_front(
        front,
        ",upperdir="@.skip(1) + d.upper + back,
    );
    assert(o =~= ("lowerdir="@ + d.lower + ",upperdir="@ + d.upper) + back);
    text::an_end_is_what_stands_behind("lowerdir="@ + d.lower + ",upperdir="@ + d.upper, back);
}

/// A record is made of lines, each a key, a tab, a value and a line feed.
pub proof fn a_record_is_written_line_by_line(
    fields: Seq<(Seq<char>, Seq<char>)>,
    key: Seq<char>,
    value: Seq<char>,
)
    ensures
        record_text(Seq::empty()) == Seq::<char>::empty(),
        record_text(fields.push((key, value))) == record_text(fields) + key + seq!['\t'] + value
            + seq!['\n'],
{
    reveal_strlit("\t");
    reveal_strlit("\n");
    assert("\t"@ =~= seq!['\t']);
    assert("\n"@ =~= seq!['\n']);
    assert(fields.push((key, value)).drop_last() =~= fields);
    assert(record_text(fields.push((key, value))) =~= record_text(fields) + key + seq!['\t'] + value
        + seq!['\n']);
}

/// A record says of a volume its id, its device, its process, whether it is served
/// over NBD and which directories its overlay has.
pub proof fn a_record_says_what_a_volume_is(m: MetaView)
    ensures
        meta_fields(m).len() >= 5,
        meta_fields(m)[0] == ("volume_id"@, m.volume_id),
        meta_fields(m)[1] == ("device"@, m.device),
        meta_fields(m)[2] == ("pid"@, text::decimal(m.pid)),
        meta_fields(m)[3] == ("nbd"@, if m.nbd {
            "true"@
        } else {
            "false"@
        }),
        m.overlay is None ==> meta_fields(m).skip(4) == seq![("overlay"@, "false"@)],
        m.overlay matches Some(o) ==> {
            &&& meta_fields(m).subrange(4, 8) == seq![
                ("overlay"@, "true"@),
                ("lower"@, o.lower),
                ("upper"@, o.upper),
                ("work"@, o.work),
            ]
            &&& (o.scratch_root is None ==> meta_fields(m).len() == 8)
            &&& (o.scratch_root matches Some(root) ==> meta_fields(m).skip(8) == seq![
                ("scratch_root"@, root),
            ])
        },
{
    let f = meta_fields(m);
    match m.overlay {
        None => {
            assert(f.skip(4) =~= seq![("overlay"@, "false"@)]);
        },
        Some(o) => {
            assert(f.subrange(4, 8) =~= seq![
                ("overlay"@, "true"@),
                ("lower"@, o.lower),
                ("upper"@, o.upper),
                ("work"@, o.work),
            ]);
            if let Some(root) = o.scratch_root {
                assert(f.skip(8) =~= seq![("scratch_root"@, root)]);
            }
        },
    }
}

/// A record without one of its parts is none.
pub proof fn a_record_needs_its_parts(t: Map<Seq<char>, Seq<char>>)
    ensures
        table::value(t, "volume_id"@) is None ==> meta_from(t) is None,
        table::value(t, "device"@) is None ==> meta_from(t) is None,
        table::value(t, "pid"@) is None ==> meta_from(t) is None,
        table::value(t, "overlay"@) == Some("true"@) && (table::value(t, "lower"@) is None
            || table::value(t, "upper"@) is None || table::value(t, "work"@) is None) ==> meta_from(t)
            is None,
        meta_from(t) matches Some(m) ==> {
            &&& table::value(t, "volume_id"@) == Some(m.volume_id)
            &&& table::value(t, "device"@) == Some(m.device)
            &&& (table::value(t, "pid"@) matches Some(p) && text::number(p, u32::MAX as nat) == Some(
                m.pid,
            ))
            &&& (m.nbd <==> table::value(t, "nbd"@) == Some("true"@))
            &&& (m.overlay is Some <==> table::value(t, "overlay"@) == Some("true"@))
        },
{
}

/// A line of the mount table: the fifth word is the mount point, and behind the
/// first lone dash come the type, the source and the options.
pub proof fn a_mount_entry_is_read_around_its_dash(
    line: Seq<char>,
    front: Seq<Seq<char>>,
    fstype: Seq<char>,
    source: Seq<char>,
    options: Seq<char>,
    rest: Seq<Seq<char>>,
)
    requires
        text::words(line) == front + seq![seq!['-'], fstype, source, options] + rest,
        front.len() >= 5,
        forall|i: int| 0 <= i < front.len() ==> #[trigger] front[i] != seq!['-'],
    ensures
        entry_of(line) == Some(
            EntryView { mountpoint: front[4], fstype, source, super_opts: options },
        ),
{
    reveal_strlit("-");
    assert("-"@ =~= seq!['-']);
    let w = text::words(line);
    let k = front.len() as int;
    assert(w[k] == seq!['-']);
    assert forall|i: int| 0 <= i < k implies #[trigger] w[i] != seq!['-'] by {
        assert(w[i] == front[i]);
    }
    lemma_dash_at(w, 0, k);
    assert(w[4] == front[4]);
    assert(w[k + 1] == fstype);
    assert(w[k + 2] == source);
    assert(w[k + 3] == options);
}

proof fn lemma_dash_at(w: Seq<Seq<char>>, i: int, k: int)
    requires
        0 <= i <= k < w.len(),
        w[k] == "-"@,
        forall|j: int| i <= j < k ==> #[trigger] w[j] != "-"@,
    ensures
        dash(w, i) == k,
    decreases k - i,
{
    if i < k {
        assert(w[i] != "-"@);
        lemma_dash_at(w, i + 1, k);
    }
}

/// A mount is the driver's own when one of its devices is the source, or one of its
/// lower directories is under an overlay; the lower directories are not.
pub proof fn a_mount_of_ours_is_recognised(e: EntryView)
    ensures
        text::ends(e.mountpoint, "/.ublk-overlay-lower"@) ==> !is_ours(e),
        !text::ends(e.mountpoint, "/.ublk-overlay-lower"@) && text::begins(e.source, "/dev/nbd"@)
            ==> is_ours(e),
        !text::ends(e.mountpoint, "/.ublk-overlay-lower"@) && text::begins(e.source, "/dev/ublkb"@)
            ==> is_ours(e),
        !text::ends(e.mountpoint, "/.ublk-overlay-lower"@) && e.fstype == "overlay"@
            && text::has_text(e.super_opts, "/.ublk-overlay-lower"@) ==> is_ours(e),
        is_ours(e) && !text::begins(e.source, "/dev/nbd"@) && !text::begins(
            e.source,
            "/dev/ublkb"@,
        ) ==> e.fstype == "overlay"@ && text::has_text(e.super_opts, "/.ublk-overlay-lower"@),
{
}

/// The targets that are listed are the mount points of the driver's own mounts, in
/// order, all of them and no others.
pub proof fn our_mounts_are_listed(v: Seq<EntryView>, e: EntryView)
    ensures
        targets_upto(Seq::empty(), 0) == Seq::<Seq<char>>::empty(),
        is_ours(e) ==> targets_upto(v.push(e), v.len() as int + 1) == targets_upto(
            v,
            v.len() as int,
        ).push(e.mountpoint),
        !is_ours(e) ==> targets_upto(v.push(e), v.len() as int + 1) == targets_upto(
            v,
            v.len() as int,
        ),
{
    lemma_targets_prefix(v.push(e), v, v.len() as int);
}

proof fn lemma_targets_prefix(a: Seq<EntryView>, b: Seq<EntryView>, n: int)
    requires
        0 <= n <= a.len(),
        n <= b.len(),
        forall|i: int| 0 <= i < n ==> #[trigger] a[i] == b[i],
    ensures
        targets_upto(a, n) == targets_upto(b, n),
    decreases n,
{
    if n > 0 {
        lemma_targets_prefix(a, b, n - 1);
        assert(a[n - 1] == b[n - 1]);
    }
}

/// A line of a record with a tab is a field: what stands before the first tab,
/// without the white space around it, is its key, and all that follows its value. A
/// line without a tab is none.
pub proof fn a_line_with_a_tab_is_a_field(
    lines: Seq<Seq<char>>,
    key: Seq<char>,
    value: Seq<char>,
    other: Seq<char>,
)
    requires
        !text::has_char(key, '\t'),
        !text::has_char(other, '\t'),
    ensures
        fields_upto(lines.push(key + seq!['\t'] + value), lines.len() as int + 1) == fields_upto(
            lines,
            lines.len() as int,
        ).push((text::trim(key), value)),
        fields_upto(lines.push(other), lines.len() as int + 1) == fields_upto(
            lines,
            lines.len() as int,
        ),
{
    let n = lines.len() as int;
    let line = key + seq!['\t'] + value;
    text::lemma_split_head(key, '\t', value);
    lemma_fields_prefix(lines, lines.push(line), n);
    lemma_fields_prefix(lines, lines.push(other), n);
    assert(line.take(key.len() as int) =~= key);
    assert(line.skip(key.len() as int + 1) =~= value);
    assert(lines.push(line)[n] == line);
    assert(lines.push(other)[n] == other);
    text::lemma_find_from(other, '\t', 0);
}

/// A line of the mount table is an entry exactly where it has a `-` with three words
/// behind it, and five words in all.
pub proof fn a_mount_entry_needs_its_words(
    line: Seq<char>,
    front: Seq<Seq<char>>,
    rest: Seq<Seq<char>>,
)
    requires
        forall|i: int| 0 <= i < front.len() ==> #[trigger] front[i] != seq!['-'],
    ensures
        text::words(line) == front + seq![seq!['-']] + rest ==> (entry_of(line) is Some
            <==> rest.len() >= 3 && front.len() + 1 + rest.len() >= 5),
        text::words(line) == front ==> entry_of(line) is None,
{
    reveal_strlit("-");
    assert("-"@ =~= seq!['-']);
    let w = text::words(line);
    let k = front.len() as int;
    if w == front + seq![seq!['-']] + rest {
        assert(w[k] == seq!['-']);
        assert forall|i: int| 0 <= i < k implies #[trigger] w[i] != seq!['-'] by {
            assert(w[i] == front[i]);
        }
        lemma_dash_at(w, 0, k);
    }
    if w == front {
        lemma_no_dash(w, 0);
    }
}

proof fn lemma_no_dash(w: Seq<Seq<char>>, i: int)
    requires
        0 <= i <= w.len(),
        forall|j: int| i <= j < w.len() ==> #[trigger] w[j] != "-"@,
    ensures
        dash(w, i) == w.len(),
    decreases w.len() - i,
{
    if i < w.len() {
        assert(w[i] != "-"@);
        lemma_no_dash(w, i + 1);
    }
}

} // verus!
