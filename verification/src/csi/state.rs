//! On-disk record of every volume this node plugin has published, so a
//! node-local restart of the plugin can re-attach to the still-live block
//! devices.

use vstd::prelude::*;

use crate::csi::mount;
use crate::csi::mount::OverlayDirs;
use crate::paths;
use crate::text;

verus! {

/// Default directory holding the per-volume state files.
pub const DEFAULT_STATE_DIR: &'static str = "/csi/state";

/// Environment variable overriding [`DEFAULT_STATE_DIR`].
pub const STATE_DIR_ENV: &'static str = "CSI_STATE_DIR";

/// How a published volume's block device is backed, plus the bits needed to
/// re-establish it on recovery.
#[derive(Debug, Clone, PartialEq, Eq)]
pub enum DeviceMode {
    /// A ublk device; `dev_id` is the `/dev/ublkbN` number to recover.
    Ublk { dev_id: i32 },
    /// An NBD device; `device` is the `/dev/nbdN` path and `listen` the
    /// `host:port` that the previous server bound.
    Nbd { device: String, listen: String },
}

/// A persisted, recoverable description of one published volume.
#[derive(Debug, Clone, PartialEq, Eq)]
pub struct VolumeState {
    /// CSI volume id.
    pub volume_id: String,
    /// Device size in bytes (passed to the recovered child).
    pub size: u64,
    /// CSI target path where the filesystem is mounted.
    pub target: String,
    /// Filesystem type used at publish time.
    pub fs_type: String,
    /// Mount flags used at publish time.
    pub mount_flags: Vec<String>,
    /// Whether the volume was mounted read-only.
    pub readonly: bool,
    /// Backing device mode and its recovery selectors.
    pub device_mode: DeviceMode,
    /// Ephemeral overlay scratch dirs, when the volume was published with one.
    pub overlay: Option<OverlayDirs>,
    /// The full child environment needed to re-spawn the child on recovery.
    pub env: Vec<(String, String)>,
}

/// The state directory: the setting `CSI_STATE_DIR` unless it is missing or empty.
pub fn state_dir(setting: &Option<String>) -> (r: String)
    ensures
        r@ == (match text::opt_view(*setting) {
            Some(s) => if s.len() > 0 {
                s
            } else {
                "/csi/state"@
            },
            None => "/csi/state"@,
        }),
{
    match setting {
        Some(s) => if s.as_str().is_empty() {
            DEFAULT_STATE_DIR.to_owned()
        } else {
            s.clone()
        },
        None => DEFAULT_STATE_DIR.to_owned(),
    }
}

/// The FNV-1a hash (64 bits) of a byte string.
pub open spec fn fnv1a(bytes: Seq<u8>) -> u64
    decreases bytes.len(),
{
    if bytes.len() == 0 {
        0xcbf29ce484222325
    } else {
        (fnv1a(bytes.drop_last()) ^ bytes.last() as u64).wrapping_mul(0x00000100000001b3)
    }
}

fn hash_of(bytes: &[u8]) -> (r: u64)
    ensures
        r == fnv1a(bytes@),
{
    let mut h: u64 = 0xcbf29ce484222325;
    let mut i: usize = 0;
    assert(bytes@.take(0) == Seq::<u8>::empty());
    while i < bytes.len()
        invariant
            i <= bytes@.len(),
            h == fnv1a(bytes@.take(i as int)),
        decreases bytes@.len() - i,
    {
        proof {
            assert(bytes@.take(i + 1).drop_last() == bytes@.take(i as int));
            assert(bytes@.take(i + 1).last() == bytes@[i as int]);
        }
        h = (h ^ bytes[i] as u64).wrapping_mul(0x00000100000001b3);
        i = i + 1;
    }
    assert(bytes@.take(bytes@.len() as int) == bytes@);
    h
}

/// A hexadecimal digit.
pub open spec fn hex_char(d: nat) -> char {
    if d < 10 {
        ('0' as nat + d) as char
    } else {
        ('a' as nat + d - 10) as char
    }
}

/// The last `w` hexadecimal digits of `n`.
pub open spec fn hex(n: nat, w: nat) -> Seq<char>
    decreases w,
{
    if w == 0 {
        Seq::empty()
    } else {
        hex(n / 16, (w - 1) as nat).push(hex_char(n % 16))
    }
}

fn hex_of(n: u64, w: usize) -> (r: String)
    ensures
        r@ == hex(n as nat, w as nat),
    decreases w,
{
    if w == 0 {
        return String::new();
    }
    let mut r = hex_of(n / 16, w - 1);
    let d: u8 = (n % 16) as u8;
    let c = if d < 10 {
        (48 + d) as char
    } else {
        (97 + (d - 10)) as char
    };
    r.push(c);
    r
}

/// The name of a volume's state file: the id as a safe component, and a hash of
/// the full id that keeps apart ids which sanitize alike.
pub open spec fn state_name(volume_id: Seq<char>) -> Seq<char> {
    mount::component(volume_id) + "-"@ + hex(
        fnv1a(vstd::utf8::encode_utf8(volume_id)) as nat,
        16,
    ) + ".json"@
}

/// Map a volume id to its state file path inside `dir`.
pub fn state_file(dir: &str, volume_id: &str) -> (r: String)
    ensures
        r@ == paths::join(dir@, state_name(volume_id@)),
{
    let mut name = mount::sanitize_component(volume_id);
    name.append("-");
    name.append(hex_of(hash_of(volume_id.as_bytes()), 16).as_str());
    name.append(".json");
    paths::joined(dir, name.as_str())
}

/// A state file lies in the state directory: its name holds no separator.
pub proof fn state_files_stay_in_the_directory(volume_id: Seq<char>)
    ensures
        !text::has_char(state_name(volume_id), '/'),
        state_name(volume_id).len() > 2,
{
    reveal_strlit("-");
    reveal_strlit(".json");
    mount::components_do_not_traverse(volume_id);
    let h = hex(fnv1a(vstd::utf8::encode_utf8(volume_id)) as nat, 16);
    lemma_hex(fnv1a(vstd::utf8::encode_utf8(volume_id)) as nat, 16);
    text::lemma_index_free(h, '/');
    text::lemma_index_free("-"@, '/');
    text::lemma_index_free(".json"@, '/');
    text::lemma_free_concat(mount::component(volume_id), "-"@, '/');
    text::lemma_free_concat(mount::component(volume_id) + "-"@, h, '/');
    text::lemma_free_concat(mount::component(volume_id) + "-"@ + h, ".json"@, '/');
}

proof fn lemma_hex(n: nat, w: nat)
    ensures
        hex(n, w).len() == w,
        forall|i: int| 0 <= i < w ==> #[trigger] hex(n, w)[i] != '/',
    decreases w,
{
    if w > 0 {
        lemma_hex(n / 16, (w - 1) as nat);
    }
}

/// Whether a directory entry is a state file: its extension is `json`.
pub fn is_state_file(name: &str) -> (r: bool)
    ensures
        r == (text::ends(name@, ".json"@) && name@.len() > ".json"@.len()),
{
    text::ends_with(name, ".json") && text::chars_of(name).len() > text::chars_of(".json").len()
}

/// What a run of hexadecimal digits stands for.
pub open spec fn hex_value(s: Seq<char>) -> nat
    decreases s.len(),
{
    if s.len() == 0 {
        0
    } else {
        16 * hex_value(s.drop_last()) + (if s.last() as u32 >= 97 {
            s.last() as u32 - 87
        } else {
            s.last() as u32 - 48
        }) as nat
    }
}

/// How many numbers have at most `w` hexadecimal digits.
pub open spec fn hex_span(w: nat) -> nat
    decreases w,
{
    if w == 0 {
        1
    } else {
        16 * hex_span((w - 1) as nat)
    }
}

/// A number is written in as many hexadecimal digits as asked for, small letters
/// among them, and reads back.
pub proof fn hexadecimal_digits_read_back(n: nat, w: nat)
    ensures
        hex(n, w).len() == w,
        n < hex_span(w) ==> hex_value(hex(n, w)) == n,
        forall|i: int|
            0 <= i < w ==> text::is_digit(#[trigger] hex(n, w)[i]) || ('a' <= hex(n, w)[i] && hex(
                n,
                w,
            )[i] <= 'f'),
    decreases w,
{
    if w > 0 {
        hexadecimal_digits_read_back(n / 16, (w - 1) as nat);
        assert(hex(n, w).drop_last() =~= hex(n / 16, (w - 1) as nat));
        assert forall|i: int| 0 <= i < w implies text::is_digit(#[trigger] hex(n, w)[i]) || ('a'
            <= hex(n, w)[i] && hex(n, w)[i] <= 'f') by {
            if i < w - 1 {
                assert(hex(n, w)[i] == hex(n / 16, (w - 1) as nat)[i]);
            }
        }
    }
}

proof fn lemma_sixteen_digits()
    ensures
        hex_span(16) == 0x1_0000_0000_0000_0000,
{
    assert(hex_span(0) == 1);
    assert(hex_span(1) == 0x10);
    assert(hex_span(2) == 0x100);
    assert(hex_span(3) == 0x1000);
    assert(hex_span(4) == 0x1_0000);
    assert(hex_span(5) == 0x10_0000);
    assert(hex_span(6) == 0x100_0000);
    assert(hex_span(7) == 0x1000_0000);
    assert(hex_span(8) == 0x1_0000_0000);
    assert(hex_span(9) == 0x10_0000_0000);
    assert(hex_span(10) == 0x100_0000_0000);
    assert(hex_span(11) == 0x1000_0000_0000);
    assert(hex_span(12) == 0x1_0000_0000_0000);
    assert(hex_span(13) == 0x10_0000_0000_0000);
    assert(hex_span(14) == 0x100_0000_0000_0000);
    assert(hex_span(15) == 0x1000_0000_0000_0000);
}

/// The hash of a text takes its bytes one by one: each is mixed in and the result
/// multiplied by the prime.
pub proof fn a_hash_takes_each_byte(bytes: Seq<u8>, b: u8)
    ensures
        fnv1a(Seq::empty()) == 14695981039346656037,
        fnv1a(bytes.push(b)) == (fnv1a(bytes) ^ b as u64).wrapping_mul(1099511628211),
{
    assert(bytes.push(b).drop_last() =~= bytes);
}

/// Two volumes have one state file only where their ids sanitize alike and hash
/// alike.
pub proof fn state_files_are_told_apart_by_the_hash(a: Seq<char>, b: Seq<char>)
    requires
        state_name(a) == state_name(b),
    ensures
        mount::component(a) == mount::component(b),
        fnv1a(vstd::utf8::encode_utf8(a)) == fnv1a(vstd::utf8::encode_utf8(b)),
{
    reveal_strlit("-");
    reveal_strlit(".json");
    let x = mount::component(a);
    let y = mount::component(b);
    let m = fnv1a(vstd::utf8::encode_utf8(a)) as nat;
    let n = fnv1a(vstd::utf8::encode_utf8(b)) as nat;
    hexadecimal_digits_read_back(m, 16);
    hexadecimal_digits_read_back(n, 16);
    lemma_sixteen_digits();
    let s = state_name(a);
    assert(state_name(a).len() == x.len() + 22);
    assert(state_name(b).len() == y.len() + 22);
    assert(s.take(x.len() as int) =~= x);
    assert(s.take(x.len() as int) =~= y);
    let k = x.len() as int + 1;
    assert(s.subrange(k, k + 16) =~= hex(m, 16));
    assert(s.subrange(k, k + 16) =~= hex(n, 16));
}

/// A state file is named by its volume's id as a safe component, a hash of sixteen
/// digits and the ending `.json`.
pub proof fn a_state_file_is_named_by_its_volume(volume_id: Seq<char>)
    ensures
        text::begins(state_name(volume_id), mount::component(volume_id) + seq!['-']),
        text::ends(state_name(volume_id), ".json"@),
        state_name(volume_id).len() == volume_id.len() + 22,
{
    reveal_strlit("-");
    reveal_strlit(".json");
    assert("-"@ =~= seq!['-']);
    let c = mount::component(volume_id);
    let h = hex(fnv1a(vstd::utf8::encode_utf8(volume_id)) as nat, 16);
    lemma_hex(fnv1a(vstd::utf8::encode_utf8(volume_id)) as nat, 16);
    text::a_beginning_is_what_stands_in_front(c + seq!['-'], h + ".json"@);
    assert(state_name(volume_id) =~= (c + seq!['-']) + (h + ".json"@));
    text::an_end_is_what_stands_behind(c + seq!['-'] + h, ".json"@);
}

} // verus!
