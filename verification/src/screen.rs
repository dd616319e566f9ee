//! The "USBLCDNew" raw-bulk protocol of the Thermalright AIO panel (ChiZhu
//! Tech `87ad:70db`), without the transfers themselves.
//!
//! * **Setup** — [`PanelSetup`] decides, step by step, which USB operation
//!   opens the panel next: find the device, detach the kernel drivers of
//!   interfaces 0..4, select configuration 1, claim interface 0, pick the bulk
//!   endpoints and run the handshake.
//!
//! * **Handshake** — a 64-byte request: `[0..4]` magic `0x12345678` (LE),
//!   `[56]` command `0x01` (device-info query), all else zero. The response is 1024 bytes;
//!   `resp[24]` is the PM byte and must not be zero, `resp[36]` the SUB byte.
//!
//! * **Frame** — a 64-byte header followed by the JPEG payload:
//!   `[0..4]`  magic `0x12345678` (LE)
//!   `[4..8]`  command (LE u32): `2` = JPEG
//!   `[8..12]` width (LE u32)
//!   `[12..16]` height (LE u32)
//!   `[56..60]` constant `2` (LE u32)
//!   `[60..64]` payload length in bytes (LE u32)
//!
//! * **Write cadence** — [`FrameTransfer`] hands out 16 KiB chunks, checks
//!   for short writes, and ends with a zero-length packet when the frame
//!   length is an exact multiple of 512 bytes.

use vstd::prelude::*;

use crate::error::AioError;
use crate::jpeg::{declared_size, has_start_of_image, is_jpeg, jpeg_dimensions};
use crate::text::{decimal, hex, push_decimal, push_hex};

verus! {

/// ChiZhu Tech "USBDISPLAY" panel as seen by `lsusb` (`87ad:70db`).
pub const AIO_VID: u16 = 0x87ad;

pub const AIO_PID: u16 = 0x70db;

/// Native geometry of the panel.
pub const WIDTH: u16 = 480;

pub const HEIGHT: u16 = 480;

/// Protocol magic, little-endian on the wire.
pub const MAGIC: u32 = 0x1234_5678;

/// Handshake command (offset 56): device-info query.
pub const CMD_DEV_INFO: u8 = 0x01;

/// Frame command (offset 4): JPEG payload.
pub const CMD_JPEG: u32 = 2;

pub const HANDSHAKE_SIZE: usize = 64;

pub const HANDSHAKE_READ_SIZE: usize = 1024;

/// Shortest acceptable handshake response, in bytes.
pub const HANDSHAKE_MIN_LEN: usize = 41;

pub const HANDSHAKE_TIMEOUT_MS: u64 = 1000;

pub const WRITE_TIMEOUT_MS: u64 = 5000;

/// Bulk writes are chunked at 16 KiB.
pub const WRITE_CHUNK_SIZE: usize = 16384;

/// A transfer of a multiple of this length ends with a zero-length packet.
pub const ZLP_ALIGN: usize = 512;

pub const USB_CONFIGURATION: u8 = 1;

pub const USB_INTERFACE: u8 = 0;

/// The kernel may hold a driver on any of the interfaces `0..4`.
pub const DETACH_INTERFACES: u8 = 4;

/// Endpoint addresses when auto-detection finds nothing.
pub const EP_OUT_DEFAULT: u8 = 0x01;

pub const EP_IN_DEFAULT: u8 = 0x81;

// ── Wire format ─────────────────────────────────────────────────────────

/// `n` as a little-endian 32-bit field; bits beyond 32 are dropped.
pub open spec fn le32(n: nat) -> Seq<u8> {
    seq![
        (n % 256) as u8,
        (n / 256 % 256) as u8,
        (n / 65536 % 256) as u8,
        (n / 16777216 % 256) as u8,
    ]
}

/// The little-endian 32-bit field at offset `i`.
pub open spec fn read_le32(s: Seq<u8>, i: int) -> int {
    s[i] + 256 * s[i + 1] + 65536 * s[i + 2] + 16777216 * s[i + 3]
}

pub open spec fn zeros(n: nat) -> Seq<u8> {
    Seq::new(n, |i: int| 0u8)
}

/// The handshake request.
pub open spec fn request_bytes() -> Seq<u8> {
    le32(MAGIC as nat) + zeros(52) + seq![CMD_DEV_INFO] + zeros(7)
}

/// The header of a frame with a payload of `len` bytes.
pub open spec fn header_bytes(len: nat) -> Seq<u8> {
    le32(MAGIC as nat) + le32(CMD_JPEG as nat) + le32(WIDTH as nat) + le32(HEIGHT as nat) + zeros(40)
        + le32(2) + le32(len)
}

/// A frame: header and payload.
pub open spec fn frame_bytes(jpeg: Seq<u8>) -> Seq<u8> {
    header_bytes(jpeg.len()) + jpeg
}

fn push_le32(out: &mut Vec<u8>, n: u64)
    ensures
        final(out)@ == old(out)@ + le32(n as nat),
{
    out.push((n % 256) as u8);
    out.push((n / 256 % 256) as u8);
    out.push((n / 65536 % 256) as u8);
    out.push((n / 16777216 % 256) as u8);
    assert(out@ =~= old(out)@ + le32(n as nat));
}

fn push_zeros(out: &mut Vec<u8>, n: usize)
    ensures
        final(out)@ == old(out)@ + zeros(n as nat),
{
    let mut i: usize = 0;
    assert(out@ =~= old(out)@ + zeros(0));
    while i < n
        invariant
            i <= n,
            out@ == old(out)@ + zeros(i as nat),
        decreases n - i,
    {
        out.push(0);
        i += 1;
        assert(out@ =~= old(out)@ + zeros(i as nat));
    }
}

/// The 64-byte device-info request.
pub fn handshake_request() -> (r: Vec<u8>)
    ensures
        r@ == request_bytes(),
{
    let mut out: Vec<u8> = Vec::new();
    push_le32(&mut out, MAGIC as u64);
    push_zeros(&mut out, 52);
    out.push(CMD_DEV_INFO);
    push_zeros(&mut out, 7);
    assert(out@ =~= request_bytes());
    out
}

/// The PM byte of a response, unless it is zero.
pub open spec fn response_pm(resp: Seq<u8>) -> Option<u8> {
    if resp[24] != 0 {
        Some(resp[24])
    } else {
        None
    }
}

/// The outcome of a handshake whose response buffer is `resp`, of which the
/// panel filled `len` bytes: the PM and SUB bytes, or a failed validation.
pub open spec fn response_outcome(resp: Seq<u8>, len: usize) -> Result<(u8, u8), AioError> {
    if len < HANDSHAKE_MIN_LEN || response_pm(resp) is None {
        Err(AioError::HandshakeFailed { len, pm: response_pm(resp) })
    } else {
        Ok((resp[24], resp[36]))
    }
}

/// Validate a handshake response and extract its PM and SUB bytes.
pub fn check_response(resp: &[u8; 1024], len: usize) -> (r: Result<(u8, u8), AioError>)
    ensures
        r == response_outcome(resp@, len),
{
    let pm: Option<u8> = if resp[24] != 0 {
        Some(resp[24])
    } else {
        None
    };
    if len < HANDSHAKE_MIN_LEN || pm.is_none() {
        return Err(AioError::HandshakeFailed { len, pm });
    }
    Ok((resp[24], resp[36]))
}

// ── Endpoint detection ──────────────────────────────────────────────────

/// One endpoint of an alternate setting.
#[derive(Debug, Clone, Copy)]
pub struct Endpoint {
    pub address: u8,
    /// The endpoint does bulk transfers.
    pub bulk: bool,
}

/// One alternate setting of an interface.
#[derive(Debug)]
pub struct Setting {
    pub number: u8,
    pub endpoints: Vec<Endpoint>,
}

/// One interface of the active configuration.
#[derive(Debug)]
pub struct Interface {
    pub number: u8,
    pub settings: Vec<Setting>,
}

/// The addresses of the bulk endpoints, in order.
pub open spec fn bulk_addresses(endpoints: Seq<Endpoint>) -> Seq<u8>
    decreases endpoints.len(),
{
    if endpoints.len() == 0 {
        Seq::empty()
    } else {
        let front = bulk_addresses(endpoints.drop_last());
        if endpoints.last().bulk {
            front.push(endpoints.last().address)
        } else {
            front
        }
    }
}

/// The bulk addresses of the default alternate settings, in order.
pub open spec fn setting_addresses(settings: Seq<Setting>) -> Seq<u8>
    decreases settings.len(),
{
    if settings.len() == 0 {
        Seq::empty()
    } else {
        setting_addresses(settings.drop_last()) + if settings.last().number == 0 {
            bulk_addresses(settings.last().endpoints@)
        } else {
            Seq::empty()
        }
    }
}

/// The bulk addresses of interface 0's default alternate setting, in order.
pub open spec fn panel_addresses(interfaces: Seq<Interface>) -> Seq<u8>
    decreases interfaces.len(),
{
    if interfaces.len() == 0 {
        Seq::empty()
    } else {
        panel_addresses(interfaces.drop_last()) + if interfaces.last().number == USB_INTERFACE {
            setting_addresses(interfaces.last().settings@)
        } else {
            Seq::empty()
        }
    }
}

/// The first address of the wanted direction, or zero. An address with the
/// top bit set is an IN endpoint.
pub open spec fn first_address(addresses: Seq<u8>, inward: bool) -> u8
    decreases addresses.len(),
{
    if addresses.len() == 0 {
        0
    } else if addresses[0] != 0 && (addresses[0] >= 0x80) == inward {
        addresses[0]
    } else {
        first_address(addresses.drop_first(), inward)
    }
}

/// The `(out, in)` addresses found in a configuration, zero where none is.
pub open spec fn found_endpoints(config: Option<Vec<Interface>>) -> (u8, u8) {
    match config {
        Some(interfaces) => (
            first_address(panel_addresses(interfaces@), false),
            first_address(panel_addresses(interfaces@), true),
        ),
        None => (0, 0),
    }
}

/// The `(out, in)` addresses in use: those found, else the defaults.
pub open spec fn chosen_endpoints(config: Option<Vec<Interface>>) -> (u8, u8) {
    let (o, i) = found_endpoints(config);
    (
        if o == 0 {
            EP_OUT_DEFAULT
        } else {
            o
        },
        if i == 0 {
            EP_IN_DEFAULT
        } else {
            i
        },
    )
}

proof fn lemma_first_address_concat(a: Seq<u8>, b: Seq<u8>, inward: bool)
    ensures
        first_address(a + b, inward) == if first_address(a, inward) != 0 {
            first_address(a, inward)
        } else {
            first_address(b, inward)
        },
    decreases a.len(),
{
    if a.len() == 0 {
        assert(a + b =~= b);
    } else {
        assert((a + b).drop_first() =~= a.drop_first() + b);
        lemma_first_address_concat(a.drop_first(), b, inward);
    }
}

proof fn lemma_first_address_push(a: Seq<u8>, x: u8, inward: bool)
    ensures
        first_address(a.push(x), inward) == if first_address(a, inward) != 0 {
            first_address(a, inward)
        } else if (x >= 0x80) == inward {
            x
        } else {
            0
        },
{
    assert(a.push(x) =~= a + seq![x]);
    lemma_first_address_concat(a, seq![x], inward);
    assert(seq![x].drop_first() =~= Seq::<u8>::empty());
    assert(first_address(seq![x].drop_first(), inward) == 0);
}

/// Scan one setting's endpoints, after the addresses `seen`.
fn scan_endpoints(endpoints: &Vec<Endpoint>, found: (u8, u8), Ghost(seen): Ghost<Seq<u8>>) -> (r: (
    u8,
    u8,
))
    requires
        found == (first_address(seen, false), first_address(seen, true)),
    ensures
        r == (
            first_address(seen + bulk_addresses(endpoints@), false),
            first_address(seen + bulk_addresses(endpoints@), true),
        ),
{
    let mut ep_out: u8 = found.0;
    let mut ep_in: u8 = found.1;
    let mut k: usize = 0;
    assert(endpoints@.take(0) =~= Seq::empty());
    assert(seen + bulk_addresses(endpoints@.take(0)) =~= seen);
    while k < endpoints.len()
        invariant
            k <= endpoints.len(),
            ep_out == first_address(seen + bulk_addresses(endpoints@.take(k as int)), false),
            ep_in == first_address(seen + bulk_addresses(endpoints@.take(k as int)), true),
        decreases endpoints.len() - k,
    {
        let ep = endpoints[k];
        let ghost before = seen + bulk_addresses(endpoints@.take(k as int));
        proof {
            let t = endpoints@.take(k + 1);
            assert(t.drop_last() =~= endpoints@.take(k as int));
            assert(t.last() == ep);
            if ep.bulk {
                assert(seen + bulk_addresses(t) =~= before.push(ep.address));
                lemma_first_address_push(before, ep.address, false);
                lemma_first_address_push(before, ep.address, true);
            }
        }
        if ep.bulk {
            let address = ep.address;
            assert(address & 0x80 == 0 <==> address < 0x80) by (bit_vector);
            if address & 0x80 == 0 {
                if ep_out == 0 {
                    ep_out = address;
                }
            } else if ep_in == 0 {
                ep_in = address;
            }
        }
        k += 1;
    }
    assert(endpoints@.take(endpoints.len() as int) =~= endpoints@);
    (ep_out, ep_in)
}

/// Scan one interface's settings, after the addresses `seen`.
fn scan_settings(settings: &Vec<Setting>, found: (u8, u8), Ghost(seen): Ghost<Seq<u8>>) -> (r: (
    u8,
    u8,
))
    requires
        found == (first_address(seen, false), first_address(seen, true)),
    ensures
        r == (
            first_address(seen + setting_addresses(settings@), false),
            first_address(seen + setting_addresses(settings@), true),
        ),
{
    let mut acc: (u8, u8) = found;
    let mut k: usize = 0;
    assert(settings@.take(0) =~= Seq::empty());
    assert(seen + setting_addresses(settings@.take(0)) =~= seen);
    while k < settings.len()
        invariant
            k <= settings.len(),
            acc.0 == first_address(seen + setting_addresses(settings@.take(k as int)), false),
            acc.1 == first_address(seen + setting_addresses(settings@.take(k as int)), true),
        decreases settings.len() - k,
    {
        let ghost before = seen + setting_addresses(settings@.take(k as int));
        proof {
            let t = settings@.take(k + 1);
            assert(t.drop_last() =~= settings@.take(k as int));
            assert(t.last() == settings@[k as int]);
            if settings@[k as int].number == 0 {
                assert(seen + setting_addresses(t) =~= before + bulk_addresses(
                    settings@[k as int].endpoints@,
                ));
            } else {
                assert(seen + setting_addresses(t) =~= before);
            }
        }
        if settings[k].number == 0 {
            acc = scan_endpoints(&settings[k].endpoints, acc, Ghost(before));
        }
        k += 1;
    }
    assert(settings@.take(settings.len() as int) =~= settings@);
    acc
}

/// The first bulk OUT and first bulk IN endpoint of interface 0's default
/// alternate setting, zero where there is none.
pub fn find_endpoints(config: &Option<Vec<Interface>>) -> (r: (u8, u8))
    ensures
        r == found_endpoints(*config),
{
    let mut acc: (u8, u8) = (0, 0);
    if let Some(interfaces) = config {
        let mut k: usize = 0;
        assert(interfaces@.take(0) =~= Seq::empty());
        while k < interfaces.len()
            invariant
                k <= interfaces.len(),
                acc.0 == first_address(panel_addresses(interfaces@.take(k as int)), false),
                acc.1 == first_address(panel_addresses(interfaces@.take(k as int)), true),
            decreases interfaces.len() - k,
        {
            let ghost before = panel_addresses(interfaces@.take(k as int));
            proof {
                let t = interfaces@.take(k + 1);
                assert(t.drop_last() =~= interfaces@.take(k as int));
                assert(t.last() == interfaces@[k as int]);
                if interfaces@[k as int].number != USB_INTERFACE {
                    assert(panel_addresses(t) =~= before);
                }
            }
            if interfaces[k].number == USB_INTERFACE {
                acc = scan_settings(&interfaces[k].settings, acc, Ghost(before));
            }
            k += 1;
        }
        assert(interfaces@.take(interfaces.len() as int) =~= interfaces@);
    }
    acc
}

/// The bulk OUT and IN endpoints to use: those found, else EP01 OUT / EP01 IN.
pub fn detect_endpoints(config: &Option<Vec<Interface>>) -> (r: (u8, u8))
    ensures
        r == chosen_endpoints(*config),
{
    let (ep_out, ep_in) = find_endpoints(config);
    (
        if ep_out == 0 {
            EP_OUT_DEFAULT
        } else {
            ep_out
        },
        if ep_in == 0 {
            EP_IN_DEFAULT
        } else {
            ep_in
        },
    )
}

/// The warning about an incomplete endpoint detection.
pub open spec fn endpoint_warning_text(vid: u16, pid: u16, found: (u8, u8)) -> Seq<char> {
    "warn: "@ + hex(vid as nat, 4) + ":"@ + hex(pid as nat, 4)
        + " — endpoint auto-detection incomplete (OUT=0x"@ + hex(found.0 as nat, 2) + " IN=0x"@
        + hex(found.1 as nat, 2) + "); using defaults"@
}

/// A warning where endpoint detection did not find both directions.
pub fn endpoint_warning(vid: u16, pid: u16, config: &Option<Vec<Interface>>) -> (r: Option<String>)
    ensures
        r is Some == (found_endpoints(*config).0 == 0 || found_endpoints(*config).1 == 0),
        r matches Some(w) ==> w@ == endpoint_warning_text(vid, pid, found_endpoints(*config)),
{
    let (ep_out, ep_in) = find_endpoints(config);
    if ep_out != 0 && ep_in != 0 {
        return None;
    }
    let mut out = String::new();
    out.append("warn: ");
    push_hex(&mut out, vid as u64, 4);
    out.append(":");
    push_hex(&mut out, pid as u64, 4);
    out.append(" — endpoint auto-detection incomplete (OUT=0x");
    push_hex(&mut out, ep_out as u64, 2);
    out.append(" IN=0x");
    push_hex(&mut out, ep_in as u64, 2);
    out.append("); using defaults");
    assert(out@ =~= endpoint_warning_text(vid, pid, found_endpoints(*config)));
    Some(out)
}

proof fn lemma_first_address_direction(addresses: Seq<u8>, inward: bool)
    ensures
        first_address(addresses, inward) == 0 || ((first_address(addresses, inward) >= 0x80)
            == inward && addresses.contains(first_address(addresses, inward))),
    decreases addresses.len(),
{
    if addresses.len() > 0 {
        if addresses[0] != 0 && (addresses[0] >= 0x80) == inward {
        } else {
            lemma_first_address_direction(addresses.drop_first(), inward);
            let x = first_address(addresses.drop_first(), inward);
            if x != 0 {
                let j = choose|j: int|
                    0 <= j < addresses.drop_first().len() && addresses.drop_first()[j] == x;
                assert(addresses[j + 1] == x);
            }
        }
    }
}

/// Whatever the descriptors say, the endpoint written to is a non-zero OUT
/// address and the endpoint read from is an IN address.
pub proof fn lemma_endpoints_have_their_direction(config: Option<Vec<Interface>>)
    ensures
        0 < chosen_endpoints(config).0 < 0x80,
        0x80 <= chosen_endpoints(config).1,
{
    if let Some(interfaces) = config {
        lemma_first_address_direction(panel_addresses(interfaces@), false);
        lemma_first_address_direction(panel_addresses(interfaces@), true);
    }
}

// ── Panel setup ─────────────────────────────────────────────────────────

/// An opened, handshaked AIO panel ready to receive frames.
#[derive(Debug, Clone, Copy)]
pub struct AioScreen {
    /// The bulk OUT endpoint that frames are written to.
    pub ep_out: u8,
    /// PM byte from the handshake (response offset 24).
    pub pm: u8,
    /// SUB byte from the handshake (response offset 36).
    pub sub: u8,
}

/// The USB operation to perform next.
#[derive(Debug)]
pub enum SetupAction {
    /// List the devices on the bus with their vendor and product ids.
    ListDevices,
    /// Open the device at this place of the list.
    OpenDevice(usize),
    /// Ask whether a kernel driver holds this interface.
    QueryDriver(u8),
    /// Detach the kernel driver of this interface.
    DetachDriver(u8),
    SetConfiguration(u8),
    ClaimInterface(u8),
    /// Read the active configuration's descriptors.
    ReadDescriptors,
    /// Write the handshake request to this endpoint.
    WriteRequest(u8),
    /// Read the handshake response from this endpoint.
    ReadResponse(u8),
    /// The panel is ready.
    Ready(AioScreen),
    /// The panel cannot be used.
    Fail(AioError),
}

/// The outcome of a USB operation.
#[derive(Debug)]
pub enum SetupEvent {
    /// The ids of the listed devices; `None` where a descriptor was unreadable.
    Devices(Vec<Option<(u16, u16)>>),
    /// The operation succeeded.
    Done,
    /// Whether a kernel driver holds the interface.
    DriverActive(bool),
    /// The interfaces of the active configuration, if they could be read.
    Descriptors(Option<Vec<Interface>>),
    /// The handshake response buffer and the number of bytes received.
    Response([u8; 1024], usize),
    /// The operation failed, with the USB stack's description.
    Failed(String),
}

/// What the setup waits for.
#[derive(Debug, Clone, Copy)]
pub enum SetupState {
    Listing,
    Opening,
    Querying(u8),
    Detaching(u8),
    Configuring,
    Claiming,
    Describing,
    Requesting { ep_out: u8, ep_in: u8 },
    Responding { ep_out: u8 },
    Finished,
}

/// The place of the first device with the wanted ids, at or after `k`.
pub open spec fn device_index(devices: Seq<Option<(u16, u16)>>, vid: u16, pid: u16, k: int) -> Option<
    int,
>
    decreases devices.len() - k,
{
    if k >= devices.len() {
        None
    } else if devices[k] == Some((vid, pid)) {
        Some(k)
    } else {
        device_index(devices, vid, pid, k + 1)
    }
}

/// The driver question for interface `i`, or the configuration once all
/// interfaces have been asked about.
pub open spec fn after_interface(i: int) -> (SetupState, SetupAction) {
    if i < DETACH_INTERFACES {
        (SetupState::Querying(i as u8), SetupAction::QueryDriver(i as u8))
    } else {
        (SetupState::Configuring, SetupAction::SetConfiguration(USB_CONFIGURATION))
    }
}

/// The next state and action, where `event` answers what the setup waits for.
pub open spec fn setup_step(vid: u16, pid: u16, state: SetupState, event: SetupEvent) -> Option<
    (SetupState, SetupAction),
> {
    match (state, event) {
        (SetupState::Finished, _) => None,
        (SetupState::Describing, SetupEvent::Failed(_)) => None,
        (_, SetupEvent::Failed(text)) => Some(
            (SetupState::Finished, SetupAction::Fail(AioError::Usb(text))),
        ),
        (SetupState::Listing, SetupEvent::Devices(devices)) => Some(
            match device_index(devices@, vid, pid, 0) {
                Some(k) => (SetupState::Opening, SetupAction::OpenDevice(k as usize)),
                None => (
                    SetupState::Finished,
                    SetupAction::Fail(AioError::DeviceNotFound { vid, pid }),
                ),
            },
        ),
        (SetupState::Opening, SetupEvent::Done) => Some(after_interface(0)),
        (SetupState::Querying(i), SetupEvent::DriverActive(active)) => Some(
            if active {
                (SetupState::Detaching(i), SetupAction::DetachDriver(i))
            } else {
                after_interface(i + 1)
            },
        ),
        (SetupState::Detaching(i), SetupEvent::Done) => Some(after_interface(i + 1)),
        (SetupState::Configuring, SetupEvent::Done) => Some(
            (SetupState::Claiming, SetupAction::ClaimInterface(USB_INTERFACE)),
        ),
        (SetupState::Claiming, SetupEvent::Done) => Some(
            (SetupState::Describing, SetupAction::ReadDescriptors),
        ),
        (SetupState::Describing, SetupEvent::Descriptors(config)) => {
            let (ep_out, ep_in) = chosen_endpoints(config);
            Some((SetupState::Requesting { ep_out, ep_in }, SetupAction::WriteRequest(ep_out)))
        },
        (SetupState::Requesting { ep_out, ep_in }, SetupEvent::Done) => Some(
            (SetupState::Responding { ep_out }, SetupAction::ReadResponse(ep_in)),
        ),
        (SetupState::Responding { ep_out }, SetupEvent::Response(data, len)) => Some(
            (
                SetupState::Finished,
                match response_outcome(data@, len) {
                    Ok((pm, sub)) => SetupAction::Ready(AioScreen { ep_out, pm, sub }),
                    Err(e) => SetupAction::Fail(e),
                },
            ),
        ),
        _ => None,
    }
}

/// Find the first device with the wanted ids.
pub fn find_device(devices: &Vec<Option<(u16, u16)>>, vid: u16, pid: u16) -> (r: Result<
    usize,
    AioError,
>)
    ensures
        match device_index(devices@, vid, pid, 0) {
            Some(k) => r == Ok::<usize, AioError>(k as usize) && 0 <= k < devices.len(),
            None => r == Err::<usize, AioError>(AioError::DeviceNotFound { vid, pid }),
        },
{
    let mut k: usize = 0;
    while k < devices.len()
        invariant
            k <= devices.len(),
            device_index(devices@, vid, pid, k as int) == device_index(devices@, vid, pid, 0),
        decreases devices.len() - k,
    {
        if let Some((v, p)) = devices[k] {
            if v == vid && p == pid {
                return Ok(k);
            }
        }
        k += 1;
    }
    Err(AioError::DeviceNotFound { vid, pid })
}

/// The opening sequence of the panel.
#[derive(Debug)]
pub struct PanelSetup {
    pub vid: u16,
    pub pid: u16,
    pub state: SetupState,
}

/// Ask about interface `i`, or go on to the configuration.
fn next_interface(i: u8) -> (r: (SetupState, SetupAction))
    ensures
        r == after_interface(i as int),
{
    if i < DETACH_INTERFACES {
        (SetupState::Querying(i), SetupAction::QueryDriver(i))
    } else {
        (SetupState::Configuring, SetupAction::SetConfiguration(USB_CONFIGURATION))
    }
}

impl PanelSetup {
    /// Start looking for the panel `vid:pid`; the first action is
    /// [`SetupAction::ListDevices`].
    pub fn new(vid: u16, pid: u16) -> (r: PanelSetup)
        ensures
            r.vid == vid,
            r.pid == pid,
            r.state == SetupState::Listing,
    {
        PanelSetup { vid, pid, state: SetupState::Listing }
    }

    /// Take the outcome of the pending operation and return the next one, or
    /// `None` where `event` is no answer to the pending operation.
    pub fn step(&mut self, event: SetupEvent) -> (r: Option<SetupAction>)
        ensures
            final(self).vid == old(self).vid,
            final(self).pid == old(self).pid,
            match setup_step(old(self).vid, old(self).pid, old(self).state, event) {
                Some((state, action)) => final(self).state == state && r == Some(action),
                None => final(self).state == old(self).state && r is None,
            },
    {
        let (state, action): (SetupState, SetupAction) = match (self.state, event) {
            (SetupState::Finished, _) => {
                return None;
            },
            (SetupState::Describing, SetupEvent::Failed(_)) => {
                return None;
            },
            (_, SetupEvent::Failed(text)) => (
                SetupState::Finished,
                SetupAction::Fail(AioError::Usb(text)),
            ),
            (SetupState::Listing, SetupEvent::Devices(devices)) => {
                match find_device(&devices, self.vid, self.pid) {
                    Ok(k) => (SetupState::Opening, SetupAction::OpenDevice(k)),
                    Err(e) => (SetupState::Finished, SetupAction::Fail(e)),
                }
            },
            (SetupState::Opening, SetupEvent::Done) => next_interface(0),
            (SetupState::Querying(i), SetupEvent::DriverActive(active)) => {
                if active {
                    (SetupState::Detaching(i), SetupAction::DetachDriver(i))
                } else if i < DETACH_INTERFACES {
                    next_interface(i + 1)
                } else {
                    next_interface(DETACH_INTERFACES)
                }
            },
            (SetupState::Detaching(i), SetupEvent::Done) => {
                if i < DETACH_INTERFACES {
                    next_interface(i + 1)
                } else {
                    next_interface(DETACH_INTERFACES)
                }
            },
            (SetupState::Configuring, SetupEvent::Done) => (
                SetupState::Claiming,
                SetupAction::ClaimInterface(USB_INTERFACE),
            ),
            (SetupState::Claiming, SetupEvent::Done) => (
                SetupState::Describing,
                SetupAction::ReadDescriptors,
            ),
            (SetupState::Describing, SetupEvent::Descriptors(config)) => {
                let (ep_out, ep_in) = detect_endpoints(&config);
                (SetupState::Requesting { ep_out, ep_in }, SetupAction::WriteRequest(ep_out))
            },
            (SetupState::Requesting { ep_out, ep_in }, SetupEvent::Done) => (
                SetupState::Responding { ep_out },
                SetupAction::ReadResponse(ep_in),
            ),
            (SetupState::Responding { ep_out }, SetupEvent::Response(data, len)) => {
                match check_response(&data, len) {
                    Ok((pm, sub)) => (
                        SetupState::Finished,
                        SetupAction::Ready(AioScreen { ep_out, pm, sub }),
                    ),
                    Err(e) => (SetupState::Finished, SetupAction::Fail(e)),
                }
            },
            _ => {
                return None;
            },
        };
        self.state = state;
        Some(action)
    }
}

/// How far a state is along the opening sequence.
pub open spec fn setup_rank(state: SetupState) -> int {
    match state {
        SetupState::Listing => 0,
        SetupState::Opening => 1,
        SetupState::Querying(i) => 2 + 2 * i,
        SetupState::Detaching(i) => 3 + 2 * i,
        SetupState::Configuring => 10,
        SetupState::Claiming => 11,
        SetupState::Describing => 12,
        SetupState::Requesting { .. } => 13,
        SetupState::Responding { .. } => 14,
        SetupState::Finished => 15,
    }
}

/// The states that the opening sequence goes through: interface numbers below
/// four, and endpoints of the right direction.
pub open spec fn setup_valid(state: SetupState) -> bool {
    match state {
        SetupState::Querying(i) => i < DETACH_INTERFACES,
        SetupState::Detaching(i) => i < DETACH_INTERFACES,
        SetupState::Requesting { ep_out, ep_in } => 0 < ep_out < 0x80 && 0x80 <= ep_in,
        SetupState::Responding { ep_out } => 0 < ep_out < 0x80,
        _ => true,
    }
}

/// Every step of the opening sequence moves on to a later valid state, so the
/// sequence ends after at most fifteen answers.
pub proof fn lemma_setup_advances(vid: u16, pid: u16, state: SetupState, event: SetupEvent)
    requires
        setup_valid(state),
        setup_step(vid, pid, state, event) is Some,
    ensures
        setup_valid((setup_step(vid, pid, state, event)->Some_0).0),
        setup_rank(state) < setup_rank((setup_step(vid, pid, state, event)->Some_0).0) <= 15,
{
    if let SetupEvent::Descriptors(config) = event {
        lemma_endpoints_have_their_direction(config);
    }
}

/// The configuration is selected only after the last of the four interfaces
/// was found free or was detached.
pub proof fn lemma_interfaces_released_before_configuration(
    vid: u16,
    pid: u16,
    state: SetupState,
    event: SetupEvent,
)
    requires
        setup_valid(state),
        setup_step(vid, pid, state, event) matches Some((_, SetupAction::SetConfiguration(_))),
    ensures
        (state == SetupState::Querying((DETACH_INTERFACES - 1) as u8) && event
            == SetupEvent::DriverActive(false)) || (state == SetupState::Detaching(
            (DETACH_INTERFACES - 1) as u8,
        ) && event is Done),
{
}

/// A panel is ready only after a response of sufficient length with a
/// non-zero PM byte, and its endpoint is a non-zero OUT address.
pub proof fn lemma_ready_panel_is_validated(
    vid: u16,
    pid: u16,
    state: SetupState,
    event: SetupEvent,
)
    requires
        setup_valid(state),
        setup_step(vid, pid, state, event) matches Some((_, SetupAction::Ready(_))),
    ensures
        event matches SetupEvent::Response(data, len) && len >= HANDSHAKE_MIN_LEN && ({
            let screen = (setup_step(vid, pid, state, event)->Some_0).1->Ready_0;
            &&& screen.pm == data@[24] && screen.pm != 0
            &&& screen.sub == data@[36]
            &&& 0 < screen.ep_out < 0x80
        }),
{
}

/// The handshake request is 64 bytes: the magic, the command at offset 56 and
/// zeros.
pub proof fn lemma_request_layout()
    ensures
        request_bytes().len() == HANDSHAKE_SIZE,
        request_bytes().take(4) == seq![0x78u8, 0x56u8, 0x34u8, 0x12u8],
        read_le32(request_bytes(), 0) == MAGIC,
        request_bytes()[56] == CMD_DEV_INFO,
        forall|i: int| 4 <= i < 64 && i != 56 ==> #[trigger] request_bytes()[i] == 0,
{
    assert(request_bytes().take(4) =~= seq![0x78u8, 0x56u8, 0x34u8, 0x12u8]);
    lemma_le32_field(request_bytes(), 0, MAGIC as nat);
}

// ── Frame transfer ──────────────────────────────────────────────────────

/// The bulk writes still due when `offset` bytes of `frame` have been written:
/// chunks of 16 KiB, then, unless already sent, a zero-length packet if the
/// frame length is a multiple of 512.
pub open spec fn writes_from(frame: Seq<u8>, offset: int, terminated: bool) -> Seq<Seq<u8>>
    decreases frame.len() - offset,
{
    if offset < frame.len() {
        let end = if offset + WRITE_CHUNK_SIZE < frame.len() {
            offset + WRITE_CHUNK_SIZE
        } else {
            frame.len() as int
        };
        seq![frame.subrange(offset, end)] + writes_from(frame, end, terminated)
    } else if frame.len() % (ZLP_ALIGN as nat) == 0 && !terminated {
        seq![Seq::empty()]
    } else {
        Seq::empty()
    }
}

/// The transfer of one frame to the panel.
#[derive(Debug)]
pub struct FrameTransfer {
    frame: Vec<u8>,
    sent: usize,
    terminated: bool,
}

impl FrameTransfer {
    #[verifier::type_invariant]
    spec fn inv(self) -> bool {
        self.sent <= self.frame.len()
    }

    /// The bytes of the frame.
    pub closed spec fn frame_view(self) -> Seq<u8> {
        self.frame@
    }

    /// The number of bytes written so far.
    pub closed spec fn offset(self) -> int {
        self.sent as int
    }

    /// The bulk writes still due.
    pub closed spec fn remaining(self) -> Seq<Seq<u8>> {
        writes_from(self.frame@, self.sent as int, self.terminated)
    }

    /// The bytes of the frame.
    pub fn frame(&self) -> (r: &[u8])
        ensures
            r@ == self.frame_view(),
    {
        self.frame.as_slice()
    }

    /// The bounds, within the frame, of the next bulk write; `None` when the
    /// transfer is complete.
    pub fn next(&self) -> (r: Option<(usize, usize)>)
        ensures
            r is None == (self.remaining().len() == 0),
            r matches Some((a, b)) ==> a <= b <= self.frame_view().len() && a == self.offset()
                && self.frame_view().subrange(a as int, b as int) == self.remaining()[0],
    {
        proof {
            use_type_invariant(self);
        }
        let n = self.frame.len();
        if self.sent < n {
            let end: usize = if n - self.sent > WRITE_CHUNK_SIZE {
                self.sent + WRITE_CHUNK_SIZE
            } else {
                n
            };
            Some((self.sent, end))
        } else if n % ZLP_ALIGN == 0 && !self.terminated {
            assert(self.frame@.subrange(n as int, n as int) =~= Seq::empty());
            Some((n, n))
        } else {
            None
        }
    }

    /// Account for the next bulk write, which transferred `n` bytes.
    pub fn wrote(&mut self, n: usize) -> (r: Result<(), AioError>)
        requires
            old(self).remaining().len() > 0,
        ensures
            final(self).frame_view() == old(self).frame_view(),
            n < old(self).remaining()[0].len() ==> *final(self) == *old(self) && r == Err::<
                (),
                AioError,
            >(
                AioError::ShortWrite {
                    offset: old(self).offset() as usize,
                    wrote: n,
                    expected: old(self).remaining()[0].len() as usize,
                },
            ),
            n >= old(self).remaining()[0].len() ==> r is Ok && final(self).remaining() == old(
                self,
            ).remaining().drop_first() && final(self).offset() == old(self).offset() + old(
                self,
            ).remaining()[0].len(),
    {
        proof {
            use_type_invariant(&*self);
        }
        let len = self.frame.len();
        if self.sent < len {
            let end: usize = if len - self.sent > WRITE_CHUNK_SIZE {
                self.sent + WRITE_CHUNK_SIZE
            } else {
                len
            };
            let expected: usize = end - self.sent;
            if n < expected {
                return Err(AioError::ShortWrite { offset: self.sent, wrote: n, expected });
            }
            proof {
                let rest = writes_from(self.frame@, end as int, self.terminated);
                assert((seq![self.frame@.subrange(self.sent as int, end as int)] + rest).drop_first()
                    =~= rest);
            }
            self.sent = end;
        } else {
            self.terminated = true;
            assert(old(self).remaining().drop_first() =~= Seq::empty());
        }
        Ok(())
    }
}

impl AioScreen {
    /// PM byte from the handshake (device fingerprint, response offset 24).
    pub fn pm(&self) -> (r: u8)
        ensures
            r == self.pm,
    {
        self.pm
    }

    /// SUB byte from the handshake (response offset 36).
    pub fn sub(&self) -> (r: u8)
        ensures
            r == self.sub,
    {
        self.sub
    }

    /// Begin sending a JPEG-encoded frame to the panel.
    ///
    /// The payload must be a JPEG byte stream. The 64-byte header declares the
    /// panel's native geometry and the payload length.
    pub fn send_frame(&self, jpeg: &[u8]) -> (r: Result<FrameTransfer, AioError>)
        ensures
            is_jpeg(jpeg@) ==> r is Ok && r->Ok_0.frame_view() == frame_bytes(jpeg@)
                && r->Ok_0.offset() == 0 && r->Ok_0.remaining() == writes_from(
                frame_bytes(jpeg@),
                0,
                false,
            ),
            !is_jpeg(jpeg@) ==> r == Err::<FrameTransfer, AioError>(
                AioError::NotJpeg { len: jpeg@.len() as usize },
            ),
    {
        if !has_start_of_image(jpeg) {
            return Err(AioError::NotJpeg { len: jpeg.len() });
        }
        let mut frame: Vec<u8> = Vec::new();
        push_le32(&mut frame, MAGIC as u64);
        push_le32(&mut frame, CMD_JPEG as u64);
        push_le32(&mut frame, WIDTH as u64);
        push_le32(&mut frame, HEIGHT as u64);
        push_zeros(&mut frame, 40);
        push_le32(&mut frame, 2);
        push_le32(&mut frame, jpeg.len() as u64);
        assert(frame@ =~= header_bytes(jpeg@.len()));
        frame.extend_from_slice(jpeg);
        assert(frame@ =~= frame_bytes(jpeg@));
        Ok(FrameTransfer { frame, sent: 0, terminated: false })
    }
}

/// The warning about a JPEG of the wrong size.
pub open spec fn size_warning_text(w: u16, h: u16) -> Seq<char> {
    "warn: JPEG is "@ + decimal(w as nat) + "x"@ + decimal(h as nat) + " but the header declares "@
        + decimal(WIDTH as nat) + "x"@ + decimal(HEIGHT as nat)
        + " — the panel will paint only the overlap"@
}

/// A warning where a JPEG declares another size than the panel's.
pub fn size_warning(jpeg: &[u8]) -> (r: Option<String>)
    ensures
        r is Some == (declared_size(jpeg@) is Some && declared_size(jpeg@) != Some((WIDTH, HEIGHT))),
        r matches Some(t) ==> declared_size(jpeg@) matches Some((w, h)) && t@ == size_warning_text(
            w,
            h,
        ),
{
    match jpeg_dimensions(jpeg) {
        Some((w, h)) => {
            if w == WIDTH && h == HEIGHT {
                return None;
            }
            let mut out = String::new();
            out.append("warn: JPEG is ");
            push_decimal(&mut out, w as u128);
            out.append("x");
            push_decimal(&mut out, h as u128);
            out.append(" but the header declares ");
            push_decimal(&mut out, WIDTH as u128);
            out.append("x");
            push_decimal(&mut out, HEIGHT as u128);
            out.append(" — the panel will paint only the overlap");
            assert(out@ =~= size_warning_text(w, h));
            Some(out)
        },
        None => None,
    }
}

/// Where each header field of a frame stands and what it says; the payload
/// follows unchanged.
pub proof fn lemma_frame_layout(jpeg: Seq<u8>)
    ensures
        frame_bytes(jpeg).len() == 64 + jpeg.len(),
        frame_bytes(jpeg).take(4) == seq![0x78u8, 0x56u8, 0x34u8, 0x12u8],
        read_le32(frame_bytes(jpeg), 0) == MAGIC,
        read_le32(frame_bytes(jpeg), 4) == CMD_JPEG,
        read_le32(frame_bytes(jpeg), 8) == WIDTH,
        read_le32(frame_bytes(jpeg), 12) == HEIGHT,
        forall|i: int| 16 <= i < 56 ==> #[trigger] frame_bytes(jpeg)[i] == 0,
        read_le32(frame_bytes(jpeg), 56) == 2,
        read_le32(frame_bytes(jpeg), 60) == jpeg.len() % 0x1_0000_0000,
        frame_bytes(jpeg).skip(64) == jpeg,
{
    let f = frame_bytes(jpeg);
    assert(f.take(4) =~= seq![0x78u8, 0x56u8, 0x34u8, 0x12u8]);
    lemma_le32_field(f, 0, MAGIC as nat);
    assert(f.skip(64) =~= jpeg);
    lemma_le32_field(f, 4, CMD_JPEG as nat);
    lemma_le32_field(f, 8, WIDTH as nat);
    lemma_le32_field(f, 12, HEIGHT as nat);
    lemma_le32_field(f, 56, 2);
    lemma_le32_field(f, 60, jpeg.len());
}

proof fn lemma_le32_field(s: Seq<u8>, i: int, n: nat)
    requires
        0 <= i,
        i + 4 <= s.len(),
        s.subrange(i, i + 4) =~= le32(n),
    ensures
        read_le32(s, i) == n % 0x1_0000_0000,
{
    let t = s.subrange(i, i + 4);
    assert(s[i] == t[0] && s[i + 1] == t[1] && s[i + 2] == t[2] && s[i + 3] == t[3]);
    let a = n / 256;
    let b = a / 256;
    let c = b / 256;
    assert(n / 65536 == b);
    assert(n / 16777216 == c);
}

/// The bytes of a list of writes, one after the other.
pub open spec fn concat(writes: Seq<Seq<u8>>) -> Seq<u8>
    decreases writes.len(),
{
    if writes.len() == 0 {
        Seq::empty()
    } else {
        writes[0] + concat(writes.drop_first())
    }
}

/// The writes of a transfer carry exactly the bytes not yet written, in order;
/// none is longer than a chunk; and the last one, and no other, is a
/// zero-length packet exactly if the frame length is a multiple of 512.
pub proof fn lemma_writes_carry_the_frame(frame: Seq<u8>, offset: int)
    requires
        0 <= offset <= frame.len(),
    ensures
        concat(writes_from(frame, offset, false)) == frame.skip(offset),
        forall|i: int|
            #![trigger writes_from(frame, offset, false)[i]]
            0 <= i < writes_from(frame, offset, false).len() ==> writes_from(
                frame,
                offset,
                false,
            )[i].len() <= WRITE_CHUNK_SIZE,
        forall|i: int|
            #![trigger writes_from(frame, offset, false)[i]]
            0 <= i < writes_from(frame, offset, false).len() ==> (writes_from(
                frame,
                offset,
                false,
            )[i].len() == 0 <==> frame.len() % (ZLP_ALIGN as nat) == 0 && i == writes_from(
                frame,
                offset,
                false,
            ).len() - 1),
        frame.len() % (ZLP_ALIGN as nat) == 0 ==> writes_from(frame, offset, false).len() > 0,
    decreases frame.len() - offset,
{
    let w = writes_from(frame, offset, false);
    if offset < frame.len() {
        let end = if offset + WRITE_CHUNK_SIZE < frame.len() {
            offset + WRITE_CHUNK_SIZE
        } else {
            frame.len() as int
        };
        lemma_writes_carry_the_frame(frame, end);
        let rest = writes_from(frame, end, false);
        assert(w.drop_first() =~= rest);
        assert(w[0] == frame.subrange(offset, end));
        assert(w[0] + frame.skip(end) =~= frame.skip(offset));
        assert forall|i: int| 1 <= i < w.len() implies #[trigger] w[i] == rest[i - 1] by {}
        if frame.len() % (ZLP_ALIGN as nat) != 0 {
            if end == frame.len() {
                assert(rest.len() == 0);
            }
        }
    } else if frame.len() % (ZLP_ALIGN as nat) == 0 {
        assert(w.drop_first() =~= Seq::empty());
        assert(concat(w.drop_first()) =~= Seq::empty());
        assert(frame.skip(offset) =~= Seq::empty());
        assert(concat(w) =~= Seq::empty());
    } else {
        assert(frame.skip(offset) =~= Seq::empty());
    }
}

// ── Laws of the wire format ─────────────────────────────────────────────

/// The handshake request, byte by byte: 64 bytes, the magic at the front, the
/// device-info command at offset 56, zeros elsewhere.
pub proof fn lemma_request_bytes(i: int)
    requires
        0 <= i < 64,
    ensures
        request_bytes().len() == 64,
        request_bytes()[i] == if i == 0 {
            0x78u8
        } else if i == 1 {
            0x56
        } else if i == 2 {
            0x34
        } else if i == 3 {
            0x12
        } else if i == 56 {
            1
        } else {
            0
        },
{
}

/// A frame, byte by byte: the magic, the JPEG command, 480 twice, forty zeros, a
/// two, the length of the payload, each as four bytes with the lowest first,
/// then the payload.
pub proof fn lemma_frame_bytes(jpeg: Seq<u8>, i: int)
    requires
        0 <= i < 64 + jpeg.len(),
    ensures
        frame_bytes(jpeg).len() == 64 + jpeg.len(),
        frame_bytes(jpeg)[i] == if i == 0 {
            0x78u8
        } else if i == 1 {
            0x56
        } else if i == 2 {
            0x34
        } else if i == 3 {
            0x12
        } else if i == 4 || i == 56 {
            2
        } else if i == 8 || i == 12 {
            0xe0
        } else if i == 9 || i == 13 {
            1
        } else if i == 60 {
            (jpeg.len() % 256) as u8
        } else if i == 61 {
            (jpeg.len() / 256 % 256) as u8
        } else if i == 62 {
            (jpeg.len() / 65536 % 256) as u8
        } else if i == 63 {
            (jpeg.len() / 16777216 % 256) as u8
        } else if i < 64 {
            0
        } else {
            jpeg[i - 64]
        },
{
}

/// When a handshake succeeds: exactly if at least 41 bytes came and byte 24 is
/// not zero. It then yields bytes 24 and 36; otherwise the error names the
/// number of bytes and byte 24, unless that is zero.
pub proof fn lemma_handshake_outcome(resp: Seq<u8>, len: usize)
    ensures
        len >= 41 && resp[24] != 0 ==> response_outcome(resp, len) == Ok::<(u8, u8), AioError>(
            (resp[24], resp[36]),
        ),
        len < 41 && resp[24] != 0 ==> response_outcome(resp, len) == Err::<(u8, u8), AioError>(
            AioError::HandshakeFailed { len, pm: Some(resp[24]) },
        ),
        resp[24] == 0 ==> response_outcome(resp, len) == Err::<(u8, u8), AioError>(
            AioError::HandshakeFailed { len, pm: None },
        ),
{
}

/// How a frame is cut: every write but the last one that carries bytes is
/// exactly 16384 bytes long; once the closing packet is out, none is due any
/// more, and before that one of no length is due at the very end exactly if the
/// frame length is a multiple of 512.
pub proof fn lemma_writes_are_full_chunks(frame: Seq<u8>, offset: int, terminated: bool)
    requires
        0 <= offset <= frame.len(),
    ensures
        ({
            let w = writes_from(frame, offset, terminated);
            let left = frame.len() - offset;
            let chunks = (left + 16383) / 16384;
            let closing = frame.len() % 512 == 0 && !terminated;
            &&& w.len() == chunks + if closing {
                1int
            } else {
                0
            }
            &&& forall|i: int|
                0 <= i < chunks ==> #[trigger] w[i] == frame.subrange(
                    offset + 16384 * i,
                    if i == chunks - 1 {
                        frame.len() as int
                    } else {
                        offset + 16384 * (i + 1)
                    },
                )
            &&& closing ==> w[chunks].len() == 0
        }),
    decreases frame.len() - offset,
{
    let w = writes_from(frame, offset, terminated);
    let left = frame.len() - offset;
    let chunks = (left + 16383) / 16384;
    if offset < frame.len() {
        let end = if offset + 16384 < frame.len() {
            offset + 16384
        } else {
            frame.len() as int
        };
        lemma_writes_are_full_chunks(frame, end, terminated);
        let rest = writes_from(frame, end, terminated);
        let more = (frame.len() - end + 16383) / 16384;
        assert(chunks == more + 1);
        assert forall|i: int| 0 <= i < chunks implies #[trigger] w[i] == frame.subrange(
            offset + 16384 * i,
            if i == chunks - 1 {
                frame.len() as int
            } else {
                offset + 16384 * (i + 1)
            },
        ) by {
            if i > 0 {
                assert(w[i] == rest[i - 1]);
            }
        }
        if frame.len() % 512 == 0 && !terminated {
            assert(w[chunks] == rest[more]);
        }
    } else {
        assert(left == 0 && chunks == 0);
    }
}

// ── Laws of endpoint detection ──────────────────────────────────────────

/// Whether the `c`-th endpoint of the `b`-th setting of the `a`-th interface is
/// a candidate: a bulk endpoint, of the wanted direction and with an address, of
/// setting 0 of interface 0.
pub open spec fn is_candidate(
    interfaces: Seq<Interface>,
    inward: bool,
    a: int,
    b: int,
    c: int,
) -> bool {
    &&& 0 <= a < interfaces.len()
    &&& interfaces[a].number == 0
    &&& setting_candidate(interfaces[a].settings@, inward, b, c)
}

/// The same within the settings of one interface.
pub open spec fn setting_candidate(settings: Seq<Setting>, inward: bool, b: int, c: int) -> bool {
    &&& 0 <= b < settings.len()
    &&& settings[b].number == 0
    &&& endpoint_candidate(settings[b].endpoints@, inward, c)
}

/// The same within the endpoints of one setting.
pub open spec fn endpoint_candidate(endpoints: Seq<Endpoint>, inward: bool, c: int) -> bool {
    &&& 0 <= c < endpoints.len()
    &&& endpoints[c].bulk
    &&& endpoints[c].address != 0
    &&& inward <==> endpoints[c].address >= 128
}

proof fn lemma_first_of_endpoints(endpoints: Seq<Endpoint>, inward: bool, c: int)
    requires
        0 <= c <= endpoints.len(),
        c < endpoints.len() ==> endpoint_candidate(endpoints, inward, c),
        forall|z: int| 0 <= z < c ==> !#[trigger] endpoint_candidate(endpoints, inward, z),
    ensures
        first_address(bulk_addresses(endpoints), inward) == if c < endpoints.len() {
            endpoints[c].address
        } else {
            0
        },
    decreases endpoints.len(),
{
    if endpoints.len() > 0 {
        let front = endpoints.drop_last();
        let n = endpoints.len() - 1;
        let d = if c < n {
            c
        } else {
            n
        };
        assert forall|z: int| 0 <= z < n implies endpoint_candidate(endpoints, inward, z)
            == #[trigger] endpoint_candidate(front, inward, z) by {}
        assert forall|z: int| 0 <= z < d implies !#[trigger] endpoint_candidate(
            front,
            inward,
            z,
        ) by {
            assert(!endpoint_candidate(endpoints, inward, z));
        }
        if c < n {
            assert(endpoint_candidate(front, inward, c));
        }
        lemma_first_of_endpoints(front, inward, d);
        assert(endpoints[n] == endpoints.last());
        if c > n {
            assert(!endpoint_candidate(endpoints, inward, n));
        }
        lemma_first_address_push(bulk_addresses(front), endpoints.last().address, inward);
    }
}

proof fn lemma_first_of_settings(settings: Seq<Setting>, inward: bool, b: int, c: int)
    requires
        0 <= b <= settings.len(),
        b < settings.len() ==> setting_candidate(settings, inward, b, c),
        forall|y: int, z: int|
            0 <= y < b || (y == b && z < c) ==> !#[trigger] setting_candidate(
                settings,
                inward,
                y,
                z,
            ),
    ensures
        first_address(setting_addresses(settings), inward) == if b < settings.len() {
            settings[b].endpoints@[c].address
        } else {
            0
        },
    decreases settings.len(),
{
    if settings.len() > 0 {
        let front = settings.drop_last();
        let n = settings.len() - 1;
        let last = settings.last();
        assert(settings[n] == last);
        assert forall|y: int, z: int| y < n implies setting_candidate(settings, inward, y, z)
            == #[trigger] setting_candidate(front, inward, y, z) by {}
        if b < n {
            assert(setting_candidate(front, inward, b, c));
            assert forall|y: int, z: int|
                0 <= y < b || (y == b && z < c) implies !#[trigger] setting_candidate(
                front,
                inward,
                y,
                z,
            ) by {
                assert(!setting_candidate(settings, inward, y, z));
            }
            lemma_first_of_settings(front, inward, b, c);
            assert(settings[b].endpoints@[c].address != 0);
        } else {
            assert forall|y: int, z: int|
                0 <= y < n || (y == n && z < 0) implies !#[trigger] setting_candidate(
                front,
                inward,
                y,
                z,
            ) by {
                if y < n {
                    assert(!setting_candidate(settings, inward, y, z));
                }
            }
            lemma_first_of_settings(front, inward, n, 0);
            let end = if b == n {
                c
            } else {
                last.endpoints@.len() as int
            };
            if last.number == 0 {
                assert forall|z: int| 0 <= z < end implies !#[trigger] endpoint_candidate(
                    last.endpoints@,
                    inward,
                    z,
                ) by {
                    assert(!setting_candidate(settings, inward, n, z));
                }
                lemma_first_of_endpoints(last.endpoints@, inward, end);
            }
        }
        if last.number == 0 {
            lemma_first_address_concat(
                setting_addresses(front),
                bulk_addresses(last.endpoints@),
                inward,
            );
        } else {
            assert(setting_addresses(front) + Seq::<u8>::empty() =~= setting_addresses(front));
        }
    }
}

proof fn lemma_first_of_interfaces(interfaces: Seq<Interface>, inward: bool, a: int, b: int, c: int)
    requires
        0 <= a <= interfaces.len(),
        a < interfaces.len() ==> is_candidate(interfaces, inward, a, b, c),
        forall|x: int, y: int, z: int|
            0 <= x < a || (x == a && (y < b || (y == b && z < c))) ==> !#[trigger] is_candidate(
                interfaces,
                inward,
                x,
                y,
                z,
            ),
    ensures
        first_address(panel_addresses(interfaces), inward) == if a < interfaces.len() {
            interfaces[a].settings@[b].endpoints@[c].address
        } else {
            0
        },
    decreases interfaces.len(),
{
    if interfaces.len() > 0 {
        let front = interfaces.drop_last();
        let n = interfaces.len() - 1;
        let last = interfaces.last();
        assert(interfaces[n] == last);
        assert forall|x: int, y: int, z: int| x < n implies is_candidate(
            interfaces,
            inward,
            x,
            y,
            z,
        ) == #[trigger] is_candidate(front, inward, x, y, z) by {}
        if a < n {
            assert(is_candidate(front, inward, a, b, c));
            assert forall|x: int, y: int, z: int|
                0 <= x < a || (x == a && (y < b || (y == b && z < c))) implies !#[trigger] is_candidate(
                front,
                inward,
                x,
                y,
                z,
            ) by {
                assert(!is_candidate(interfaces, inward, x, y, z));
            }
            lemma_first_of_interfaces(front, inward, a, b, c);
            assert(interfaces[a].settings@[b].endpoints@[c].address != 0);
        } else {
            assert forall|x: int, y: int, z: int|
                0 <= x < n || (x == n && (y < 0 || (y == 0 && z < 0)))
                implies !#[trigger] is_candidate(front, inward, x, y, z) by {
                if x < n {
                    assert(!is_candidate(interfaces, inward, x, y, z));
                }
            }
            lemma_first_of_interfaces(front, inward, n, 0, 0);
            let (e, f) = if a == n {
                (b, c)
            } else {
                (last.settings@.len() as int, 0)
            };
            if last.number == 0 {
                assert forall|y: int, z: int|
                    0 <= y < e || (y == e && z < f) implies !#[trigger] setting_candidate(
                    last.settings@,
                    inward,
                    y,
                    z,
                ) by {
                    assert(!is_candidate(interfaces, inward, n, y, z));
                }
                lemma_first_of_settings(last.settings@, inward, e, f);
            }
        }
        if last.number == 0 {
            lemma_first_address_concat(
                panel_addresses(front),
                setting_addresses(last.settings@),
                inward,
            );
        } else {
            assert(panel_addresses(front) + Seq::<u8>::empty() =~= panel_addresses(front));
        }
    }
}

/// Which endpoint is used: of each direction the first candidate, in the order
/// of the descriptors.
pub proof fn lemma_first_candidate_is_used(
    interfaces: Vec<Interface>,
    inward: bool,
    a: int,
    b: int,
    c: int,
)
    requires
        is_candidate(interfaces@, inward, a, b, c),
        forall|x: int, y: int, z: int|
            0 <= x < a || (x == a && (y < b || (y == b && z < c))) ==> !#[trigger] is_candidate(
                interfaces@,
                inward,
                x,
                y,
                z,
            ),
    ensures
        ({
            let address = interfaces@[a].settings@[b].endpoints@[c].address;
            &&& inward ==> found_endpoints(Some(interfaces)).1 == address && chosen_endpoints(
                Some(interfaces),
            ).1 == address
            &&& !inward ==> found_endpoints(Some(interfaces)).0 == address && chosen_endpoints(
                Some(interfaces),
            ).0 == address
        }),
{
    lemma_first_of_interfaces(interfaces@, inward, a, b, c);
}

/// Without a candidate of a direction nothing is found for it, and endpoint 1 of
/// that direction is used; without descriptors for both.
pub proof fn lemma_default_endpoints(interfaces: Vec<Interface>, inward: bool)
    requires
        forall|x: int, y: int, z: int| !#[trigger] is_candidate(interfaces@, inward, x, y, z),
    ensures
        inward ==> found_endpoints(Some(interfaces)).1 == 0 && chosen_endpoints(
            Some(interfaces),
        ).1 == 0x81,
        !inward ==> found_endpoints(Some(interfaces)).0 == 0 && chosen_endpoints(
            Some(interfaces),
        ).0 == 0x01,
        found_endpoints(None) == (0u8, 0u8),
        chosen_endpoints(None) == (0x01u8, 0x81u8),
{
    lemma_first_of_interfaces(interfaces@, inward, interfaces@.len() as int, 0, 0);
}

// ── Laws of the setup ───────────────────────────────────────────────────

/// The first device on the bus with the wanted ids is opened; without one the
/// setup fails and names the ids.
pub proof fn lemma_first_matching_device_is_opened(
    vid: u16,
    pid: u16,
    devices: Vec<Option<(u16, u16)>>,
    k: int,
)
    requires
        0 <= k <= devices@.len(),
        k < devices@.len() ==> devices@[k] == Some((vid, pid)),
        forall|j: int| 0 <= j < k ==> (#[trigger] devices@[j]) != Some((vid, pid)),
    ensures
        k < devices@.len() ==> setup_step(
            vid,
            pid,
            SetupState::Listing,
            SetupEvent::Devices(devices),
        ) == Some((SetupState::Opening, SetupAction::OpenDevice(k as usize))),
        k == devices@.len() ==> setup_step(
            vid,
            pid,
            SetupState::Listing,
            SetupEvent::Devices(devices),
        ) == Some(
            (SetupState::Finished, SetupAction::Fail(AioError::DeviceNotFound { vid, pid })),
        ),
{
    lemma_device_index_from(devices@, vid, pid, 0, k);
}

proof fn lemma_device_index_from(
    devices: Seq<Option<(u16, u16)>>,
    vid: u16,
    pid: u16,
    from: int,
    k: int,
)
    requires
        0 <= from <= k <= devices.len(),
        forall|j: int| from <= j < k ==> (#[trigger] devices[j]) != Some((vid, pid)),
    ensures
        device_index(devices, vid, pid, from) == device_index(devices, vid, pid, k),
    decreases k - from,
{
    if from < k {
        assert(devices[from] != Some((vid, pid)));
        lemma_device_index_from(devices, vid, pid, from + 1, k);
    }
}

/// The interfaces 0 to 3 in turn: each is asked about, a driver that holds it is
/// detached, and only then comes the next one, or configuration 1 after the
/// last.
pub proof fn lemma_each_interface_is_released_in_turn(vid: u16, pid: u16, i: u8)
    requires
        i < 4,
    ensures
        setup_step(vid, pid, SetupState::Opening, SetupEvent::Done) == Some(
            (SetupState::Querying(0), SetupAction::QueryDriver(0)),
        ),
        setup_step(vid, pid, SetupState::Querying(i), SetupEvent::DriverActive(true)) == Some(
            (SetupState::Detaching(i), SetupAction::DetachDriver(i)),
        ),
        setup_step(vid, pid, SetupState::Querying(i), SetupEvent::DriverActive(false)) == Some(
            if i < 3 {
                (SetupState::Querying((i + 1) as u8), SetupAction::QueryDriver((i + 1) as u8))
            } else {
                (SetupState::Configuring, SetupAction::SetConfiguration(1))
            },
        ),
        setup_step(vid, pid, SetupState::Detaching(i), SetupEvent::Done) == setup_step(
            vid,
            pid,
            SetupState::Querying(i),
            SetupEvent::DriverActive(false),
        ),
{
}

/// From the configuration to the handshake: interface 0 is claimed, the
/// descriptors choose the endpoints, the request goes out on one and the
/// response comes in on the other.
pub proof fn lemma_claim_and_handshake(
    vid: u16,
    pid: u16,
    config: Option<Vec<Interface>>,
    ep_out: u8,
    ep_in: u8,
    data: [u8; 1024],
    len: usize,
)
    ensures
        setup_step(vid, pid, SetupState::Configuring, SetupEvent::Done) == Some(
            (SetupState::Claiming, SetupAction::ClaimInterface(0)),
        ),
        setup_step(vid, pid, SetupState::Claiming, SetupEvent::Done) == Some(
            (SetupState::Describing, SetupAction::ReadDescriptors),
        ),
        setup_step(vid, pid, SetupState::Describing, SetupEvent::Descriptors(config)) == Some(
            (
                SetupState::Requesting {
                    ep_out: chosen_endpoints(config).0,
                    ep_in: chosen_endpoints(config).1,
                },
                SetupAction::WriteRequest(chosen_endpoints(config).0),
            ),
        ),
        setup_step(vid, pid, SetupState::Requesting { ep_out, ep_in }, SetupEvent::Done) == Some(
            (SetupState::Responding { ep_out }, SetupAction::ReadResponse(ep_in)),
        ),
        len >= 41 && data@[24] != 0 ==> setup_step(
            vid,
            pid,
            SetupState::Responding { ep_out },
            SetupEvent::Response(data, len),
        ) == Some(
            (
                SetupState::Finished,
                SetupAction::Ready(AioScreen { ep_out, pm: data@[24], sub: data@[36] }),
            ),
        ),
        len < 41 || data@[24] == 0 ==> setup_step(
            vid,
            pid,
            SetupState::Responding { ep_out },
            SetupEvent::Response(data, len),
        ) == Some(
            (
                SetupState::Finished,
                SetupAction::Fail(
                    AioError::HandshakeFailed {
                        len,
                        pm: if data@[24] == 0 {
                            None
                        } else {
                            Some(data@[24])
                        },
                    },
                ),
            ),
        ),
{
}

/// A failed operation ends the setup with the USB stack's own words, but for the
/// descriptors, which may be missing; a finished setup takes no answer.
pub proof fn lemma_failures_end_the_setup(
    vid: u16,
    pid: u16,
    state: SetupState,
    text: String,
    event: SetupEvent,
)
    ensures
        setup_step(vid, pid, SetupState::Finished, event) is None,
        setup_step(vid, pid, SetupState::Describing, SetupEvent::Failed(text)) is None,
        !(state is Finished) && !(state is Describing) ==> setup_step(
            vid,
            pid,
            state,
            SetupEvent::Failed(text),
        ) == Some((SetupState::Finished, SetupAction::Fail(AioError::Usb(text)))),
{
}

/// An event moves the setup on exactly if it answers the pending operation.
pub proof fn lemma_only_answers_move_the_setup(
    vid: u16,
    pid: u16,
    state: SetupState,
    event: SetupEvent,
)
    ensures
        setup_step(vid, pid, state, event) is Some <==> match event {
            SetupEvent::Devices(_) => state is Listing,
            SetupEvent::DriverActive(_) => state is Querying,
            SetupEvent::Descriptors(_) => state is Describing,
            SetupEvent::Response(_, _) => state is Responding,
            SetupEvent::Done => state is Opening || state is Detaching || state is Configuring
                || state is Claiming || state is Requesting,
            SetupEvent::Failed(_) => !(state is Finished) && !(state is Describing),
        },
{
}

/// The state of a setup after some answers; an event that is no answer leaves it
/// where it is.
pub open spec fn setup_after(vid: u16, pid: u16, events: Seq<SetupEvent>) -> SetupState
    decreases events.len(),
{
    if events.len() == 0 {
        SetupState::Listing
    } else {
        let before = setup_after(vid, pid, events.drop_last());
        match setup_step(vid, pid, before, events.last()) {
            Some((state, _)) => state,
            None => before,
        }
    }
}

/// Whether the run found interface `i` held by a driver.
pub open spec fn found_held(vid: u16, pid: u16, events: Seq<SetupEvent>, i: u8) -> bool {
    exists|j: int|
        0 <= j < events.len() && setup_after(vid, pid, #[trigger] events.take(j))
            == SetupState::Querying(i) && events[j] == SetupEvent::DriverActive(true)
}

/// Whether the run found interface `i` free, or found it held and had its driver
/// detached.
pub open spec fn released(vid: u16, pid: u16, events: Seq<SetupEvent>, i: u8) -> bool {
    ||| exists|j: int|
        0 <= j < events.len() && setup_after(vid, pid, #[trigger] events.take(j))
            == SetupState::Querying(i) && events[j] == SetupEvent::DriverActive(false)
    ||| found_held(vid, pid, events, i) && exists|j: int|
        0 <= j < events.len() && setup_after(vid, pid, #[trigger] events.take(j))
            == SetupState::Detaching(i) && events[j] is Done
}

proof fn lemma_released_stays(vid: u16, pid: u16, events: Seq<SetupEvent>, i: u8)
    requires
        events.len() > 0,
    ensures
        released(vid, pid, events.drop_last(), i) ==> released(vid, pid, events, i),
        found_held(vid, pid, events.drop_last(), i) ==> found_held(vid, pid, events, i),
{
    let front = events.drop_last();
    assert forall|j: int| 0 <= j < front.len() implies events.take(j) == #[trigger] front.take(
        j,
    ) && events[j] == front[j] by {
        assert(events.take(j) =~= front.take(j));
    }
    if found_held(vid, pid, front, i) {
        let j = choose|j: int|
            0 <= j < front.len() && setup_after(vid, pid, #[trigger] front.take(j))
                == SetupState::Querying(i) && front[j] == SetupEvent::DriverActive(true);
        assert(setup_after(vid, pid, events.take(j)) == SetupState::Querying(i));
    }
    if exists|j: int|
        0 <= j < front.len() && setup_after(vid, pid, #[trigger] front.take(j))
            == SetupState::Querying(i) && front[j] == SetupEvent::DriverActive(false) {
        let j = choose|j: int|
            0 <= j < front.len() && setup_after(vid, pid, #[trigger] front.take(j))
                == SetupState::Querying(i) && front[j] == SetupEvent::DriverActive(false);
        assert(setup_after(vid, pid, events.take(j)) == SetupState::Querying(i));
    } else if released(vid, pid, front, i) {
        let j = choose|j: int|
            0 <= j < front.len() && setup_after(vid, pid, #[trigger] front.take(j))
                == SetupState::Detaching(i) && front[j] is Done;
        assert(setup_after(vid, pid, events.take(j)) == SetupState::Detaching(i));
    }
}

/// Over any run of the setup: when it asks about interface `n`, every interface
/// before it was found free or was detached, and once it gets to the
/// configuration and beyond, all four were.
pub proof fn lemma_all_interfaces_released(vid: u16, pid: u16, events: Seq<SetupEvent>, i: u8)
    ensures
        setup_after(vid, pid, events) matches SetupState::Querying(n) ==> n < 4 && (i < n
            ==> released(vid, pid, events, i)),
        setup_after(vid, pid, events) matches SetupState::Detaching(n) ==> n < 4 && found_held(
            vid,
            pid,
            events,
            n,
        ) && (i < n ==> released(vid, pid, events, i)),
        setup_after(vid, pid, events) is Configuring || setup_after(vid, pid, events) is Claiming
            || setup_after(vid, pid, events) is Describing || setup_after(
            vid,
            pid,
            events,
        ) is Requesting || setup_after(vid, pid, events) is Responding ==> (i < 4 ==> released(
            vid,
            pid,
            events,
            i,
        )),
    decreases events.len(),
{
    if events.len() > 0 {
        let front = events.drop_last();
        let before = setup_after(vid, pid, front);
        let k = events.len() - 1;
        lemma_all_interfaces_released(vid, pid, front, i);
        lemma_released_stays(vid, pid, events, i);
        assert(events.take(k) =~= front);
        assert(events[k] == events.last());
        match before {
            SetupState::Querying(n) => {
                lemma_each_interface_is_released_in_turn(vid, pid, n);
                assert(setup_after(vid, pid, events.take(k)) == SetupState::Querying(n));
                if events.last() == SetupEvent::DriverActive(true) {
                    assert(found_held(vid, pid, events, n));
                }
                if events.last() == SetupEvent::DriverActive(false) {
                    assert(released(vid, pid, events, n));
                }
            },
            SetupState::Detaching(n) => {
                lemma_each_interface_is_released_in_turn(vid, pid, n);
                assert(setup_after(vid, pid, events.take(k)) == SetupState::Detaching(n));
                lemma_released_stays(vid, pid, events, n);
                if events.last() is Done {
                    assert(released(vid, pid, events, n));
                }
            },
            _ => {},
        }
    }
}

// ── Laws of the warnings ────────────────────────────────────────────────

/// What the warnings say.
pub proof fn lemma_warning_texts(vid: u16, pid: u16, found: (u8, u8), w: u16, h: u16)
    ensures
        endpoint_warning_text(vid, pid, found) == "warn: "@ + hex(vid as nat, 4) + ":"@ + hex(
            pid as nat,
            4,
        ) + " — endpoint auto-detection incomplete (OUT=0x"@ + hex(found.0 as nat, 2) + " IN=0x"@
            + hex(found.1 as nat, 2) + "); using defaults"@,
        size_warning_text(w, h) == "warn: JPEG is "@ + decimal(w as nat) + "x"@ + decimal(h as nat)
            + " but the header declares "@ + decimal(480) + "x"@ + decimal(480)
            + " — the panel will paint only the overlap"@,
{
}

/// The numbers of the protocol: ids, geometry, sizes and times.
pub proof fn lemma_protocol_numbers()
    ensures
        AIO_VID == 0x87ad && AIO_PID == 0x70db,
        WIDTH == 480 && HEIGHT == 480,
        HANDSHAKE_SIZE == 64 && HANDSHAKE_READ_SIZE == 1024 && HANDSHAKE_MIN_LEN == 41,
        HANDSHAKE_TIMEOUT_MS == 1000 && WRITE_TIMEOUT_MS == 5000,
        WRITE_CHUNK_SIZE == 16384 && ZLP_ALIGN == 512,
        USB_CONFIGURATION == 1 && USB_INTERFACE == 0 && DETACH_INTERFACES == 4,
{
}

} // verus!
