//! Errors from finding, opening, or talking to the panel.

use vstd::prelude::*;

use crate::text::{decimal, hex, push_decimal, push_hex};

verus! {

/// Errors from finding, opening, or talking to the panel.
#[derive(Debug)]
pub enum AioError {
    /// The device is not present on the USB bus.
    DeviceNotFound { vid: u16, pid: u16 },
    /// The panel answered the handshake but the response failed validation.
    HandshakeFailed { len: usize, pm: Option<u8> },
    /// A bulk write transferred fewer bytes than requested.
    ShortWrite { offset: usize, wrote: usize, expected: usize },
    /// The payload is not a JPEG stream (missing `FF D8` start marker).
    NotJpeg { len: usize },
    /// A USB transfer failed; the USB stack's own description.
    Usb(String),
}

/// An optional byte, as debug output shows it.
pub open spec fn option_text(pm: Option<u8>) -> Seq<char> {
    match pm {
        Some(b) => "Some("@ + decimal(b as nat) + ")"@,
        None => "None"@,
    }
}

impl AioError {
    /// The message shown to the user.
    pub open spec fn text(&self) -> Seq<char> {
        match self {
            AioError::DeviceNotFound { vid, pid } => "USB device "@ + hex(*vid as nat, 4) + ":"@
                + hex(*pid as nat, 4)
                + " not found — check the cable, power and that no other process holds the panel"@,
            AioError::HandshakeFailed { len, pm } => "panel handshake failed (response "@ + decimal(
                *len as nat,
            ) + " bytes, PM="@ + option_text(*pm)
                + ") — the device answered but did not pass validation"@,
            AioError::ShortWrite { offset, wrote, expected } => "short bulk write at offset "@
                + decimal(*offset as nat) + ": "@ + decimal(*wrote as nat) + "/"@ + decimal(
                *expected as nat,
            ) + " bytes transferred"@,
            AioError::NotJpeg { len } => "payload is "@ + decimal(*len as nat)
                + " bytes but is not a JPEG stream (no FF D8 start-of-image marker) — this PM=4 panel requires JPEG (cmd=2)"@,
            AioError::Usb(e) => "USB transfer failed: "@ + e@,
        }
    }

    /// The message shown to the user.
    pub fn message(&self) -> (r: String)
        ensures
            r@ == self.text(),
    {
        let mut out = String::new();
        match self {
            AioError::DeviceNotFound { vid, pid } => {
                out.append("USB device ");
                push_hex(&mut out, *vid as u64, 4);
                out.append(":");
                push_hex(&mut out, *pid as u64, 4);
                out.append(
                    " not found — check the cable, power and that no other process holds the panel",
                );
            },
            AioError::HandshakeFailed { len, pm } => {
                out.append("panel handshake failed (response ");
                push_decimal(&mut out, *len as u128);
                out.append(" bytes, PM=");
                let ghost before = out@;
                match pm {
                    Some(b) => {
                        out.append("Some(");
                        push_decimal(&mut out, *b as u128);
                        out.append(")");
                    },
                    None => {
                        out.append("None");
                    },
                }
                assert(out@ =~= before + option_text(*pm));
                out.append(") — the device answered but did not pass validation");
            },
            AioError::ShortWrite { offset, wrote, expected } => {
                out.append("short bulk write at offset ");
                push_decimal(&mut out, *offset as u128);
                out.append(": ");
                push_decimal(&mut out, *wrote as u128);
                out.append("/");
                push_decimal(&mut out, *expected as u128);
                out.append(" bytes transferred");
            },
            AioError::NotJpeg { len } => {
                out.append("payload is ");
                push_decimal(&mut out, *len as u128);
                out.append(
                    " bytes but is not a JPEG stream (no FF D8 start-of-image marker) — this PM=4 panel requires JPEG (cmd=2)",
                );
            },
            AioError::Usb(e) => {
                out.append("USB transfer failed: ");
                out.append(e.as_str());
            },
        }
        assert(out@ =~= self.text());
        out
    }
}

/// What each error says.
pub proof fn lemma_error_texts(
    vid: u16,
    pid: u16,
    len: usize,
    pm: u8,
    offset: usize,
    wrote: usize,
    expected: usize,
    e: String,
)
    ensures
        (AioError::DeviceNotFound { vid, pid }).text() == "USB device "@ + hex(vid as nat, 4)
            + ":"@ + hex(pid as nat, 4)
            + " not found — check the cable, power and that no other process holds the panel"@,
        (AioError::HandshakeFailed { len, pm: Some(pm) }).text()
            == "panel handshake failed (response "@ + decimal(len as nat) + " bytes, PM="@ + (
        "Some("@ + decimal(pm as nat) + ")"@)
            + ") — the device answered but did not pass validation"@,
        (AioError::HandshakeFailed { len, pm: None }).text()
            == "panel handshake failed (response "@ + decimal(len as nat) + " bytes, PM="@
            + "None"@ + ") — the device answered but did not pass validation"@,
        (AioError::ShortWrite { offset, wrote, expected }).text() == "short bulk write at offset "@
            + decimal(offset as nat) + ": "@ + decimal(wrote as nat) + "/"@ + decimal(
            expected as nat,
        ) + " bytes transferred"@,
        (AioError::NotJpeg { len }).text() == "payload is "@ + decimal(len as nat)
            + " bytes but is not a JPEG stream (no FF D8 start-of-image marker) — this PM=4 panel requires JPEG (cmd=2)"@,
        AioError::Usb(e).text() == "USB transfer failed: "@ + e@,
{
}

} // verus!
