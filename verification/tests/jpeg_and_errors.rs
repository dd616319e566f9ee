use retro_aio::error::AioError;
use retro_aio::jpeg::{has_start_of_image, jpeg_dimensions};

fn sof(marker: u8, w: u16, h: u16) -> Vec<u8> {
    let mut v = vec![0xff, marker, 0, 17, 8];
    v.extend_from_slice(&h.to_be_bytes());
    v.extend_from_slice(&w.to_be_bytes());
    v.extend_from_slice(&[3, 1, 0x11, 0, 2, 0x11, 1, 3, 0x11, 1]);
    v
}

fn stream(parts: &[Vec<u8>]) -> Vec<u8> {
    let mut v = vec![0xff, 0xd8];
    for p in parts {
        v.extend_from_slice(p);
    }
    v
}

#[test]
fn size_comes_from_the_frame_header() {
    let app0 = vec![0xff, 0xe0, 0, 4, 1, 2];
    let data = stream(&[app0.clone(), sof(0xc0, 320, 240)]);
    assert_eq!(jpeg_dimensions(&data), Some((320, 240)));
    let mut longer = data.clone();
    longer.extend_from_slice(&[0xff, 0xc0, 9, 9, 9, 9, 9, 9, 9, 9, 9, 9]);
    assert_eq!(jpeg_dimensions(&longer), Some((320, 240)));
}

#[test]
fn huffman_and_extension_segments_are_no_frames() {
    for m in [0xc4u8, 0xc8, 0xcc] {
        let data = stream(&[sof(m, 1, 1), sof(0xc2, 480, 480)]);
        assert_eq!(jpeg_dimensions(&data), Some((480, 480)), "{m:x}");
    }
}

#[test]
fn standalone_markers_and_fill_bytes_are_skipped() {
    let data = stream(&[vec![0xff, 0xd0, 0xff, 0x01, 7, 7, 0xff, 0xd8], sof(0xc1, 640, 480)]);
    assert_eq!(jpeg_dimensions(&data), Some((640, 480)));
}

#[test]
fn streams_without_a_size() {
    assert_eq!(jpeg_dimensions(&[]), None);
    assert_eq!(jpeg_dimensions(&[0xff, 0xd8, 0xff]), None);
    assert_eq!(jpeg_dimensions(b"\x89PNG\r\n\x1a\n0000000000"), None);
    assert_eq!(jpeg_dimensions(&[0xff, 0xd8, 0xff, 0xe0, 0xff, 0xff, 0, 0, 0, 0, 0, 0, 0]), None);
    assert!(has_start_of_image(&[0xff, 0xd8, 0, 0]));
    assert!(!has_start_of_image(&[0xff, 0xd8, 0]));
    assert!(!has_start_of_image(&[0xff, 0xd9, 0, 0]));
}

#[test]
fn every_error_has_its_message() {
    assert_eq!(
        AioError::DeviceNotFound { vid: 0x87ad, pid: 0x00db }.message(),
        "USB device 87ad:00db not found — check the cable, power and that no other process holds the panel"
    );
    assert_eq!(
        AioError::HandshakeFailed { len: 12, pm: None }.message(),
        "panel handshake failed (response 12 bytes, PM=None) — the device answered but did not pass validation"
    );
    assert_eq!(
        AioError::HandshakeFailed { len: 40, pm: Some(4) }.message(),
        "panel handshake failed (response 40 bytes, PM=Some(4)) — the device answered but did not pass validation"
    );
    assert_eq!(
        AioError::ShortWrite { offset: 16384, wrote: 10, expected: 512 }.message(),
        "short bulk write at offset 16384: 10/512 bytes transferred"
    );
    assert_eq!(
        AioError::NotJpeg { len: 3 }.message(),
        "payload is 3 bytes but is not a JPEG stream (no FF D8 start-of-image marker) — this PM=4 panel requires JPEG (cmd=2)"
    );
    assert_eq!(
        AioError::Usb("Operation timed out".to_string()).message(),
        "USB transfer failed: Operation timed out"
    );
}
