use retro_aio::error::AioError;
use retro_aio::screen::{
    check_response, detect_endpoints, endpoint_warning, find_device, find_endpoints,
    handshake_request, size_warning, AioScreen, Endpoint, Interface, PanelSetup, Setting,
    SetupAction, SetupEvent, AIO_PID, AIO_VID, HEIGHT, WIDTH,
};

fn ep(address: u8, bulk: bool) -> Endpoint {
    Endpoint { address, bulk }
}

fn interface(number: u8, settings: Vec<(u8, Vec<Endpoint>)>) -> Interface {
    Interface {
        number,
        settings: settings
            .into_iter()
            .map(|(number, endpoints)| Setting { number, endpoints })
            .collect(),
    }
}

fn panel_config() -> Option<Vec<Interface>> {
    Some(vec![
        interface(1, vec![(0, vec![ep(0x05, true), ep(0x85, true)])]),
        interface(
            0,
            vec![
                (1, vec![ep(0x06, true), ep(0x86, true)]),
                (0, vec![ep(0x83, false), ep(0x02, true), ep(0x82, true), ep(0x03, true)]),
            ],
        ),
    ])
}

fn response(pm: u8, sub: u8) -> [u8; 1024] {
    let mut r = [0u8; 1024];
    r[24] = pm;
    r[36] = sub;
    r
}

#[test]
fn panel_constants() {
    assert_eq!((AIO_VID, AIO_PID), (0x87ad, 0x70db));
    assert_eq!((WIDTH, HEIGHT), (480, 480));
}

#[test]
fn request_is_magic_and_command() {
    let req = handshake_request();
    let mut expected = [0u8; 64];
    expected[0..4].copy_from_slice(&[0x78, 0x56, 0x34, 0x12]);
    expected[56] = 1;
    assert_eq!(req, expected);
}

#[test]
fn responses_are_validated() {
    assert!(matches!(check_response(&response(4, 1), 1024), Ok((4, 1))));
    assert!(matches!(check_response(&response(4, 1), 41), Ok((4, 1))));
    assert!(matches!(
        check_response(&response(4, 1), 40),
        Err(AioError::HandshakeFailed { len: 40, pm: Some(4) })
    ));
    assert!(matches!(
        check_response(&response(0, 1), 1024),
        Err(AioError::HandshakeFailed { len: 1024, pm: None })
    ));
}

#[test]
fn endpoints_of_the_default_setting_of_interface_zero() {
    let cfg = panel_config();
    assert_eq!(find_endpoints(&cfg), (0x02, 0x82));
    assert_eq!(detect_endpoints(&cfg), (0x02, 0x82));
    assert!(endpoint_warning(AIO_VID, AIO_PID, &cfg).is_none());
}

#[test]
fn missing_endpoints_fall_back_with_a_warning() {
    assert_eq!(detect_endpoints(&None), (0x01, 0x81));
    assert_eq!(
        endpoint_warning(0x87ad, 0x70db, &None).unwrap(),
        "warn: 87ad:70db — endpoint auto-detection incomplete (OUT=0x00 IN=0x00); using defaults"
    );
    let half = Some(vec![interface(0, vec![(0, vec![ep(0x0a, true)])])]);
    assert_eq!(detect_endpoints(&half), (0x0a, 0x81));
    assert_eq!(
        endpoint_warning(0x87ad, 0x70db, &half).unwrap(),
        "warn: 87ad:70db — endpoint auto-detection incomplete (OUT=0x0a IN=0x00); using defaults"
    );
}

#[test]
fn the_first_matching_device_is_taken() {
    let devices = vec![None, Some((1, 2)), Some((0x87ad, 0x70db)), Some((0x87ad, 0x70db))];
    assert!(matches!(find_device(&devices, 0x87ad, 0x70db), Ok(2)));
    assert!(matches!(
        find_device(&devices, 0x87ad, 1),
        Err(AioError::DeviceNotFound { vid: 0x87ad, pid: 1 })
    ));
}

/// Plays the USB stack: a driver holds interfaces 1 and 3.
fn open(pm: u8, len: usize, fail_at: Option<&str>) -> (Vec<String>, Result<AioScreen, AioError>) {
    let mut setup = PanelSetup::new(AIO_VID, AIO_PID);
    let mut log = Vec::new();
    let mut action = SetupAction::ListDevices;
    loop {
        let name = format!("{action:?}");
        let event = match action {
            SetupAction::ListDevices => {
                SetupEvent::Devices(vec![Some((9, 9)), Some((AIO_VID, AIO_PID))])
            }
            SetupAction::QueryDriver(i) => SetupEvent::DriverActive(i % 2 == 1),
            SetupAction::ReadDescriptors => SetupEvent::Descriptors(panel_config()),
            SetupAction::ReadResponse(_) => SetupEvent::Response(response(pm, 1), len),
            SetupAction::Ready(screen) => return (log, Ok(screen)),
            SetupAction::Fail(e) => return (log, Err(e)),
            _ => SetupEvent::Done,
        };
        let event = if fail_at == Some(name.as_str()) {
            SetupEvent::Failed("Pipe error".to_string())
        } else {
            event
        };
        log.push(name);
        action = setup.step(event).expect("the event answers the action");
    }
}

#[test]
fn the_opening_sequence() {
    let (log, screen) = open(4, 1024, None);
    assert_eq!(
        log,
        vec![
            "ListDevices",
            "OpenDevice(1)",
            "QueryDriver(0)",
            "QueryDriver(1)",
            "DetachDriver(1)",
            "QueryDriver(2)",
            "QueryDriver(3)",
            "DetachDriver(3)",
            "SetConfiguration(1)",
            "ClaimInterface(0)",
            "ReadDescriptors",
            "WriteRequest(2)",
            "ReadResponse(130)",
        ]
    );
    let screen = screen.unwrap();
    assert_eq!((screen.ep_out, screen.pm(), screen.sub()), (2, 4, 1));
}

#[test]
fn a_failed_operation_ends_the_sequence() {
    for step in [
        "ListDevices",
        "OpenDevice(1)",
        "QueryDriver(2)",
        "DetachDriver(1)",
        "SetConfiguration(1)",
        "ClaimInterface(0)",
        "WriteRequest(2)",
        "ReadResponse(130)",
    ] {
        let (log, screen) = open(4, 1024, Some(step));
        assert_eq!(log.last().unwrap(), step);
        assert!(matches!(screen, Err(AioError::Usb(t)) if t == "Pipe error"));
    }
    let (_, screen) = open(0, 1024, None);
    assert!(matches!(screen, Err(AioError::HandshakeFailed { len: 1024, pm: None })));
    let (_, screen) = open(4, 8, None);
    assert!(matches!(screen, Err(AioError::HandshakeFailed { len: 8, pm: Some(4) })));
}

#[test]
fn an_event_that_answers_nothing_changes_nothing() {
    let mut setup = PanelSetup::new(1, 2);
    assert!(setup.step(SetupEvent::Done).is_none());
    assert!(setup.step(SetupEvent::DriverActive(true)).is_none());
    assert!(matches!(
        setup.step(SetupEvent::Devices(vec![])),
        Some(SetupAction::Fail(AioError::DeviceNotFound { vid: 1, pid: 2 }))
    ));
    assert!(setup.step(SetupEvent::Devices(vec![])).is_none());
}

#[test]
fn unreadable_descriptors_use_the_default_endpoints() {
    let mut setup = PanelSetup::new(AIO_VID, AIO_PID);
    setup.step(SetupEvent::Devices(vec![Some((AIO_VID, AIO_PID))]));
    setup.step(SetupEvent::Done);
    for _ in 0..4 {
        setup.step(SetupEvent::DriverActive(false));
    }
    setup.step(SetupEvent::Done);
    assert!(matches!(setup.step(SetupEvent::Done), Some(SetupAction::ReadDescriptors)));
    assert!(setup.step(SetupEvent::Failed("x".to_string())).is_none());
    assert!(matches!(
        setup.step(SetupEvent::Descriptors(None)),
        Some(SetupAction::WriteRequest(0x01))
    ));
    assert!(matches!(setup.step(SetupEvent::Done), Some(SetupAction::ReadResponse(0x81))));
}

fn payload(n: usize) -> Vec<u8> {
    let mut v: Vec<u8> = (0..n).map(|i| (i * 7) as u8).collect();
    v[0] = 0xff;
    v[1] = 0xd8;
    v
}

fn panel() -> AioScreen {
    AioScreen { ep_out: 2, pm: 4, sub: 1 }
}

#[test]
fn frames_have_the_panel_header() {
    let jpeg = payload(1000);
    let t = panel().send_frame(&jpeg).unwrap();
    let f = t.frame();
    assert_eq!(f.len(), 1064);
    assert_eq!(&f[0..4], &[0x78, 0x56, 0x34, 0x12]);
    assert_eq!(&f[0..4], &0x1234_5678u32.to_le_bytes());
    assert_eq!(&f[4..8], &2u32.to_le_bytes());
    assert_eq!(&f[8..12], &480u32.to_le_bytes());
    assert_eq!(&f[12..16], &480u32.to_le_bytes());
    assert!(f[16..56].iter().all(|b| *b == 0));
    assert_eq!(&f[56..60], &2u32.to_le_bytes());
    assert_eq!(&f[60..64], &1000u32.to_le_bytes());
    assert_eq!(&f[64..], &jpeg[..]);
}

fn writes(n: usize) -> Vec<usize> {
    let jpeg = payload(n);
    let mut t = panel().send_frame(&jpeg).unwrap();
    let mut sizes = Vec::new();
    let mut sent = Vec::new();
    while let Some((a, b)) = t.next() {
        sizes.push(b - a);
        sent.extend_from_slice(&t.frame()[a..b]);
        t.wrote(b - a).unwrap();
    }
    assert_eq!(&sent[..], t.frame());
    sizes
}

#[test]
fn frames_go_out_in_chunks() {
    assert_eq!(writes(1000), vec![1064]);
    assert_eq!(writes(16384), vec![16384, 64]);
    assert_eq!(writes(40_000), vec![16384, 16384, 7296]);
}

#[test]
fn aligned_frames_end_with_an_empty_packet() {
    assert_eq!(writes(512 - 64), vec![512, 0]);
    assert_eq!(writes(16384 - 64), vec![16384, 0]);
    assert_eq!(writes(512 - 63), vec![513]);
}

#[test]
fn short_writes_are_errors() {
    let jpeg = payload(20_000);
    let mut t = panel().send_frame(&jpeg).unwrap();
    assert_eq!(t.next(), Some((0, 16384)));
    t.wrote(16384).unwrap();
    assert!(matches!(
        t.wrote(3679),
        Err(AioError::ShortWrite { offset: 16384, wrote: 3679, expected: 3680 })
    ));
    assert_eq!(t.next(), Some((16384, 20_064)));
    t.wrote(3680).unwrap();
    assert_eq!(t.next(), None);
}

#[test]
fn only_jpeg_streams_are_sent() {
    for bad in [&b""[..], &[0xff, 0xd8, 0xff][..], &b"BM000000"[..]] {
        assert!(matches!(
            panel().send_frame(bad),
            Err(AioError::NotJpeg { len }) if len == bad.len()
        ));
    }
}

#[test]
fn a_wrong_size_is_warned_about() {
    let mut jpeg = vec![0xff, 0xd8, 0xff, 0xc0, 0, 17, 8, 0, 240, 1, 64, 3];
    jpeg.extend_from_slice(&[0; 9]);
    assert_eq!(
        size_warning(&jpeg).unwrap(),
        "warn: JPEG is 320x240 but the header declares 480x480 — the panel will paint only the overlap"
    );
    jpeg[7] = 1;
    jpeg[8] = 0xe0;
    jpeg[9] = 1;
    jpeg[10] = 0xe0;
    assert!(size_warning(&jpeg).is_none());
    assert!(size_warning(&payload(100)).is_none());
}
