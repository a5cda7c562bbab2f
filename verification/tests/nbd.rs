use ftwdb::nbd::{
    accept_client, check_option_magic, greeting, negotiate, option_head, parse_info_request, request_header,
    simple_reply, still_there, transmission_flags, transmission_reply, unsupported_command,
    AfterOption, Command, DeviceInfo, NBD_CMD_DISC, NBD_CMD_FLUSH, NBD_CMD_READ, NBD_CMD_WRITE,
    NBD_MAGIC, NBD_OPTIONS_MAGIC, NBD_OPTION_REPLY_MAGIC, NBD_OPT_ABORT, NBD_OPT_EXPORT_NAME,
    NBD_OPT_GO, NBD_OPT_LIST, NBD_REP_ACK, NBD_REP_ERR_UNSUP, NBD_REQUEST_MAGIC,
    NBD_SIMPLE_REPLY_MAGIC,
};
use ftwdb::sd_card::{BackingStep, CardAction, DeviceError, DeviceStatus, ErrorCode, SdCard};
use ftwdb::sd_profile::{
    CacheProfile, DeviceProfile, FaultProfile, IoProfile, Profile, WearProfile,
};

const EXPORT_NAME: &[u8] = b"ftw-sd";

fn profile() -> Profile {
    let io = IoProfile {
        bandwidth_bytes_per_second: 0,
        iops: 0,
        base_latency_us: 0,
        jitter_latency_us: 0,
        spike_probability_ppm: 0,
        spike_latency_us_min: 0,
        spike_latency_us_max: 0,
    };
    Profile {
        schema_version: 1,
        name: "nbd-test".to_owned(),
        device: DeviceProfile {
            size_bytes: 64 * 1024,
            logical_block_bytes: 512,
            erase_block_bytes: 4096,
        },
        read: io,
        write: io,
        cache: CacheProfile {
            enabled: true,
            max_bytes: 4096,
            false_flush_probability_ppm: 0,
            power_loss_persist_probability_ppm: 0,
            power_loss_torn_probability_ppm: 0,
            power_loss_reorder_probability_ppm: 0,
        },
        wear: WearProfile {
            enabled: false,
            accelerated_factor: 1,
            warning_cycles: 100,
            failure_cycles: 200,
            worn_eio_probability_ppm: 0,
            read_only_after_bad_blocks: 0,
        },
        faults: FaultProfile {
            eio_probability_ppm: 0,
            torn_write_probability_ppm: 0,
            silent_corruption_probability_ppm: 0,
            power_loss_after_ops: None,
            read_only_after_ops: None,
            disappear_after_ops: None,
        },
    }
}

fn info(card: &SdCard) -> DeviceInfo {
    DeviceInfo {
        size: card.size(),
        logical_block_bytes: card.logical_block_bytes(),
        status: card.status(),
        generation: card.generation(),
    }
}

fn request(cookie: u64, command: u16, flags: u16, offset: u64, length: u32) -> Vec<u8> {
    let mut head = NBD_REQUEST_MAGIC.to_be_bytes().to_vec();
    head.extend_from_slice(&flags.to_be_bytes());
    head.extend_from_slice(&command.to_be_bytes());
    head.extend_from_slice(&cookie.to_be_bytes());
    head.extend_from_slice(&offset.to_be_bytes());
    head.extend_from_slice(&length.to_be_bytes());
    head
}

fn carry_out(action: CardAction, raw: &mut [u8]) -> Result<(), DeviceError> {
    for step in action.steps {
        if let BackingStep::Write(write) = step {
            let at = write.offset as usize;
            raw[at..at + write.data.len()].copy_from_slice(&write.data);
        }
    }
    action.outcome
}

/// What a server answers to one request, or nothing where it closes the connection.
fn serve(card: &mut SdCard, raw: &mut [u8], head: &[u8], data: &[u8]) -> Option<Vec<u8>> {
    let header = request_header(head).unwrap();
    assert_eq!(header.data_length(), data.len());
    let outcome = match header.command() {
        Command::Disconnect => return None,
        Command::Read => {
            let action = card.begin_read(header.offset, header.length);
            carry_out(action, raw).map(|()| {
                let at = header.offset as usize;
                card.finish_read(header.offset, raw[at..at + header.length].to_vec())
            })
        },
        Command::Write { fua } => {
            let action = card.write(header.offset, data.to_vec(), fua);
            carry_out(action, raw).map(|()| Vec::new())
        },
        Command::Flush => {
            let action = card.flush();
            carry_out(action, raw).map(|()| Vec::new())
        },
        Command::Unsupported => Err(unsupported_command()),
    };
    transmission_reply(header.cookie, &outcome)
}

fn success(cookie: u64, data: &[u8]) -> Vec<u8> {
    let mut reply = NBD_SIMPLE_REPLY_MAGIC.to_be_bytes().to_vec();
    reply.extend_from_slice(&0_u32.to_be_bytes());
    reply.extend_from_slice(&cookie.to_be_bytes());
    reply.extend_from_slice(data);
    reply
}

#[test]
fn fixed_newstyle_client_can_write_flush_and_read() {
    let mut card = SdCard::open(profile(), 42, 0).unwrap();
    let mut raw = vec![0; 64 * 1024];

    let hello = greeting();
    assert_eq!(hello[..8], NBD_MAGIC.to_be_bytes());
    assert_eq!(hello[8..16], NBD_OPTIONS_MAGIC.to_be_bytes());
    assert_eq!(hello.len(), 18);
    let no_zeroes = accept_client(3).unwrap();
    assert!(no_zeroes);

    let mut head = NBD_OPTIONS_MAGIC.to_be_bytes().to_vec();
    head.extend_from_slice(&NBD_OPT_EXPORT_NAME.to_be_bytes());
    head.extend_from_slice(&(EXPORT_NAME.len() as u32).to_be_bytes());
    let option = option_head(&head).unwrap();
    assert_eq!(option.length, EXPORT_NAME.len());
    let answer = negotiate(no_zeroes, option.option, EXPORT_NAME, &info(&card)).unwrap();
    assert_eq!(answer.reply[..8], (64 * 1024_u64).to_be_bytes());
    assert_eq!(answer.reply.len(), 10);
    assert_eq!(answer.after, AfterOption::Transmit(card.generation()));

    let head = request(1, NBD_CMD_WRITE, 0, 4096, 4);
    assert_eq!(serve(&mut card, &mut raw, &head, &[1, 2, 3, 4]), Some(success(1, &[])));
    let head = request(2, NBD_CMD_FLUSH, 0, 0, 0);
    assert_eq!(serve(&mut card, &mut raw, &head, &[]), Some(success(2, &[])));
    let head = request(3, NBD_CMD_READ, 0, 4096, 4);
    assert_eq!(serve(&mut card, &mut raw, &head, &[]), Some(success(3, &[1, 2, 3, 4])));
    let head = request(4, NBD_CMD_DISC, 0, 0, 0);
    assert_eq!(serve(&mut card, &mut raw, &head, &[]), None);
}

#[test]
fn unknown_requests_are_answered_with_an_error() {
    let mut card = SdCard::open(profile(), 42, 0).unwrap();
    let mut raw = vec![0; 64 * 1024];
    let head = request(9, 77, 0, 0, 0);
    let reply = serve(&mut card, &mut raw, &head, &[]).unwrap();
    assert_eq!(reply, simple_reply(9, unsupported_command().code.errno(), &[]));
    let head = request(9, NBD_CMD_READ, 0, 64 * 1024, 1);
    let reply = serve(&mut card, &mut raw, &head, &[]).unwrap();
    assert_eq!(reply[4..8], ErrorCode::NoSpace.errno().to_be_bytes());
    assert_eq!(
        transmission_reply(1, &Err(DeviceError::from_code(ErrorCode::Disconnected, "gone"))),
        None
    );
}

#[test]
fn malformed_heads_are_refused() {
    assert_eq!(request_header(&[0; 28]), Err("invalid NBD request magic"));
    let head = request(1, NBD_CMD_WRITE, 0, 0, 33_554_433);
    assert_eq!(request_header(&head), Err("NBD request is too large"));
    assert!(option_head(&[0; 16]).is_err());
    assert!(accept_client(0).is_err());
    assert!(accept_client(8).is_err());
    assert_eq!(accept_client(1), Ok(false));
}

#[test]
fn options_begin_with_their_magic() {
    assert_eq!(check_option_magic(&0x4948_4156_454f_5054_u64.to_be_bytes()), Ok(()));
    assert_eq!(check_option_magic(&[0; 8]), Err("invalid NBD option magic"));
}

#[test]
fn options_are_negotiated() {
    let card = SdCard::open(profile(), 42, 0).unwrap();
    let device = info(&card);
    let abort = negotiate(true, NBD_OPT_ABORT, &[], &device).unwrap();
    assert_eq!(abort.after, AfterOption::Close);
    assert_eq!(abort.reply[..8], NBD_OPTION_REPLY_MAGIC.to_be_bytes());
    assert_eq!(abort.reply[12..16], NBD_REP_ACK.to_be_bytes());
    let unknown = negotiate(true, 99, &[], &device).unwrap();
    assert_eq!(unknown.after, AfterOption::Negotiate);
    assert_eq!(unknown.reply[12..16], NBD_REP_ERR_UNSUP.to_be_bytes());
    let list = negotiate(true, NBD_OPT_LIST, &[], &device).unwrap();
    assert!(list.reply.windows(EXPORT_NAME.len()).any(|part| part == EXPORT_NAME));
    assert!(negotiate(true, NBD_OPT_EXPORT_NAME, b"other", &device).is_err());

    let mut go = (EXPORT_NAME.len() as u32).to_be_bytes().to_vec();
    go.extend_from_slice(EXPORT_NAME);
    go.extend_from_slice(&1_u16.to_be_bytes());
    go.extend_from_slice(&3_u16.to_be_bytes());
    let parsed = parse_info_request(&go).unwrap();
    assert_eq!((parsed.name.as_slice(), parsed.information), (EXPORT_NAME, vec![3]));
    let answer = negotiate(true, NBD_OPT_GO, &go, &device).unwrap();
    assert_eq!(answer.after, AfterOption::Transmit(device.generation));
    assert!(parse_info_request(&[0, 0]).is_none());
}

#[test]
fn a_device_that_changed_is_no_longer_there() {
    let mut card = SdCard::open(profile(), 42, 0).unwrap();
    let generation = card.generation();
    assert!(still_there(&info(&card), generation));
    let online = transmission_flags(card.status());
    card.set_read_only(true);
    assert!(!still_there(&info(&card), generation));
    assert_ne!(transmission_flags(DeviceStatus::ReadOnly), online);
}
