//! The network block device protocol: the handshake, its options, and requests.
//!
//! Whoever holds the connection reads and sends the bytes.
use crate::bytes::{bytes_equal, put_be, put_bytes, read_be};
#[allow(unused_imports)]
use crate::bytes::{be, from_be};
use crate::sd_card::{DeviceError, DeviceStatus, ErrorCode};
#[allow(unused_imports)]
use crate::sd_card::{errno_of, DeviceFault};
use vstd::prelude::*;
use vstd::string::*;
use vstd::utf8::*;

verus! {

pub const NBD_MAGIC: u64 = 0x4e42_444d_4147_4943;

pub const NBD_OPTIONS_MAGIC: u64 = 0x4948_4156_454f_5054;

pub const NBD_OPTION_REPLY_MAGIC: u64 = 0x0003_e889_0455_65a9;

pub const NBD_REQUEST_MAGIC: u32 = 0x2560_9513;

pub const NBD_SIMPLE_REPLY_MAGIC: u32 = 0x6744_6698;

pub const NBD_OPT_EXPORT_NAME: u32 = 1;

pub const NBD_OPT_ABORT: u32 = 2;

pub const NBD_OPT_LIST: u32 = 3;

pub const NBD_OPT_INFO: u32 = 6;

pub const NBD_OPT_GO: u32 = 7;

pub const NBD_REP_ACK: u32 = 1;

pub const NBD_REP_SERVER: u32 = 2;

pub const NBD_REP_INFO: u32 = 3;

pub const NBD_REP_ERR_UNSUP: u32 = 0x8000_0001;

pub const NBD_REP_ERR_INVALID: u32 = 0x8000_0003;

pub const NBD_REP_ERR_UNKNOWN: u32 = 0x8000_0006;

pub const NBD_INFO_BLOCK_SIZE: u16 = 3;

pub const NBD_CMD_READ: u16 = 0;

pub const NBD_CMD_WRITE: u16 = 1;

pub const NBD_CMD_DISC: u16 = 2;

pub const NBD_CMD_FLUSH: u16 = 3;

pub const MAX_OPTION_BYTES: usize = 1_048_576;

pub const MAX_REQUEST_BYTES: usize = 33_554_432;

/// The bytes of a text.
pub open spec fn bytes_of(text: Seq<char>) -> Seq<u8> {
    encode_utf8(text)
}

/// The name of the only export.
pub open spec fn export_name() -> Seq<u8> {
    bytes_of("ftw-sd"@)
}

/// What a server sends first: it speaks the fixed newstyle and can leave out the
/// zeroes behind an export.
pub open spec fn greeting_bytes() -> Seq<u8> {
    be(NBD_MAGIC as nat, 8) + be(NBD_OPTIONS_MAGIC as nat, 8) + be(3, 2)
}

/// What a server sends first.
pub fn greeting() -> (out: Vec<u8>)
    ensures
        out@ == greeting_bytes(),
{
    let mut out: Vec<u8> = Vec::new();
    put_be(&mut out, NBD_MAGIC as u128, 8);
    put_be(&mut out, NBD_OPTIONS_MAGIC as u128, 8);
    put_be(&mut out, 3, 2);
    assert(out@ =~= greeting_bytes());
    out
}

/// Whether a client does without the zeroes behind an export. A client has to speak
/// the fixed newstyle and may ask for nothing that is unknown.
pub fn accept_client(flags: u32) -> (no_zeroes: Result<bool, &'static str>)
    ensures
        no_zeroes == if flags == 1 {
            Ok::<bool, &'static str>(false)
        } else if flags == 3 {
            Ok::<bool, &'static str>(true)
        } else {
            Err::<bool, &'static str>("unsupported client handshake flags")
        },
{
    if flags == 1 {
        Ok(false)
    } else if flags == 3 {
        Ok(true)
    } else {
        Err("unsupported client handshake flags")
    }
}

/// The head of an option.
#[derive(Clone, Copy, Debug, PartialEq, Eq, Structural)]
pub struct OptionHead {
    pub option: u32,
    pub length: usize,
}

/// What the head of an option says.
pub open spec fn option_head_of(head: Seq<u8>) -> Result<OptionHead, &'static str> {
    if from_be(head.subrange(0, 8)) != NBD_OPTIONS_MAGIC {
        Err("invalid NBD option magic")
    } else if from_be(head.subrange(12, 16)) > 1_048_576 {
        Err("NBD option is too large")
    } else {
        Ok(
            OptionHead {
                option: from_be(head.subrange(8, 12)) as u32,
                length: from_be(head.subrange(12, 16)) as usize,
            },
        )
    }
}

/// Whether an option begins as it must. Nothing behind it is read where it does not.
pub fn check_option_magic(magic: &[u8]) -> (out: Result<(), &'static str>)
    requires
        magic@.len() == 8,
    ensures
        if from_be(magic@) == NBD_OPTIONS_MAGIC {
            out is Ok
        } else {
            out == Err::<(), &'static str>("invalid NBD option magic")
        },
{
    assert(magic@.subrange(0, 8) =~= magic@);
    if read_be(magic, 0, 8) != NBD_OPTIONS_MAGIC as u128 {
        return Err("invalid NBD option magic");
    }
    Ok(())
}

/// Reads the head of an option.
pub fn option_head(head: &[u8]) -> (out: Result<OptionHead, &'static str>)
    requires
        head@.len() == 16,
    ensures
        out == option_head_of(head@),
{
    if read_be(head, 0, 8) != NBD_OPTIONS_MAGIC as u128 {
        return Err("invalid NBD option magic");
    }
    let option: u32 = read_be(head, 8, 4) as u32;
    let length: u128 = read_be(head, 12, 4);
    if length > MAX_OPTION_BYTES as u128 {
        return Err("NBD option is too large");
    }
    Ok(OptionHead { option, length: length as usize })
}

/// What a client is told of the device.
#[derive(Clone, Copy, Debug, PartialEq, Eq, Structural)]
pub struct DeviceInfo {
    pub size: u64,
    pub logical_block_bytes: u64,
    pub status: DeviceStatus,
    pub generation: u64,
}

/// The flags of an export: it has flags, takes flushes and forced writes, and may be
/// read-only.
pub open spec fn flags_of(status: DeviceStatus) -> u16 {
    if status == DeviceStatus::ReadOnly {
        15
    } else {
        13
    }
}

/// The flags of an export.
pub fn transmission_flags(status: DeviceStatus) -> (flags: u16)
    ensures
        flags == flags_of(status),
{
    if status == DeviceStatus::ReadOnly {
        15
    } else {
        13
    }
}

/// A reply to an option.
pub open spec fn option_reply_bytes(option: u32, kind: u32, data: Seq<u8>) -> Seq<u8> {
    be(NBD_OPTION_REPLY_MAGIC as nat, 8) + be(option as nat, 4) + be(kind as nat, 4) + be(
        data.len(),
        4,
    ) + data
}

fn option_reply(out: &mut Vec<u8>, option: u32, kind: u32, data: &[u8])
    ensures
        final(out)@ == old(out)@ + option_reply_bytes(option, kind, data@),
{
    put_be(out, NBD_OPTION_REPLY_MAGIC as u128, 8);
    put_be(out, option as u128, 4);
    put_be(out, kind as u128, 4);
    put_be(out, data.len() as u128, 4);
    put_bytes(out, data);
    assert(out@ =~= old(out)@ + option_reply_bytes(option, kind, data@));
}

/// Whether a client asks for the only export, by its name or as the default.
pub open spec fn names_export(name: Seq<u8>) -> bool {
    name.len() == 0 || name == export_name()
}

fn valid_export_name(name: &[u8]) -> (yes: bool)
    ensures
        yes == names_export(name@),
{
    name.len() == 0 || bytes_equal(name, "ftw-sd".as_bytes())
}

/// What a client asks about an export.
pub struct InfoModel {
    pub name: Seq<u8>,
    pub information: Seq<u16>,
}

/// What an information request says, if it is well formed.
pub open spec fn info_request_of(data: Seq<u8>) -> Option<InfoModel> {
    if data.len() < 6 {
        None
    } else {
        let n = from_be(data.subrange(0, 4)) as int;
        if 6 + n > data.len() {
            None
        } else {
            let count = from_be(data.subrange(4 + n, 6 + n));
            if 6 + n + 2 * count != data.len() {
                None
            } else {
                Some(
                    InfoModel {
                        name: data.subrange(4, 4 + n),
                        information: Seq::new(
                            count,
                            |i: int|
                                from_be(data.subrange(6 + n + 2 * i, 8 + n + 2 * i)) as u16,
                        ),
                    },
                )
            }
        }
    }
}

/// What a client asks about an export.
#[derive(Debug)]
pub struct InfoRequest {
    pub name: Vec<u8>,
    pub information: Vec<u16>,
}

/// Reads an information request.
#[verifier::loop_isolation(false)]
pub fn parse_info_request(data: &[u8]) -> (request: Option<InfoRequest>)
    ensures
        match info_request_of(data@) {
            Some(model) => request matches Some(r) && r.name@ == model.name && r.information@
                == model.information,
            None => request is None,
        },
{
    let total: usize = data.len();
    if total < 6 {
        return None;
    }
    proof {
        crate::bytes::lemma_pow256_values();
    }
    let name_length: u128 = read_be(data, 0, 4);
    if 6 + name_length > total as u128 {
        return None;
    }
    let n: usize = name_length as usize;
    let count: u128 = read_be(data, 4 + n, 2);
    if 6 + name_length + 2 * count != total as u128 {
        return None;
    }
    let mut name: Vec<u8> = Vec::new();
    put_bytes(&mut name, &data[4..4 + n]);
    assert(name@ =~= data@.subrange(4, 4 + n));
    let ghost model = info_request_of(data@)->Some_0;
    let wanted: usize = count as usize;
    let mut information: Vec<u16> = Vec::new();
    let mut i: usize = 0;
    while i < wanted
        invariant
            i <= wanted,
            6 + n + 2 * wanted == total,
            information@.len() == i,
            forall|k: int| 0 <= k < i ==> #[trigger] information@[k] == model.information[k],
        decreases wanted - i,
    {
        let value: u16 = read_be(data, 6 + n + 2 * i, 2) as u16;
        information.push(value);
        assert(value == model.information[i as int]);
        i = i + 1;
    }
    assert(information@ =~= model.information);
    Some(InfoRequest { name, information })
}

/// What an export is described with.
pub open spec fn export_info(device: DeviceInfo) -> Seq<u8> {
    be(0, 2) + be(device.size as nat, 8) + be(flags_of(device.status) as nat, 2)
}

/// The block size that a client does best to use.
pub open spec fn preferred_block(device: DeviceInfo) -> u32 {
    if 4096 < device.logical_block_bytes <= u32::MAX {
        device.logical_block_bytes as u32
    } else {
        4096
    }
}

/// What the block sizes of an export are described with.
pub open spec fn block_info(device: DeviceInfo) -> Seq<u8> {
    be(3, 2) + be(512, 4) + be(preferred_block(device) as nat, 4) + be(33_554_432, 4)
}

/// What becomes of a connection behind an option.
#[derive(Clone, Copy, Debug, PartialEq, Eq, Structural)]
pub enum AfterOption {
    /// The next option is awaited.
    Negotiate,
    /// The connection is closed.
    Close,
    /// Requests are awaited, for this generation of the device.
    Transmit(u64),
}

/// The answer to an option, or why the connection fails.
pub open spec fn option_answer(
    no_zeroes: bool,
    option: u32,
    data: Seq<u8>,
    device: DeviceInfo,
) -> Result<(Seq<u8>, AfterOption), &'static str> {
    if option == NBD_OPT_EXPORT_NAME {
        if !names_export(data) {
            Err("unknown NBD export")
        } else {
            Ok(
                (
                    be(device.size as nat, 8) + be(flags_of(device.status) as nat, 2) + if no_zeroes {
                        Seq::<u8>::empty()
                    } else {
                        Seq::new(124, |i: int| 0u8)
                    },
                    AfterOption::Transmit(device.generation),
                ),
            )
        }
    } else if option == NBD_OPT_ABORT {
        Ok(
            (
                if data.len() == 0 {
                    option_reply_bytes(option, NBD_REP_ACK, Seq::empty())
                } else {
                    option_reply_bytes(option, NBD_REP_ERR_INVALID, bytes_of("ABORT has data"@))
                },
                AfterOption::Close,
            ),
        )
    } else if option == NBD_OPT_LIST {
        if data.len() != 0 {
            Ok(
                (
                    option_reply_bytes(option, NBD_REP_ERR_INVALID, bytes_of("LIST has data"@)),
                    AfterOption::Negotiate,
                ),
            )
        } else {
            Ok(
                (
                    option_reply_bytes(
                        option,
                        NBD_REP_SERVER,
                        be(export_name().len(), 4) + export_name() + bytes_of(
                            "FTW deterministic SD-card emulator"@,
                        ),
                    ) + option_reply_bytes(option, NBD_REP_ACK, Seq::empty()),
                    AfterOption::Negotiate,
                ),
            )
        }
    } else if option == NBD_OPT_INFO || option == NBD_OPT_GO {
        match info_request_of(data) {
            None => Ok(
                (
                    option_reply_bytes(option, NBD_REP_ERR_INVALID, bytes_of("invalid INFO/GO"@)),
                    AfterOption::Negotiate,
                ),
            ),
            Some(request) => if !names_export(request.name) {
                Ok(
                    (
                        option_reply_bytes(
                            option,
                            NBD_REP_ERR_UNKNOWN,
                            bytes_of("unknown export"@),
                        ),
                        AfterOption::Negotiate,
                    ),
                )
            } else {
                Ok(
                    (
                        option_reply_bytes(option, NBD_REP_INFO, export_info(device)) + (
                        if request.information.contains(NBD_INFO_BLOCK_SIZE) {
                            option_reply_bytes(option, NBD_REP_INFO, block_info(device))
                        } else {
                            Seq::empty()
                        }) + option_reply_bytes(option, NBD_REP_ACK, Seq::empty()),
                        if option == NBD_OPT_GO {
                            AfterOption::Transmit(device.generation)
                        } else {
                            AfterOption::Negotiate
                        },
                    ),
                )
            },
        }
    } else {
        Ok(
            (
                option_reply_bytes(option, NBD_REP_ERR_UNSUP, bytes_of("unsupported option"@)),
                AfterOption::Negotiate,
            ),
        )
    }
}

/// What to send and do behind an option.
#[derive(Debug)]
pub struct OptionAnswer {
    pub reply: Vec<u8>,
    pub after: AfterOption,
}

fn has_block_size(information: &Vec<u16>) -> (yes: bool)
    ensures
        yes == information@.contains(NBD_INFO_BLOCK_SIZE),
{
    let mut i: usize = 0;
    while i < information.len()
        invariant
            i <= information@.len(),
            forall|k: int| 0 <= k < i ==> #[trigger] information@[k] != NBD_INFO_BLOCK_SIZE,
        decreases information@.len() - i,
    {
        if information[i] == NBD_INFO_BLOCK_SIZE {
            assert(information@[i as int] == NBD_INFO_BLOCK_SIZE);
            return true;
        }
        i = i + 1;
    }
    false
}

/// Answers an option.
pub fn negotiate(no_zeroes: bool, option: u32, data: &[u8], device: &DeviceInfo) -> (out: Result<
    OptionAnswer,
    &'static str,
>)
    ensures
        match option_answer(no_zeroes, option, data@, *device) {
            Ok((reply, after)) => out matches Ok(answer) && answer.reply@ == reply && answer.after
                == after,
            Err(reason) => out == Err::<OptionAnswer, &'static str>(reason),
        },
{
    let mut reply: Vec<u8> = Vec::new();
    let nothing: Vec<u8> = Vec::new();
    assert(nothing@ =~= Seq::<u8>::empty());
    let ghost goal = option_answer(no_zeroes, option, data@, *device);
    if option == NBD_OPT_EXPORT_NAME {
        if !valid_export_name(data) {
            return Err("unknown NBD export");
        }
        put_be(&mut reply, device.size as u128, 8);
        put_be(&mut reply, transmission_flags(device.status) as u128, 2);
        if !no_zeroes {
            let ghost head = reply@;
            let mut i: usize = 0;
            while i < 124
                invariant
                    i <= 124,
                    reply@ == head + Seq::new(i as nat, |k: int| 0u8),
                decreases 124 - i,
            {
                reply.push(0);
                i = i + 1;
                assert(reply@ =~= head + Seq::new(i as nat, |k: int| 0u8));
            }
        }
        assert(reply@ =~= (goal->Ok_0).0);
        return Ok(OptionAnswer { reply, after: AfterOption::Transmit(device.generation) });
    }
    if option == NBD_OPT_ABORT {
        if data.len() == 0 {
            option_reply(&mut reply, option, NBD_REP_ACK, nothing.as_slice());
        } else {
            option_reply(&mut reply, option, NBD_REP_ERR_INVALID, "ABORT has data".as_bytes());
        }
        assert(reply@ =~= (goal->Ok_0).0);
        return Ok(OptionAnswer { reply, after: AfterOption::Close });
    }
    if option == NBD_OPT_LIST {
        if data.len() != 0 {
            option_reply(&mut reply, option, NBD_REP_ERR_INVALID, "LIST has data".as_bytes());
            assert(reply@ =~= (goal->Ok_0).0);
            return Ok(OptionAnswer { reply, after: AfterOption::Negotiate });
        }
        let name = "ftw-sd".as_bytes();
        let mut payload: Vec<u8> = Vec::new();
        put_be(&mut payload, name.len() as u128, 4);
        put_bytes(&mut payload, name);
        put_bytes(&mut payload, "FTW deterministic SD-card emulator".as_bytes());
        assert(payload@ =~= be(export_name().len(), 4) + export_name() + bytes_of(
            "FTW deterministic SD-card emulator"@,
        ));
        option_reply(&mut reply, option, NBD_REP_SERVER, payload.as_slice());
        option_reply(&mut reply, option, NBD_REP_ACK, nothing.as_slice());
        assert(reply@ =~= (goal->Ok_0).0);
        return Ok(OptionAnswer { reply, after: AfterOption::Negotiate });
    }
    if option == NBD_OPT_INFO || option == NBD_OPT_GO {
        let request = match parse_info_request(data) {
            Some(request) => request,
            None => {
                option_reply(&mut reply, option, NBD_REP_ERR_INVALID, "invalid INFO/GO".as_bytes());
                assert(reply@ =~= (goal->Ok_0).0);
                return Ok(OptionAnswer { reply, after: AfterOption::Negotiate });
            },
        };
        if !valid_export_name(request.name.as_slice()) {
            option_reply(&mut reply, option, NBD_REP_ERR_UNKNOWN, "unknown export".as_bytes());
            assert(reply@ =~= (goal->Ok_0).0);
            return Ok(OptionAnswer { reply, after: AfterOption::Negotiate });
        }
        let mut export: Vec<u8> = Vec::new();
        put_be(&mut export, 0, 2);
        put_be(&mut export, device.size as u128, 8);
        put_be(&mut export, transmission_flags(device.status) as u128, 2);
        assert(export@ =~= export_info(*device));
        option_reply(&mut reply, option, NBD_REP_INFO, export.as_slice());
        if has_block_size(&request.information) {
            let preferred: u64 = if device.logical_block_bytes > 4096 && device.logical_block_bytes
                <= u32::MAX as u64 {
                device.logical_block_bytes
            } else {
                4096
            };
            let mut sizes: Vec<u8> = Vec::new();
            put_be(&mut sizes, NBD_INFO_BLOCK_SIZE as u128, 2);
            put_be(&mut sizes, 512, 4);
            put_be(&mut sizes, preferred as u128, 4);
            put_be(&mut sizes, MAX_REQUEST_BYTES as u128, 4);
            assert(sizes@ =~= block_info(*device));
            option_reply(&mut reply, option, NBD_REP_INFO, sizes.as_slice());
        }
        option_reply(&mut reply, option, NBD_REP_ACK, nothing.as_slice());
        assert(reply@ =~= (goal->Ok_0).0);
        let after: AfterOption = if option == NBD_OPT_GO {
            AfterOption::Transmit(device.generation)
        } else {
            AfterOption::Negotiate
        };
        return Ok(OptionAnswer { reply, after });
    }
    option_reply(&mut reply, option, NBD_REP_ERR_UNSUP, "unsupported option".as_bytes());
    assert(reply@ =~= (goal->Ok_0).0);
    Ok(OptionAnswer { reply, after: AfterOption::Negotiate })
}

/// Whether requests are still awaited for a generation of the device.
pub fn still_there(device: &DeviceInfo, generation: u64) -> (yes: bool)
    ensures
        yes == (device.generation == generation && device.status != DeviceStatus::Offline),
{
    device.generation == generation && device.status != DeviceStatus::Offline
}

/// The head of a request.
#[derive(Clone, Copy, Debug, PartialEq, Eq, Structural)]
pub struct RequestHeader {
    pub flags: u16,
    pub command: u16,
    pub cookie: u64,
    pub offset: u64,
    pub length: usize,
}

/// What the head of a request says.
pub open spec fn request_header_of(head: Seq<u8>) -> Result<RequestHeader, &'static str> {
    if from_be(head.subrange(0, 4)) != NBD_REQUEST_MAGIC {
        Err("invalid NBD request magic")
    } else if from_be(head.subrange(24, 28)) > 33_554_432 {
        Err("NBD request is too large")
    } else {
        Ok(
            RequestHeader {
                flags: from_be(head.subrange(4, 6)) as u16,
                command: from_be(head.subrange(6, 8)) as u16,
                cookie: from_be(head.subrange(8, 16)) as u64,
                offset: from_be(head.subrange(16, 24)) as u64,
                length: from_be(head.subrange(24, 28)) as usize,
            },
        )
    }
}

/// Reads the head of a request.
pub fn request_header(head: &[u8]) -> (out: Result<RequestHeader, &'static str>)
    requires
        head@.len() == 28,
    ensures
        out == request_header_of(head@),
{
    if read_be(head, 0, 4) != NBD_REQUEST_MAGIC as u128 {
        return Err("invalid NBD request magic");
    }
    let length: u128 = read_be(head, 24, 4);
    if length > MAX_REQUEST_BYTES as u128 {
        return Err("NBD request is too large");
    }
    Ok(
        RequestHeader {
            flags: read_be(head, 4, 2) as u16,
            command: read_be(head, 6, 2) as u16,
            cookie: read_be(head, 8, 8) as u64,
            offset: read_be(head, 16, 8) as u64,
            length: length as usize,
        },
    )
}

/// What a request asks for.
#[derive(Clone, Copy, Debug, PartialEq, Eq, Structural)]
pub enum Command {
    Disconnect,
    Read,
    Write { fua: bool },
    Flush,
    Unsupported,
}

/// What a request asks for.
pub open spec fn command_of(header: RequestHeader) -> Command {
    if header.command == NBD_CMD_DISC {
        Command::Disconnect
    } else if header.command == NBD_CMD_READ && header.flags == 0 {
        Command::Read
    } else if header.command == NBD_CMD_WRITE && header.flags <= 1 {
        Command::Write { fua: header.flags == 1 }
    } else if header.command == NBD_CMD_FLUSH && header.flags == 0 && header.length == 0 {
        Command::Flush
    } else {
        Command::Unsupported
    }
}

impl RequestHeader {
    /// What the request asks for.
    pub fn command(&self) -> (command: Command)
        ensures
            command == command_of(*self),
    {
        if self.command == NBD_CMD_DISC {
            Command::Disconnect
        } else if self.command == NBD_CMD_READ && self.flags == 0 {
            Command::Read
        } else if self.command == NBD_CMD_WRITE && self.flags <= 1 {
            Command::Write { fua: self.flags == 1 }
        } else if self.command == NBD_CMD_FLUSH && self.flags == 0 && self.length == 0 {
            Command::Flush
        } else {
            Command::Unsupported
        }
    }

    /// How many bytes of data follow the head.
    pub fn data_length(&self) -> (n: usize)
        ensures
            n == if self.command == NBD_CMD_WRITE {
                self.length
            } else {
                0
            },
    {
        if self.command == NBD_CMD_WRITE {
            self.length
        } else {
            0
        }
    }
}

/// The answer to a request that asks for something unknown.
pub fn unsupported_command() -> (error: DeviceError)
    ensures
        error@ == (DeviceFault {
            code: ErrorCode::Invalid,
            message: "unsupported NBD command or flags"@,
        }),
{
    DeviceError::from_code(ErrorCode::Invalid, "unsupported NBD command or flags")
}

/// A reply to a request; data follow it only where there is no error.
pub open spec fn simple_reply_bytes(cookie: u64, error: u32, data: Seq<u8>) -> Seq<u8> {
    be(NBD_SIMPLE_REPLY_MAGIC as nat, 4) + be(error as nat, 4) + be(cookie as nat, 8) + if error
        == 0 {
        data
    } else {
        Seq::empty()
    }
}

/// A reply to a request.
pub fn simple_reply(cookie: u64, error: u32, data: &[u8]) -> (out: Vec<u8>)
    ensures
        out@ == simple_reply_bytes(cookie, error, data@),
{
    let mut out: Vec<u8> = Vec::new();
    put_be(&mut out, NBD_SIMPLE_REPLY_MAGIC as u128, 4);
    put_be(&mut out, error as u128, 4);
    put_be(&mut out, cookie as u128, 8);
    if error == 0 {
        put_bytes(&mut out, data);
    }
    assert(out@ =~= simple_reply_bytes(cookie, error, data@));
    out
}

/// What to send for the outcome of a request: nothing where the device is gone, for
/// then the connection is closed.
pub fn transmission_reply(cookie: u64, outcome: &Result<Vec<u8>, DeviceError>) -> (out: Option<
    Vec<u8>,
>)
    ensures
        match outcome {
            Ok(data) => out matches Some(reply) && reply@ == simple_reply_bytes(cookie, 0, data@),
            Err(error) => if error@.code == ErrorCode::Disconnected {
                out is None
            } else {
                out matches Some(reply) && reply@ == simple_reply_bytes(
                    cookie,
                    errno_of(error@.code),
                    Seq::empty(),
                )
            },
        },
{
    match outcome {
        Ok(data) => Some(simple_reply(cookie, 0, data.as_slice())),
        Err(error) => {
            if error.disconnects() {
                return None;
            }
            let nothing: Vec<u8> = Vec::new();
            assert(nothing@ =~= Seq::<u8>::empty());
            Some(simple_reply(cookie, error.error_code().errno(), nothing.as_slice()))
        },
    }
}

} // verus!
