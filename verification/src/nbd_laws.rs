//! What a client of the block device is told, and what its requests come to.
#[allow(unused_imports)]
use crate::bytes::{be, from_be, lemma_be_len, lemma_be_round_trip};
#[allow(unused_imports)]
use crate::nbd::{
    block_info, command_of, export_info, flags_of, info_request_of, names_export, option_answer,
    option_head_of, option_reply_bytes, preferred_block, request_header_of, simple_reply_bytes,
    AfterOption, Command, DeviceInfo, RequestHeader,
};
#[allow(unused_imports)]
use crate::sd_card::{errno_of, DeviceStatus, ErrorCode};
use vstd::prelude::*;
use vstd::string::*;
#[allow(unused_imports)]
use vstd::utf8::*;

verus! {

/// What a client writes into the head of a request is what the server reads in it, as long
/// as it asks for no more than 32 MiB. A head that asks for more, or that does not begin
/// as it must, is refused.
pub proof fn requests_are_read_back(
    magic: u32,
    flags: u16,
    command: u16,
    cookie: u64,
    offset: u64,
    length: u32,
)
    ensures
        ({
            let head = be(magic as nat, 4) + be(flags as nat, 2) + be(command as nat, 2) + be(
                cookie as nat,
                8,
            ) + be(offset as nat, 8) + be(length as nat, 4);
            &&& request_header_of(head) is Ok <==> magic == 0x2560_9513 && length <= 33_554_432
            &&& request_header_of(head) matches Ok(header) ==> header.flags == flags
                && header.command == command && header.cookie == cookie && header.offset == offset
                && header.length == length
        }),
{
    let a = be(magic as nat, 4);
    let b = be(flags as nat, 2);
    let c = be(command as nat, 2);
    let d = be(cookie as nat, 8);
    let e = be(offset as nat, 8);
    let f = be(length as nat, 4);
    lemma_be_len(magic as nat, 4);
    lemma_be_len(flags as nat, 2);
    lemma_be_len(command as nat, 2);
    lemma_be_len(cookie as nat, 8);
    lemma_be_len(offset as nat, 8);
    lemma_be_len(length as nat, 4);
    let head = a + b + c + d + e + f;
    assert(head.subrange(0, 4) =~= a);
    assert(head.subrange(4, 6) =~= b);
    assert(head.subrange(6, 8) =~= c);
    assert(head.subrange(8, 16) =~= d);
    assert(head.subrange(16, 24) =~= e);
    assert(head.subrange(24, 28) =~= f);
    crate::bytes::lemma_pow256_values();
    lemma_be_round_trip(magic as nat, 4);
    lemma_be_round_trip(flags as nat, 2);
    lemma_be_round_trip(command as nat, 2);
    lemma_be_round_trip(cookie as nat, 8);
    lemma_be_round_trip(offset as nat, 8);
    lemma_be_round_trip(length as nat, 4);
}

/// What a client writes into the head of an option is what the server reads in it, as long
/// as no more than 1 MiB follows.
pub proof fn options_are_read_back(magic: u64, option: u32, length: u32)
    ensures
        ({
            let head = be(magic as nat, 8) + be(option as nat, 4) + be(length as nat, 4);
            &&& option_head_of(head) is Ok <==> magic == 0x4948_4156_454f_5054 && length
                <= 1_048_576
            &&& option_head_of(head) matches Ok(found) ==> found.option == option && found.length
                == length
        }),
{
    let a = be(magic as nat, 8);
    let b = be(option as nat, 4);
    let c = be(length as nat, 4);
    lemma_be_len(magic as nat, 8);
    lemma_be_len(option as nat, 4);
    lemma_be_len(length as nat, 4);
    let head = a + b + c;
    assert(head.subrange(0, 8) =~= a);
    assert(head.subrange(8, 12) =~= b);
    assert(head.subrange(12, 16) =~= c);
    crate::bytes::lemma_pow256_values();
    lemma_be_round_trip(magic as nat, 8);
    lemma_be_round_trip(option as nat, 4);
    lemma_be_round_trip(length as nat, 4);
}

/// What a request asks for, by its number and its flags. A read and a flush take no flags,
/// a write takes the one that forces it to the medium, a flush has no length, and nothing
/// else is known. A client may always leave.
pub proof fn commands_are_listed(header: RequestHeader)
    ensures
        command_of(header) == Command::Read <==> header.command == 0 && header.flags == 0,
        command_of(header) == (Command::Write { fua: false }) <==> header.command == 1
            && header.flags == 0,
        command_of(header) == (Command::Write { fua: true }) <==> header.command == 1
            && header.flags == 1,
        command_of(header) == Command::Disconnect <==> header.command == 2,
        command_of(header) == Command::Flush <==> header.command == 3 && header.flags == 0
            && header.length == 0,
{
}

/// A reply names the request that it answers by its cookie, and carries data exactly where
/// the request went well.
pub proof fn replies_name_their_request(cookie: u64, error: u32, data: Seq<u8>)
    ensures
        ({
            let reply = simple_reply_bytes(cookie, error, data);
            &&& reply.len() == 16 + if error == 0 {
                data.len() as int
            } else {
                0
            }
            &&& from_be(reply.subrange(0, 4)) == 0x6744_6698
            &&& from_be(reply.subrange(4, 8)) == error
            &&& from_be(reply.subrange(8, 16)) == cookie
            &&& error == 0 ==> reply.skip(16) == data
        }),
{
    let a = be(0x6744_6698, 4);
    let b = be(error as nat, 4);
    let c = be(cookie as nat, 8);
    lemma_be_len(0x6744_6698, 4);
    lemma_be_len(error as nat, 4);
    lemma_be_len(cookie as nat, 8);
    let reply = simple_reply_bytes(cookie, error, data);
    assert(reply.subrange(0, 4) =~= a);
    assert(reply.subrange(4, 8) =~= b);
    assert(reply.subrange(8, 16) =~= c);
    crate::bytes::lemma_pow256_values();
    lemma_be_round_trip(0x6744_6698, 4);
    lemma_be_round_trip(error as nat, 4);
    lemma_be_round_trip(cookie as nat, 8);
    if error == 0 {
        assert(reply.skip(16) =~= data);
    }
}

/// A reply to an option names the option and says how much follows.
proof fn lemma_option_reply(option: u32, kind: u32, data: Seq<u8>)
    requires
        data.len() <= u32::MAX,
    ensures
        ({
            let reply = option_reply_bytes(option, kind, data);
            &&& reply.len() == 20 + data.len()
            &&& from_be(reply.subrange(0, 8)) == 0x0003_e889_0455_65a9
            &&& from_be(reply.subrange(8, 12)) == option
            &&& from_be(reply.subrange(12, 16)) == kind
            &&& from_be(reply.subrange(16, 20)) == data.len()
            &&& reply.skip(20) == data
        }),
{
    lemma_be_len(0x0003_e889_0455_65a9, 8);
    lemma_be_len(option as nat, 4);
    lemma_be_len(kind as nat, 4);
    lemma_be_len(data.len(), 4);
    let reply = option_reply_bytes(option, kind, data);
    assert(reply.subrange(0, 8) =~= be(0x0003_e889_0455_65a9, 8));
    assert(reply.subrange(8, 12) =~= be(option as nat, 4));
    assert(reply.subrange(12, 16) =~= be(kind as nat, 4));
    assert(reply.subrange(16, 20) =~= be(data.len(), 4));
    crate::bytes::lemma_pow256_values();
    lemma_be_round_trip(0x0003_e889_0455_65a9, 8);
    lemma_be_round_trip(option as nat, 4);
    lemma_be_round_trip(kind as nat, 4);
    lemma_be_round_trip(data.len(), 4);
    assert(reply.skip(20) =~= data);
}

/// When a client gets to send requests: behind the option that names the export, if it is
/// that of this server or the default, and behind a well-formed request to go on with it.
/// Requests are then for the device as it was. No other option leads there, and only the
/// wish to leave closes the connection.
pub proof fn only_named_exports_are_served(
    no_zeroes: bool,
    option: u32,
    data: Seq<u8>,
    device: DeviceInfo,
)
    ensures
        ({
            let answer = option_answer(no_zeroes, option, data, device);
            let own = |name: Seq<u8>| name.len() == 0 || name == encode_utf8("ftw-sd"@);
            let wanted = info_request_of(data);
            &&& answer is Err <==> option == 1 && !own(data)
            &&& answer matches Ok((_, after)) ==> {
                &&& after == AfterOption::Transmit(device.generation) <==> option == 1 || (option
                    == 7 && wanted is Some && own(wanted->Some_0.name))
                &&& after == AfterOption::Close <==> option == 2
                &&& after is Transmit || after is Close || after is Negotiate
            }
        }),
{
}

/// A client that goes on with the export is told its size and its flags first, and that the
/// option was taken last. A read-only device says so.
pub proof fn exports_are_described(option: u32, data: Seq<u8>, no_zeroes: bool, device: DeviceInfo)
    requires
        option == 6 || option == 7,
        info_request_of(data) is Some,
        names_export(info_request_of(data)->Some_0.name),
    ensures
        ({
            let reply = (option_answer(no_zeroes, option, data, device)->Ok_0).0;
            &&& reply.len() >= 52
            &&& from_be(reply.subrange(8, 12)) == option
            &&& from_be(reply.subrange(12, 16)) == 3
            &&& from_be(reply.subrange(16, 20)) == 12
            &&& from_be(reply.subrange(20, 22)) == 0
            &&& from_be(reply.subrange(22, 30)) == device.size
            &&& from_be(reply.subrange(30, 32)) == if device.status == DeviceStatus::ReadOnly {
                15int
            } else {
                13int
            }
            &&& from_be(reply.subrange(reply.len() - 8, reply.len() - 4)) == 1
            &&& from_be(reply.subrange(reply.len() - 4, reply.len() as int)) == 0
        }),
{
    let info = export_info(device);
    lemma_be_len(0, 2);
    lemma_be_len(device.size as nat, 8);
    lemma_be_len(flags_of(device.status) as nat, 2);
    lemma_option_reply(option, 3, info);
    let empty = Seq::<u8>::empty();
    lemma_option_reply(option, 1, empty);
    let first = option_reply_bytes(option, 3, info);
    let last = option_reply_bytes(option, 1, empty);
    let middle = if info_request_of(data)->Some_0.information.contains(3u16) {
        option_reply_bytes(option, 3, block_info(device))
    } else {
        Seq::empty()
    };
    let reply = (option_answer(no_zeroes, option, data, device)->Ok_0).0;
    assert(reply =~= first + middle + last);
    assert(reply.subrange(8, 12) =~= first.subrange(8, 12));
    assert(reply.subrange(12, 16) =~= first.subrange(12, 16));
    assert(reply.subrange(16, 20) =~= first.subrange(16, 20));
    assert(reply.subrange(20, 22) =~= first.skip(20).subrange(0, 2));
    assert(reply.subrange(22, 30) =~= first.skip(20).subrange(2, 10));
    assert(reply.subrange(30, 32) =~= first.skip(20).subrange(10, 12));
    assert(info.subrange(0, 2) =~= be(0, 2));
    assert(info.subrange(2, 10) =~= be(device.size as nat, 8));
    assert(info.subrange(10, 12) =~= be(flags_of(device.status) as nat, 2));
    assert(reply.subrange(reply.len() - 8, reply.len() - 4) =~= last.subrange(12, 16));
    assert(reply.subrange(reply.len() - 4, reply.len() as int) =~= last.subrange(16, 20));
    crate::bytes::lemma_pow256_values();
    lemma_be_round_trip(0, 2);
    lemma_be_round_trip(device.size as nat, 8);
    lemma_be_round_trip(flags_of(device.status) as nat, 2);
}

/// The preferred block is that of the device, but never below 4096 bytes, and 4096 where
/// the device's cannot be told.
pub proof fn preferred_blocks_are_no_smaller_than_a_page(device: DeviceInfo)
    ensures
        preferred_block(device) >= 4096,
        4096 <= device.logical_block_bytes <= u32::MAX ==> preferred_block(device)
            == device.logical_block_bytes,
        device.logical_block_bytes < 4096 || device.logical_block_bytes > u32::MAX
            ==> preferred_block(device) == 4096,
{
}

/// The error numbers that a client is sent are those of the operating system.
pub proof fn error_numbers_are_listed(code: ErrorCode)
    ensures
        code == ErrorCode::Io || code == ErrorCode::Disconnected <==> errno_of(code) == 5,
        code == ErrorCode::Invalid <==> errno_of(code) == 22,
        code == ErrorCode::NoSpace <==> errno_of(code) == 28,
        code == ErrorCode::ReadOnly <==> errno_of(code) == 30,
{
}

} // verus!
