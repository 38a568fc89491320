//! The first record of a TLS connection: how long it is, and which server name
//! its ClientHello asks for.
use crate::bytes::be16;
use crate::bytes::be16_bytes;
use crate::bytes::lemma_be16_bytes;
use crate::bytes::read_be16;
use crate::error::Error;
use crate::error::ErrorKind;
use crate::error::Failure;
use crate::error::failure;
use crate::text::chars_of;
use crate::text::decimal;
use crate::text::hex_byte;
use crate::text::law_capitals_become_small;
use crate::text::lower;
use crate::text::lower_chars;
use crate::text::push_decimal;
use crate::text::push_hex_byte;
use crate::text::string_of;
use vstd::prelude::*;
use vstd::slice::slice_subrange;
use vstd::utf8::decode_utf8;
use vstd::utf8::encode_utf8;
use vstd::utf8::encode_utf8_decode_utf8;
use vstd::utf8::encode_utf8_valid_utf8;
use vstd::utf8::valid_utf8;

verus! {

/// The error of `core::str::from_utf8`; nothing inside it is looked at.
#[verifier::external_type_specification]
#[verifier::external_body]
pub struct ExUtf8Error(core::str::Utf8Error);

/// `core::str::from_utf8`: the string that the bytes encode, exactly where they
/// are valid UTF-8.
pub assume_specification[ core::str::from_utf8 ](v: &[u8]) -> (r: Result<
    &str,
    core::str::Utf8Error,
>)
    ensures
        r is Ok <==> valid_utf8(v@),
        r matches Ok(s) ==> encode_utf8(s@) == v@,
;

/// The longest first record: a full record payload behind its header.
pub const MAX_CLIENT_HELLO_LEN: usize = 16389;

/// Where the extensions of the ClientHello in `b` start and end, if `b` goes so
/// far. Where `b` breaks off inside them, they end with it.
pub open spec fn extension_span(b: Seq<u8>) -> Option<(int, int)> {
    let ciphers = 44 + b[43];
    let compression = ciphers + 2 + be16(b, ciphers);
    let extensions = compression + 1 + b[compression];
    let start = extensions + 2;
    let end = start + be16(b, extensions);
    if b.len() < 44 || b[0] != 0x16 || b[5] != 0x01 || b.len() < ciphers + 2 || b.len()
        < compression + 1 || b.len() < start {
        None
    } else {
        Some((start, if b.len() < end { b.len() as int } else { end }))
    }
}

/// The name that some bytes spell, in small letters, if they are UTF-8.
pub open spec fn name_text(bytes: Seq<u8>) -> Option<Seq<char>> {
    if valid_utf8(bytes) {
        Some(lower(decode_utf8(bytes)))
    } else {
        None
    }
}

/// The first host name entry in the server name list at `at`, up to `end`:
/// `None` if there is no such entry, else what its name spells.
pub open spec fn host_name(b: Seq<u8>, at: int, end: int) -> Option<Option<Seq<char>>>
    decreases end - at,
{
    let name = at + 3;
    let next = name + be16(b, at + 1);
    if name > end || next > end {
        None
    } else if b[at] == 0 {
        Some(name_text(b.subrange(name, next)))
    } else {
        host_name(b, next, end)
    }
}

/// The server name that the extensions at `at`, up to `end`, ask for.
pub open spec fn server_name(b: Seq<u8>, at: int, end: int) -> Option<Seq<char>>
    decreases end - at,
{
    let body = at + 4;
    let next = body + be16(b, at + 2);
    if body > end || next > end {
        None
    } else if be16(b, at) == 0 {
        if next < body + 2 {
            None
        } else {
            match host_name(b, body + 2, next) {
                Some(name) => name,
                None => server_name(b, next, end),
            }
        }
    } else {
        server_name(b, next, end)
    }
}

/// The server name that the ClientHello in `b` asks for.
pub open spec fn sni(b: Seq<u8>) -> Option<Seq<char>> {
    match extension_span(b) {
        Some((start, end)) => server_name(b, start, end),
        None => None,
    }
}

/// The characters of an optional string.
pub open spec fn text_view(s: Option<String>) -> Option<Seq<char>> {
    match s {
        Some(s) => Some(s@),
        None => None,
    }
}

fn read_name(bytes: &[u8]) -> (name: Option<String>)
    ensures
        text_view(name) == name_text(bytes@),
{
    match core::str::from_utf8(bytes) {
        Ok(s) => {
            proof {
                encode_utf8_decode_utf8(s@);
            }
            let chars = chars_of(s);
            Some(string_of(lower_chars(chars.as_slice()).as_slice()))
        },
        Err(_) => None,
    }
}

fn find_host_name(b: &[u8], at: usize, end: usize) -> (r: Option<Option<String>>)
    requires
        at <= end <= b@.len(),
        end <= 0x10_0000,
    ensures
        match r {
            Some(name) => host_name(b@, at as int, end as int) == Some(text_view(name)),
            None => host_name(b@, at as int, end as int) is None,
        },
{
    let mut i = at;
    while i + 3 <= end
        invariant
            i <= end <= b@.len(),
            end <= 0x10_0000,
            host_name(b@, i as int, end as int) == host_name(b@, at as int, end as int),
        decreases end - i,
    {
        let name_type = b[i];
        let name_len = read_be16(b, i + 1);
        let name = i + 3;
        if name + name_len > end {
            return None;
        }
        if name_type == 0 {
            return Some(read_name(slice_subrange(b, name, name + name_len)));
        }
        i = name + name_len;
    }
    None
}

fn find_server_name(b: &[u8], at: usize, end: usize) -> (name: Option<String>)
    requires
        at <= end <= b@.len(),
        end <= 0x10_0000,
    ensures
        text_view(name) == server_name(b@, at as int, end as int),
{
    let mut i = at;
    while i + 4 <= end
        invariant
            i <= end <= b@.len(),
            end <= 0x10_0000,
            server_name(b@, i as int, end as int) == server_name(b@, at as int, end as int),
        decreases end - i,
    {
        let ext_type = read_be16(b, i);
        let len = read_be16(b, i + 2);
        let body = i + 4;
        if body + len > end {
            return None;
        }
        if ext_type == 0 {
            if len < 2 {
                return None;
            }
            if let Some(name) = find_host_name(b, body + 2, body + len) {
                return name;
            }
        }
        i = body + len;
    }
    None
}

/// The server name that the ClientHello in `buf` asks for, in small letters.
pub fn extract_sni_from_client_hello(buf: &[u8]) -> (name: Option<String>)
    ensures
        text_view(name) == sni(buf@),
{
    if buf.len() < 44 || buf[0] != 0x16 || buf[5] != 0x01 {
        return None;
    }
    let ciphers = 44 + buf[43] as usize;
    if buf.len() < ciphers + 2 {
        return None;
    }
    let compression = ciphers + 2 + read_be16(buf, ciphers);
    if buf.len() < compression + 1 {
        return None;
    }
    let extensions = compression + 1 + buf[compression] as usize;
    if buf.len() < extensions + 2 {
        return None;
    }
    let start = extensions + 2;
    let mut end = start + read_be16(buf, extensions);
    if buf.len() < end {
        end = buf.len();
    }
    find_server_name(buf, start, end)
}

// --- The record header ---

/// How many bytes the first record has, header and all, by its header.
pub open spec fn record_len(header: Seq<u8>) -> Result<int, Failure> {
    let len = be16(header, 3);
    if header[0] != 0x16 {
        Err(
            failure(
                ErrorKind::InvalidData,
                "not a TLS handshake record (first byte=0x"@ + hex_byte(header[0]) + ")"@,
            ),
        )
    } else if 5 + len > MAX_CLIENT_HELLO_LEN {
        Err(
            failure(
                ErrorKind::InvalidData,
                "TLS record length "@ + decimal(len as nat) + " exceeds cap"@,
            ),
        )
    } else {
        Ok(5 + len)
    }
}

/// How many bytes the first record has, header and all, by its header.
pub fn client_hello_len(header: [u8; 5]) -> (r: Result<usize, Error>)
    ensures
        match r {
            Ok(n) => record_len(header@) == Ok::<int, Failure>(n as int),
            Err(e) => record_len(header@) == Err::<int, Failure>(e@),
        },
{
    if header[0] != 0x16 {
        let mut message = "not a TLS handshake record (first byte=0x".to_string();
        push_hex_byte(&mut message, header[0]);
        message.append(")");
        return Err(Error { kind: ErrorKind::InvalidData, message });
    }
    let len = header[3] as usize * 256 + header[4] as usize;
    if 5 + len > MAX_CLIENT_HELLO_LEN {
        let mut message = "TLS record length ".to_string();
        push_decimal(&mut message, len);
        message.append(" exceeds cap");
        return Err(Error { kind: ErrorKind::InvalidData, message });
    }
    Ok(5 + len)
}

// --- What a client writes is what is read ---

/// An extension of type `kind` that holds `body`.
pub open spec fn extension(kind: u16, body: Seq<u8>) -> Seq<u8> {
    be16_bytes(kind as nat) + be16_bytes(body.len()) + body
}

/// Some extensions, one after another.
pub open spec fn extensions(list: Seq<(u16, Seq<u8>)>) -> Seq<u8>
    decreases list.len(),
{
    if list.len() == 0 {
        Seq::empty()
    } else {
        extension(list[0].0, list[0].1) + extensions(list.skip(1))
    }
}

/// The extension that asks for the server called `host`.
pub open spec fn server_name_extension(host: Seq<u8>) -> Seq<u8> {
    extension(0, be16_bytes(host.len() + 3) + seq![0u8] + be16_bytes(host.len()) + host)
}

/// A record with a ClientHello. `head` goes from the record header up to the
/// client's random bytes.
pub open spec fn client_hello(
    head: Seq<u8>,
    session: Seq<u8>,
    ciphers: Seq<u8>,
    compression: Seq<u8>,
    exts: Seq<u8>,
) -> Seq<u8> {
    head + seq![session.len() as u8] + session + be16_bytes(ciphers.len()) + ciphers
        + seq![compression.len() as u8] + compression + be16_bytes(exts.len()) + exts
}

/// Whether the parts can be the parts of a ClientHello.
pub open spec fn client_hello_parts(
    head: Seq<u8>,
    session: Seq<u8>,
    ciphers: Seq<u8>,
    compression: Seq<u8>,
    exts: Seq<u8>,
) -> bool {
    &&& head.len() == 43
    &&& head[0] == 0x16
    &&& head[5] == 0x01
    &&& session.len() <= 0xff
    &&& ciphers.len() <= 0xffff
    &&& compression.len() <= 0xff
    &&& exts.len() <= 0xffff
}

/// Whether `list` holds extensions of other types than server name, each of
/// them short enough for its length field.
pub open spec fn other_extensions(list: Seq<(u16, Seq<u8>)>) -> bool {
    forall|i: int| 0 <= i < list.len() ==> (#[trigger] list[i]).0 != 0 && list[i].1.len() <= 0xffff
}

/// Where the extensions of a ClientHello stand.
proof fn lemma_extension_span(
    head: Seq<u8>,
    session: Seq<u8>,
    ciphers: Seq<u8>,
    compression: Seq<u8>,
    exts: Seq<u8>,
)
    requires
        client_hello_parts(head, session, ciphers, compression, exts),
    ensures
        ({
            let b = client_hello(head, session, ciphers, compression, exts);
            let start = b.len() - exts.len();
            &&& extension_span(b) == Some((start, b.len() as int))
            &&& b.skip(start) == exts
        }),
{
    let b = client_hello(head, session, ciphers, compression, exts);
    let at_ciphers = 44 + session.len() as int;
    let at_compression = at_ciphers + 2 + ciphers.len();
    let at_extensions = at_compression + 1 + compression.len();
    assert(b[0] == head[0] && b[5] == head[5]);
    assert(b[43] == session.len());
    assert(b.subrange(at_ciphers, at_ciphers + 2) == be16_bytes(ciphers.len()));
    lemma_be16_bytes(b, at_ciphers, ciphers.len());
    assert(b[at_compression] == compression.len());
    assert(b.subrange(at_extensions, at_extensions + 2) == be16_bytes(exts.len()));
    lemma_be16_bytes(b, at_extensions, exts.len());
    assert(b.skip(at_extensions + 2) == exts);
}

/// Extensions of other types are passed over.
proof fn lemma_skip_others(b: Seq<u8>, at: int, end: int, list: Seq<(u16, Seq<u8>)>)
    requires
        0 <= at,
        at + extensions(list).len() <= end <= b.len(),
        b.subrange(at, at + extensions(list).len()) == extensions(list),
        other_extensions(list),
    ensures
        server_name(b, at, end) == server_name(b, at + extensions(list).len(), end),
    decreases list.len(),
{
    if list.len() > 0 {
        let first = extension(list[0].0, list[0].1);
        let rest = extensions(list.skip(1));
        let all = extensions(list);
        let next = at + first.len();
        assert(all == first + rest);
        assert(first.len() == 4 + list[0].1.len());
        let here = b.subrange(at, at + all.len());
        assert(b.subrange(at, at + 2) == here.subrange(0, 2));
        assert(here.subrange(0, 2) == be16_bytes(list[0].0 as nat));
        lemma_be16_bytes(b, at, list[0].0 as nat);
        assert(b.subrange(at + 2, at + 4) == here.subrange(2, 4));
        assert(here.subrange(2, 4) == be16_bytes(list[0].1.len()));
        lemma_be16_bytes(b, at + 2, list[0].1.len());
        assert(b.subrange(next, next + rest.len()) == here.subrange(
            first.len() as int,
            all.len() as int,
        ));
        assert(here.subrange(first.len() as int, all.len() as int) == rest);
        lemma_skip_others(b, next, end, list.skip(1));
    }
}

/// The request for a server name is read where it stands.
proof fn lemma_read_asked(b: Seq<u8>, at: int, end: int, host: Seq<u8>)
    requires
        0 <= at,
        at + server_name_extension(host).len() <= end <= b.len(),
        b.subrange(at, at + server_name_extension(host).len()) == server_name_extension(host),
        host.len() + 5 <= 0xffff,
    ensures
        server_name(b, at, end) == name_text(host),
{
    let asked = server_name_extension(host);
    let here = b.subrange(at, at + asked.len());
    let n = host.len() as int;
    assert(asked.len() == n + 9);
    assert(b.subrange(at, at + 2) == here.subrange(0, 2));
    assert(here.subrange(0, 2) == be16_bytes(0));
    lemma_be16_bytes(b, at, 0);
    assert(b.subrange(at + 2, at + 4) == here.subrange(2, 4));
    assert(here.subrange(2, 4) == be16_bytes(host.len() + 5));
    lemma_be16_bytes(b, at + 2, host.len() + 5);
    assert(b[at + 6] == here[6]);
    assert(here[6] == 0);
    assert(b.subrange(at + 7, at + 9) == here.subrange(7, 9));
    assert(here.subrange(7, 9) == be16_bytes(host.len()));
    lemma_be16_bytes(b, at + 7, host.len());
    assert(b.subrange(at + 9, at + 9 + n) == here.subrange(9, 9 + n));
    assert(here.subrange(9, 9 + n) == host);
    assert(host_name(b, at + 6, at + 9 + n) == Some(name_text(host)));
}

/// The request for a server name is read behind extensions of other types.
proof fn lemma_read_after_others(
    b: Seq<u8>,
    start: int,
    before: Seq<(u16, Seq<u8>)>,
    host: Seq<u8>,
    after: Seq<u8>,
)
    requires
        0 <= start <= b.len(),
        b.skip(start) == extensions(before) + server_name_extension(host) + after,
        b.len() - start <= 0xffff,
        other_extensions(before),
    ensures
        server_name(b, start, b.len() as int) == name_text(host),
{
    let asked = server_name_extension(host);
    let skipped = extensions(before);
    let at = start + skipped.len();
    let tail = b.skip(start);
    assert(tail.len() == b.len() - start);
    assert(tail.len() == skipped.len() + asked.len() + after.len());
    assert(asked.len() == host.len() + 9);
    assert(b.subrange(start, at) == tail.subrange(0, skipped.len() as int));
    assert(tail.subrange(0, skipped.len() as int) == skipped);
    lemma_skip_others(b, start, b.len() as int, before);
    assert(b.subrange(at, at + asked.len()) == tail.subrange(
        skipped.len() as int,
        skipped.len() as int + asked.len(),
    ));
    assert(tail.subrange(skipped.len() as int, skipped.len() as int + asked.len()) == asked);
    lemma_read_asked(b, at, b.len() as int, host);
}

/// A ClientHello that asks for the server called `host` is read as asking for
/// it, in small letters, whatever extensions stand before and whatever bytes
/// stand after that request.
pub proof fn law_server_name_is_read(
    head: Seq<u8>,
    session: Seq<u8>,
    ciphers: Seq<u8>,
    compression: Seq<u8>,
    before: Seq<(u16, Seq<u8>)>,
    host: Seq<u8>,
    after: Seq<u8>,
)
    requires
        client_hello_parts(
            head,
            session,
            ciphers,
            compression,
            extensions(before) + server_name_extension(host) + after,
        ),
        other_extensions(before),
    ensures
        sni(
            client_hello(
                head,
                session,
                ciphers,
                compression,
                extensions(before) + server_name_extension(host) + after,
            ),
        ) == name_text(host),
{
    let exts = extensions(before) + server_name_extension(host) + after;
    let b = client_hello(head, session, ciphers, compression, exts);
    lemma_extension_span(head, session, ciphers, compression, exts);
    lemma_read_after_others(b, b.len() - exts.len(), before, host, after);
}

/// A ClientHello without a server name extension asks for no server.
pub proof fn law_no_server_name(
    head: Seq<u8>,
    session: Seq<u8>,
    ciphers: Seq<u8>,
    compression: Seq<u8>,
    list: Seq<(u16, Seq<u8>)>,
)
    requires
        client_hello_parts(head, session, ciphers, compression, extensions(list)),
        other_extensions(list),
    ensures
        sni(client_hello(head, session, ciphers, compression, extensions(list))) is None,
{
    let exts = extensions(list);
    let b = client_hello(head, session, ciphers, compression, exts);
    let start = b.len() - exts.len();
    lemma_extension_span(head, session, ciphers, compression, exts);
    assert(b.subrange(start, b.len() as int) == b.skip(start));
    lemma_skip_others(b, start, b.len() as int, list);
}

/// Whether `name` is `host` with its capitals made small: as long as it, and the
/// same character by character but for that.
pub open spec fn is_host(name: Seq<char>, host: Seq<char>) -> bool {
    &&& name.len() == host.len()
    &&& forall|i: int|
        #![trigger name[i]]
        0 <= i < host.len() ==> name[i] as int == if 65 <= host[i] as int <= 90 {
            host[i] as int + 32
        } else {
            host[i] as int
        }
}

proof fn lemma_name_text(host: Seq<char>)
    ensures
        name_text(encode_utf8(host)) matches Some(name) && is_host(name, host),
{
    encode_utf8_valid_utf8(host);
    encode_utf8_decode_utf8(host);
    law_capitals_become_small(host);
}

/// The whole name of the server is read: every character of it, in order, with
/// capitals made small.
pub proof fn law_whole_name_is_read(
    head: Seq<u8>,
    session: Seq<u8>,
    ciphers: Seq<u8>,
    compression: Seq<u8>,
    before: Seq<(u16, Seq<u8>)>,
    host: Seq<char>,
    after: Seq<u8>,
)
    requires
        client_hello_parts(
            head,
            session,
            ciphers,
            compression,
            extensions(before) + server_name_extension(encode_utf8(host)) + after,
        ),
        other_extensions(before),
    ensures
        sni(
            client_hello(
                head,
                session,
                ciphers,
                compression,
                extensions(before) + server_name_extension(encode_utf8(host)) + after,
            ),
        ) matches Some(name) && is_host(name, host),
{
    law_server_name_is_read(
        head,
        session,
        ciphers,
        compression,
        before,
        encode_utf8(host),
        after,
    );
    lemma_name_text(host);
}

/// A name that is no text is no name.
pub proof fn law_bytes_that_are_no_text_are_no_name(
    head: Seq<u8>,
    session: Seq<u8>,
    ciphers: Seq<u8>,
    compression: Seq<u8>,
    before: Seq<(u16, Seq<u8>)>,
    host: Seq<u8>,
    after: Seq<u8>,
)
    requires
        client_hello_parts(
            head,
            session,
            ciphers,
            compression,
            extensions(before) + server_name_extension(host) + after,
        ),
        other_extensions(before),
        !valid_utf8(host),
    ensures
        sni(
            client_hello(
                head,
                session,
                ciphers,
                compression,
                extensions(before) + server_name_extension(host) + after,
            ),
        ) is None,
{
    law_server_name_is_read(head, session, ciphers, compression, before, host, after);
}

/// An entry of a server name list.
pub open spec fn name_entry(kind: u8, name: Seq<u8>) -> Seq<u8> {
    seq![kind] + be16_bytes(name.len()) + name
}

/// Some entries of a server name list, one after another.
pub open spec fn name_entries(list: Seq<(u8, Seq<u8>)>) -> Seq<u8>
    decreases list.len(),
{
    if list.len() == 0 {
        Seq::empty()
    } else {
        name_entry(list[0].0, list[0].1) + name_entries(list.skip(1))
    }
}

/// Whether `list` holds entries of other types than host name, each of them short
/// enough for its length field.
pub open spec fn other_names(list: Seq<(u8, Seq<u8>)>) -> bool {
    forall|i: int| 0 <= i < list.len() ==> (#[trigger] list[i]).0 != 0 && list[i].1.len() <= 0xffff
}

proof fn lemma_skip_names(b: Seq<u8>, at: int, end: int, list: Seq<(u8, Seq<u8>)>)
    requires
        0 <= at,
        at + name_entries(list).len() <= end <= b.len(),
        b.subrange(at, at + name_entries(list).len()) == name_entries(list),
        other_names(list),
    ensures
        host_name(b, at, end) == host_name(b, at + name_entries(list).len(), end),
    decreases list.len(),
{
    if list.len() > 0 {
        let first = name_entry(list[0].0, list[0].1);
        let rest = name_entries(list.skip(1));
        let all = name_entries(list);
        let next = at + first.len();
        assert(all == first + rest);
        assert(first.len() == 3 + list[0].1.len());
        let here = b.subrange(at, at + all.len());
        assert(b[at] == here[0]);
        assert(here[0] == list[0].0);
        assert(b.subrange(at + 1, at + 3) == here.subrange(1, 3));
        assert(here.subrange(1, 3) == be16_bytes(list[0].1.len()));
        lemma_be16_bytes(b, at + 1, list[0].1.len());
        assert(b.subrange(next, next + rest.len()) == here.subrange(
            first.len() as int,
            all.len() as int,
        ));
        assert(here.subrange(first.len() as int, all.len() as int) == rest);
        lemma_skip_names(b, next, end, list.skip(1));
    }
}

/// The head of an extension at `at` that holds `body`.
proof fn lemma_extension_head(b: Seq<u8>, at: int, kind: u16, body: Seq<u8>)
    requires
        0 <= at,
        at + extension(kind, body).len() <= b.len(),
        b.subrange(at, at + extension(kind, body).len()) == extension(kind, body),
        body.len() <= 0xffff,
    ensures
        extension(kind, body).len() == 4 + body.len(),
        be16(b, at) == kind,
        be16(b, at + 2) == body.len(),
        b.subrange(at + 4, at + 4 + body.len()) == body,
{
    let e = extension(kind, body);
    let here = b.subrange(at, at + e.len());
    assert(e.len() == 4 + body.len());
    assert(b.subrange(at, at + 2) == here.subrange(0, 2));
    assert(here.subrange(0, 2) == be16_bytes(kind as nat));
    lemma_be16_bytes(b, at, kind as nat);
    assert(b.subrange(at + 2, at + 4) == here.subrange(2, 4));
    assert(here.subrange(2, 4) == be16_bytes(body.len()));
    lemma_be16_bytes(b, at + 2, body.len());
    assert(b.subrange(at + 4, at + 4 + body.len()) == here.subrange(4, 4int + body.len()));
    assert(here.subrange(4, 4int + body.len()) == body);
}

/// The first host name in a list is read, behind entries of other types and
/// before whatever follows it.
proof fn lemma_read_listed(
    b: Seq<u8>,
    at: int,
    end: int,
    field: Seq<u8>,
    others: Seq<(u8, Seq<u8>)>,
    host: Seq<u8>,
    rest: Seq<u8>,
)
    requires
        ({
            let body = field + name_entries(others) + name_entry(0, host) + rest;
            &&& 0 <= at
            &&& at + extension(0, body).len() <= end <= b.len()
            &&& b.subrange(at, at + extension(0, body).len()) == extension(0, body)
            &&& body.len() <= 0xffff
        }),
        field.len() == 2,
        other_names(others),
    ensures
        server_name(b, at, end) == name_text(host),
{
    let skipped = name_entries(others);
    let entry = name_entry(0, host);
    let body = field + skipped + entry + rest;
    lemma_extension_head(b, at, 0, body);
    let inner = b.subrange(at + 4, at + 4 + body.len());
    let stop = at + 4 + body.len() as int;
    let list = at + 6;
    let here = list + skipped.len() as int;
    assert(entry.len() == 3 + host.len());
    assert(b.subrange(list, here) == inner.subrange(2, 2int + skipped.len()));
    assert(inner.subrange(2, 2int + skipped.len()) == skipped);
    lemma_skip_names(b, list, stop, others);
    let e = inner.subrange(2int + skipped.len(), 2int + skipped.len() + entry.len());
    assert(e == entry);
    assert(b.subrange(here, here + entry.len()) == e);
    assert(b[here] == e[0]);
    assert(b.subrange(here + 1, here + 3) == e.subrange(1, 3));
    assert(e.subrange(1, 3) == be16_bytes(host.len()));
    lemma_be16_bytes(b, here + 1, host.len());
    assert(b.subrange(here + 3, here + 3 + host.len()) == e.subrange(3, 3int + host.len()));
    assert(e.subrange(3, 3int + host.len()) == host);
    assert(host_name(b, here, stop) == Some(name_text(host)));
}

/// The first host name of the list is read whole, whatever entries of other types
/// stand before it and whatever stands behind it.
pub proof fn law_first_host_name_counts(
    head: Seq<u8>,
    session: Seq<u8>,
    ciphers: Seq<u8>,
    compression: Seq<u8>,
    before: Seq<(u16, Seq<u8>)>,
    field: Seq<u8>,
    others: Seq<(u8, Seq<u8>)>,
    host: Seq<char>,
    rest: Seq<u8>,
    after: Seq<u8>,
)
    requires
        ({
            let body = field + name_entries(others) + name_entry(0, encode_utf8(host)) + rest;
            client_hello_parts(
                head,
                session,
                ciphers,
                compression,
                extensions(before) + extension(0, body) + after,
            )
        }),
        other_extensions(before),
        other_names(others),
        field.len() == 2,
    ensures
        ({
            let body = field + name_entries(others) + name_entry(0, encode_utf8(host)) + rest;
            sni(
                client_hello(
                    head,
                    session,
                    ciphers,
                    compression,
                    extensions(before) + extension(0, body) + after,
                ),
            ) matches Some(name) && is_host(name, host)
        }),
{
    let bytes = encode_utf8(host);
    let body = field + name_entries(others) + name_entry(0, bytes) + rest;
    let asked = extension(0, body);
    let skipped = extensions(before);
    let exts = skipped + asked + after;
    let b = client_hello(head, session, ciphers, compression, exts);
    let start = b.len() - exts.len();
    lemma_extension_span(head, session, ciphers, compression, exts);
    let tail = b.skip(start);
    let at = start + skipped.len();
    assert(asked.len() == 4 + body.len());
    assert(b.subrange(start, at) == tail.subrange(0, skipped.len() as int));
    assert(tail.subrange(0, skipped.len() as int) == skipped);
    lemma_skip_others(b, start, b.len() as int, before);
    assert(b.subrange(at, at + asked.len()) == tail.subrange(
        skipped.len() as int,
        skipped.len() as int + asked.len(),
    ));
    assert(tail.subrange(skipped.len() as int, skipped.len() as int + asked.len()) == asked);
    lemma_read_listed(b, at, b.len() as int, field, others, bytes, rest);
    lemma_name_text(host);
}

/// A list without a host name is passed over: what counts is what the extensions
/// behind it ask for.
pub proof fn law_list_without_host_name_is_passed_over(
    b: Seq<u8>,
    at: int,
    end: int,
    field: Seq<u8>,
    others: Seq<(u8, Seq<u8>)>,
)
    requires
        ({
            let body = field + name_entries(others);
            &&& 0 <= at
            &&& at + extension(0, body).len() <= end <= b.len()
            &&& b.subrange(at, at + extension(0, body).len()) == extension(0, body)
            &&& body.len() <= 0xffff
        }),
        field.len() == 2,
        other_names(others),
    ensures
        server_name(b, at, end) == server_name(
            b,
            at + 4 + (field + name_entries(others)).len(),
            end,
        ),
{
    let listed = name_entries(others);
    let body = field + listed;
    lemma_extension_head(b, at, 0, body);
    let inner = b.subrange(at + 4, at + 4 + body.len());
    assert(b.subrange(at + 6, at + 6 + listed.len()) == inner.subrange(2, 2int + listed.len()));
    assert(inner.subrange(2, 2int + listed.len()) == listed);
    lemma_skip_names(b, at + 6, at + 6 + listed.len(), others);
}

/// What is no handshake record, or no ClientHello, or too short for one, asks for
/// no server.
pub proof fn law_other_records_ask_for_no_server(b: Seq<u8>)
    requires
        b.len() < 44 || b[0] != 0x16 || b[5] != 0x01,
    ensures
        sni(b) is None,
{
}

proof fn lemma_broken_extensions(
    b: Seq<u8>,
    at: int,
    n: int,
    list: Seq<(u16, Seq<u8>)>,
    host: Seq<u8>,
)
    requires
        0 <= at <= n <= b.len(),
        n < at + extensions(list).len() + server_name_extension(host).len(),
        at + extensions(list).len() + server_name_extension(host).len() <= b.len(),
        b.subrange(
            at,
            at + extensions(list).len() + server_name_extension(host).len(),
        ) == extensions(list) + server_name_extension(host),
        other_extensions(list),
        host.len() + 5 <= 0xffff,
    ensures
        server_name(b.take(n), at, n) is None,
    decreases list.len(),
{
    let cut = b.take(n);
    let asked = server_name_extension(host);
    let whole = extensions(list) + asked;
    let here = b.subrange(at, at + whole.len());
    if at + 4 <= n {
        if list.len() == 0 {
            let body = be16_bytes(host.len() + 3) + seq![0u8] + be16_bytes(host.len()) + host;
            assert(whole == asked);
            assert(asked == extension(0, body));
            lemma_extension_head(b, at, 0, body);
            assert(body.len() == host.len() + 5);
            assert(cut[at] == b[at] && cut[at + 1] == b[at + 1] && cut[at + 2] == b[at + 2]
                && cut[at + 3] == b[at + 3]);
        } else {
            let first = extension(list[0].0, list[0].1);
            let rest = extensions(list.skip(1));
            let next = at + first.len();
            assert(whole == first + (rest + asked));
            assert(b.subrange(at, next) == here.subrange(0, first.len() as int));
            assert(here.subrange(0, first.len() as int) == first);
            lemma_extension_head(b, at, list[0].0, list[0].1);
            assert(cut[at] == b[at] && cut[at + 1] == b[at + 1] && cut[at + 2] == b[at + 2]
                && cut[at + 3] == b[at + 3]);
            if next <= n {
                assert(b.subrange(next, next + (rest + asked).len()) == here.subrange(
                    first.len() as int,
                    whole.len() as int,
                ));
                assert(here.subrange(first.len() as int, whole.len() as int) == rest + asked);
                lemma_broken_extensions(b, next, n, list.skip(1), host);
            }
        }
    }
}

/// A ClientHello that breaks off before the end of the server name asks for no
/// server: no part of a name is taken for the name.
pub proof fn law_broken_hello_asks_for_no_server(
    head: Seq<u8>,
    session: Seq<u8>,
    ciphers: Seq<u8>,
    compression: Seq<u8>,
    before: Seq<(u16, Seq<u8>)>,
    host: Seq<u8>,
    after: Seq<u8>,
    n: int,
)
    requires
        client_hello_parts(
            head,
            session,
            ciphers,
            compression,
            extensions(before) + server_name_extension(host) + after,
        ),
        other_extensions(before),
        0 <= n,
        n < client_hello(
            head,
            session,
            ciphers,
            compression,
            extensions(before) + server_name_extension(host),
        ).len(),
    ensures
        sni(
            client_hello(
                head,
                session,
                ciphers,
                compression,
                extensions(before) + server_name_extension(host) + after,
            ).take(n),
        ) is None,
{
    let asked = server_name_extension(host);
    let needed = extensions(before) + asked;
    let exts = needed + after;
    let b = client_hello(head, session, ciphers, compression, exts);
    let cut = b.take(n);
    let at_ciphers = 44 + session.len() as int;
    let at_compression = at_ciphers + 2 + ciphers.len();
    let at_extensions = at_compression + 1 + compression.len();
    let start = at_extensions + 2;
    assert(asked.len() == host.len() + 9);
    assert(exts.len() == needed.len() + after.len());
    assert(b.len() == start + exts.len());
    lemma_extension_span(head, session, ciphers, compression, exts);
    assert(b[43] == session.len());
    assert(b.subrange(at_ciphers, at_ciphers + 2) == be16_bytes(ciphers.len()));
    lemma_be16_bytes(b, at_ciphers, ciphers.len());
    assert(b[at_compression] == compression.len());
    assert(b.subrange(at_extensions, at_extensions + 2) == be16_bytes(exts.len()));
    lemma_be16_bytes(b, at_extensions, exts.len());
    assert forall|i: int| 0 <= i < n implies cut[i] == b[i] by {}
    if n >= start {
        assert(extension_span(cut) == Some((start, n)));
        let tail = b.skip(start);
        assert(b.subrange(start, start + needed.len()) == tail.subrange(0, needed.len() as int));
        assert(tail.subrange(0, needed.len() as int) == needed);
        lemma_broken_extensions(b, start, n, before, host);
    } else {
        assert(extension_span(cut) is None);
    }
}

/// The first record has the five bytes of its header and as many as that says:
/// where it is a handshake record of at most 16384 bytes, and only there.
pub proof fn law_record_length(header: Seq<u8>)
    requires
        header.len() == 5,
    ensures
        match record_len(header) {
            Ok(n) => header[0] == 0x16 && n == 5 + 256 * header[3] + header[4] && n <= 16389,
            Err(f) => f.kind == ErrorKind::InvalidData && (header[0] != 0x16 || 256 * header[3]
                + header[4] > 16384),
        },
{
}

/// A server name extension without room for a list ends the search.
pub proof fn law_missing_list_ends_the_search(b: Seq<u8>, at: int, end: int, body: Seq<u8>)
    requires
        0 <= at,
        at + extension(0, body).len() <= end <= b.len(),
        b.subrange(at, at + extension(0, body).len()) == extension(0, body),
        body.len() < 2,
    ensures
        server_name(b, at, end) is None,
{
    lemma_extension_head(b, at, 0, body);
}

/// An extension or an entry that claims more bytes than there are ends what it
/// stands in, and so does the lack of room for its head.
pub proof fn law_overlong_parts_end_the_search(b: Seq<u8>, at: int, end: int)
    requires
        0 <= at,
        end <= b.len(),
    ensures
        at + 4 > end || at + 4 + 256 * b[at + 2] + b[at + 3] > end ==> server_name(b, at, end)
            is None,
        at + 3 > end || at + 3 + 256 * b[at + 1] + b[at + 2] > end ==> host_name(b, at, end)
            is None,
{
}

proof fn lemma_host_name_reads_between(b: Seq<u8>, c: Seq<u8>, at: int, end: int)
    requires
        0 <= at,
        end <= b.len(),
        end <= c.len(),
        forall|i: int| at <= i < end ==> #[trigger] b[i] == c[i],
    ensures
        host_name(b, at, end) == host_name(c, at, end),
    decreases end - at,
{
    let name = at + 3;
    if name <= end {
        assert(b[at] == c[at] && b[at + 1] == c[at + 1] && b[at + 2] == c[at + 2]);
        let next = name + be16(b, at + 1);
        if next <= end {
            assert(b.subrange(name, next) =~= c.subrange(name, next));
            lemma_host_name_reads_between(b, c, next, end);
        }
    }
}

proof fn lemma_server_name_reads_between(b: Seq<u8>, c: Seq<u8>, at: int, end: int)
    requires
        0 <= at,
        end <= b.len(),
        end <= c.len(),
        forall|i: int| at <= i < end ==> #[trigger] b[i] == c[i],
    ensures
        server_name(b, at, end) == server_name(c, at, end),
    decreases end - at,
{
    let body = at + 4;
    if body <= end {
        assert(b[at] == c[at] && b[at + 1] == c[at + 1] && b[at + 2] == c[at + 2] && b[at + 3]
            == c[at + 3]);
        let next = body + be16(b, at + 2);
        if next <= end {
            if body + 2 <= next {
                lemma_host_name_reads_between(b, c, body + 2, next);
            }
            lemma_server_name_reads_between(b, c, next, end);
        }
    }
}

/// What stands behind the extensions does not matter, and neither does a length
/// field that claims more extensions than there are.
pub proof fn law_only_the_extensions_count(
    head: Seq<u8>,
    session: Seq<u8>,
    ciphers: Seq<u8>,
    compression: Seq<u8>,
    exts: Seq<u8>,
    behind: Seq<u8>,
    claim: nat,
)
    requires
        client_hello_parts(head, session, ciphers, compression, exts),
        exts.len() <= claim <= 0xffff,
    ensures
        ({
            let b = client_hello(head, session, ciphers, compression, exts);
            let front = b.take(b.len() - exts.len() - 2);
            &&& sni(b + behind) == sni(b)
            &&& sni(front + be16_bytes(claim) + exts) == sni(b)
        }),
{
    let b = client_hello(head, session, ciphers, compression, exts);
    let more = b + behind;
    let at_ciphers = 44 + session.len() as int;
    let at_compression = at_ciphers + 2 + ciphers.len();
    let at_extensions = at_compression + 1 + compression.len();
    let start = at_extensions + 2;
    let front = b.take(at_extensions);
    let claimed = front + be16_bytes(claim) + exts;
    assert(b.len() == start + exts.len());
    assert(b.take(b.len() - exts.len() - 2) == front);
    lemma_extension_span(head, session, ciphers, compression, exts);
    assert(b[43] == session.len());
    assert(b.subrange(at_ciphers, at_ciphers + 2) == be16_bytes(ciphers.len()));
    lemma_be16_bytes(b, at_ciphers, ciphers.len());
    assert(b[at_compression] == compression.len());
    assert(b.subrange(at_extensions, at_extensions + 2) == be16_bytes(exts.len()));
    lemma_be16_bytes(b, at_extensions, exts.len());
    assert(b[0] == head[0] && b[5] == head[5]);
    assert forall|i: int| 0 <= i < b.len() implies more[i] == b[i] by {}
    assert(extension_span(more) == Some((start, b.len() as int)));
    lemma_server_name_reads_between(more, b, start, b.len() as int);
    assert forall|i: int| 0 <= i < at_extensions implies claimed[i] == b[i] by {
        assert(claimed[i] == front[i]);
    }
    assert forall|i: int| start <= i < b.len() implies claimed[i] == b[i] by {
        assert(claimed[i] == exts[i - start]);
        assert(b.skip(start)[i - start] == exts[i - start]);
    }
    assert(claimed.subrange(at_extensions, at_extensions + 2) == be16_bytes(claim));
    lemma_be16_bytes(claimed, at_extensions, claim);
    assert(extension_span(claimed) == Some((start, b.len() as int)));
    lemma_server_name_reads_between(claimed, b, start, b.len() as int);
}

/// The name that is read is the text that was found, and none where none was.
pub proof fn law_found_name_is_kept(name: String)
    ensures
        text_view(Some(name)) == Some(name@),
        text_view(None) is None,
{
}

} // verus!
