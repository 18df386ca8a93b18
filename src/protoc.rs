//! Frame layout, encoding and decoding.
//!
//! A frame is laid out as follows, every integer big-endian:
//! status byte (top bit set, low seven bits the application status),
//! protocol version (1 byte), file count (8 bytes), then per file the name
//! length (2 bytes), the name, the data length (8 bytes) and the data, and
//! last the message length (8 bytes) and the message.
use vstd::prelude::*;
use vstd::slice::{slice_subrange, slice_to_vec};

verus! {

/// Status values with a meaning fixed by the protocol.
pub enum StatusCode {
    /// The value of the marker bit at the top of every status byte.
    FirstBit,
    /// The application status of a keepalive frame.
    Ping,
}

impl StatusCode {
    pub open spec fn spec_value(self) -> u8 {
        match self {
            StatusCode::FirstBit => 1,
            StatusCode::Ping => 2,
        }
    }

    /// The numeric value of this status code.
    pub fn value(&self) -> (r: u8)
        ensures
            r == self.spec_value(),
    {
        match self {
            StatusCode::FirstBit => 1,
            StatusCode::Ping => 2,
        }
    }
}

/// A named binary attachment.
#[derive(Debug)]
pub struct File {
    pub name: Vec<u8>,
    pub data: Vec<u8>,
}

/// The mathematical form of an attachment: its name and its data.
pub type Attachment = (Seq<u8>, Seq<u8>);

impl File {
    pub open spec fn model(&self) -> Attachment {
        (self.name@, self.data@)
    }

    pub fn new(name: Vec<u8>, data: Vec<u8>) -> (r: File)
        ensures
            r.name@ == name@,
            r.data@ == data@,
    {
        File { name, data }
    }
}

/// The attachments held by a list of files, in order.
pub open spec fn attachments_of(files: Seq<File>) -> Seq<Attachment> {
    files.map_values(|f: File| f.model())
}

/// The attachments held by a list of borrowed files, in order.
pub open spec fn attachments_of_refs(files: Seq<&File>) -> Seq<Attachment> {
    files.map_values(|f: &File| f.model())
}

/// The frame value that a decode produces, apart from its wire encoding.
pub struct FrameModel {
    pub app_status: u8,
    pub protocol_version: u8,
    pub files: Seq<Attachment>,
    pub message: Seq<u8>,
}

/// Errors of the codec and of the transport.
#[derive(PartialEq, Eq, Structural, Debug, Clone, Copy)]
pub enum FrameError {
    /// The first byte of a frame did not have its marker bit set; it holds
    /// the value of that bit (always 0).
    InvalidStartByte(u8),
    /// The connection ended before the requested bytes arrived.
    ConnectionClosed,
    /// An attachment name is longer than 65535 bytes.
    NameTooLong,
}

// ---------------------------------------------------------------- encoding

/// Big-endian bytes of a 16-bit integer.
pub open spec fn be16(x: u16) -> Seq<u8> {
    seq![(x >> 8) as u8, x as u8]
}

/// Big-endian bytes of a 64-bit integer.
pub open spec fn be64(x: u64) -> Seq<u8> {
    seq![
        (x >> 56) as u8,
        (x >> 48) as u8,
        (x >> 40) as u8,
        (x >> 32) as u8,
        (x >> 24) as u8,
        (x >> 16) as u8,
        (x >> 8) as u8,
        x as u8,
    ]
}

/// The 16-bit integer stored big-endian at position `p` of `s`.
pub open spec fn read_be16(s: Seq<u8>, p: int) -> u16 {
    ((s[p] as u16) << 8u16) | (s[p + 1] as u16)
}

/// The 64-bit integer stored big-endian at position `p` of `s`.
pub open spec fn read_be64(s: Seq<u8>, p: int) -> u64 {
    ((s[p] as u64) << 56u64) | ((s[p + 1] as u64) << 48u64) | ((s[p + 2] as u64) << 40u64) | ((
    s[p + 3] as u64) << 32u64) | ((s[p + 4] as u64) << 24u64) | ((s[p + 5] as u64) << 16u64) | ((
    s[p + 6] as u64) << 8u64) | (s[p + 7] as u64)
}

/// Wire form of one attachment.
pub open spec fn encode_file(f: Attachment) -> Seq<u8> {
    be16(f.0.len() as u16) + f.0 + be64(f.1.len() as u64) + f.1
}

/// Wire form of a list of attachments, one after the other.
pub open spec fn encode_files(fs: Seq<Attachment>) -> Seq<u8>
    decreases fs.len(),
{
    if fs.len() == 0 {
        Seq::empty()
    } else {
        encode_files(fs.drop_last()) + encode_file(fs.last())
    }
}

/// Wire form of a whole frame.
pub open spec fn encode_frame(
    app_status: u8,
    protocol_version: u8,
    files: Seq<Attachment>,
    message: Seq<u8>,
) -> Seq<u8> {
    seq![app_status | 0x80u8, protocol_version] + be64(files.len() as u64) + encode_files(files)
        + be64(message.len() as u64) + message
}

/// Every attachment name fits the 16-bit length field.
pub open spec fn names_fit(files: Seq<Attachment>) -> bool {
    forall|i: int| 0 <= i < files.len() ==> (#[trigger] files[i]).0.len() <= 0xffff
}

fn push_be16(buf: &mut Vec<u8>, x: u16)
    ensures
        final(buf)@ == old(buf)@ + be16(x),
{
    buf.push((x >> 8) as u8);
    buf.push(x as u8);
    assert(final(buf)@ =~= old(buf)@ + be16(x));
}

fn push_be64(buf: &mut Vec<u8>, x: u64)
    ensures
        final(buf)@ == old(buf)@ + be64(x),
{
    buf.push((x >> 56) as u8);
    buf.push((x >> 48) as u8);
    buf.push((x >> 40) as u8);
    buf.push((x >> 32) as u8);
    buf.push((x >> 24) as u8);
    buf.push((x >> 16) as u8);
    buf.push((x >> 8) as u8);
    buf.push(x as u8);
    assert(final(buf)@ =~= old(buf)@ + be64(x));
}

fn push_all(buf: &mut Vec<u8>, src: &[u8])
    ensures
        final(buf)@ == old(buf)@ + src@,
{
    let mut i: usize = 0;
    while i < src.len()
        invariant
            i <= src@.len(),
            buf@ == old(buf)@ + src@.subrange(0, i as int),
        decreases src@.len() - i,
    {
        buf.push(src[i]);
        i = i + 1;
        assert(buf@ =~= old(buf)@ + src@.subrange(0, i as int));
    }
    assert(src@.subrange(0, i as int) =~= src@);
}

/// Encodes a frame. Fails with `NameTooLong`, and encodes nothing, when an
/// attachment name does not fit in 16 bits.
pub fn build_raw_bytes(
    app_status: u8,
    protocol_version: u8,
    files: &Vec<&File>,
    message: &Vec<u8>,
) -> (r: Result<Vec<u8>, FrameError>)
    ensures
        match r {
            Ok(bytes) => names_fit(attachments_of_refs(files@)) && bytes@ == encode_frame(
                app_status,
                protocol_version,
                attachments_of_refs(files@),
                message@,
            ),
            Err(e) => !names_fit(attachments_of_refs(files@)) && e == FrameError::NameTooLong,
        },
{
    let ghost fs = attachments_of_refs(files@);
    let mut bytes: Vec<u8> = Vec::new();
    bytes.push(app_status | 0x80u8);
    bytes.push(protocol_version);
    push_be64(&mut bytes, files.len() as u64);
    let ghost header = bytes@;
    let mut i: usize = 0;
    while i < files.len()
        invariant
            i <= files@.len(),
            fs == attachments_of_refs(files@),
            names_fit(fs.take(i as int)),
            bytes@ == header + encode_files(fs.take(i as int)),
        decreases files@.len() - i,
    {
        let file: &File = files[i];
        if file.name.len() > 0xffff {
            assert(fs[i as int].0.len() > 0xffff);
            return Err(FrameError::NameTooLong);
        }
        push_be16(&mut bytes, file.name.len() as u16);
        push_all(&mut bytes, file.name.as_slice());
        push_be64(&mut bytes, file.data.len() as u64);
        push_all(&mut bytes, file.data.as_slice());
        proof {
            let t = fs.take(i + 1);
            assert(t.drop_last() =~= fs.take(i as int));
            assert(t.last() == fs[i as int]);
            assert(names_fit(t)) by {
                assert forall|j: int| 0 <= j < t.len() implies (#[trigger] t[j]).0.len() <= 0xffff by {
                    if j < i {
                        assert(fs.take(i as int)[j] == t[j]);
                    }
                }
            }
        }
        i = i + 1;
    }
    assert(fs.take(i as int) =~= fs);
    push_be64(&mut bytes, message.len() as u64);
    push_all(&mut bytes, message.as_slice());
    Ok(bytes)
}

/// The attachments that an optional file list stands for: none when absent.
pub open spec fn optional_attachments(files: Option<&Vec<&File>>) -> Seq<Attachment> {
    match files {
        Some(v) => attachments_of_refs(v@),
        None => Seq::empty(),
    }
}

/// The message that an optional message stands for: empty when absent.
pub open spec fn optional_message(message: Option<&Vec<u8>>) -> Seq<u8> {
    match message {
        Some(m) => m@,
        None => Seq::empty(),
    }
}

/// Encodes a frame with application status 0 and protocol version 1; an
/// absent file list or message counts as empty.
pub fn build_bytes(files: Option<&Vec<&File>>, message: Option<&Vec<u8>>) -> (r: Result<
    Vec<u8>,
    FrameError,
>)
    ensures
        match r {
            Ok(bytes) => names_fit(optional_attachments(files)) && bytes@ == encode_frame(
                0,
                1,
                optional_attachments(files),
                optional_message(message),
            ),
            Err(e) => !names_fit(optional_attachments(files)) && e == FrameError::NameTooLong,
        },
{
    let no_files: Vec<&File> = Vec::new();
    let no_message: Vec<u8> = Vec::new();
    let f: &Vec<&File> = match files {
        Some(v) => v,
        None => &no_files,
    };
    let m: &Vec<u8> = match message {
        Some(v) => v,
        None => &no_message,
    };
    proof {
        if files is None {
            assert(attachments_of_refs(f@) =~= Seq::empty());
        }
    }
    build_raw_bytes(0, 1, f, m)
}

/// Encodes a frame that carries `message` and no files.
pub fn build_bytes_for_message(message: &Vec<u8>) -> (r: Vec<u8>)
    ensures
        r@ == encode_frame(0, 1, Seq::empty(), message@),
{
    match build_bytes(None, Some(message)) {
        Ok(bytes) => bytes,
        Err(_) => {
            assert(names_fit(Seq::<Attachment>::empty()));
            Vec::new()
        },
    }
}

/// Encodes a frame that carries `files` and an empty message. Fails with
/// `NameTooLong` when a file name does not fit in 16 bits.
pub fn build_bytes_for_files(files: &Vec<&File>) -> (r: Result<Vec<u8>, FrameError>)
    ensures
        match r {
            Ok(bytes) => names_fit(attachments_of_refs(files@)) && bytes@ == encode_frame(
                0,
                1,
                attachments_of_refs(files@),
                Seq::empty(),
            ),
            Err(e) => !names_fit(attachments_of_refs(files@)) && e == FrameError::NameTooLong,
        },
{
    build_bytes(Some(files), None)
}

/// Encodes the keepalive frame: application status `Ping`, protocol
/// version 1, no files and an empty message.
pub fn build_ping_bytes() -> (r: Vec<u8>)
    ensures
        r@ == encode_frame(StatusCode::Ping.spec_value(), 1, Seq::empty(), Seq::empty()),
{
    let no_files: Vec<&File> = Vec::new();
    let no_message: Vec<u8> = Vec::new();
    let status = StatusCode::Ping.value();
    proof {
        assert(attachments_of_refs(no_files@) =~= Seq::empty());
    }
    match build_raw_bytes(status, 1, &no_files, &no_message) {
        Ok(bytes) => bytes,
        Err(_) => {
            assert(names_fit(Seq::<Attachment>::empty()));
            Vec::new()
        },
    }
}

// ---------------------------------------------------------------- decoding

/// Reads one attachment starting at position `q`: its contents and the
/// position after it, or `None` when `s` ends before the attachment does.
pub open spec fn parse_file(s: Seq<u8>, q: int) -> Option<(Attachment, int)> {
    if q + 2 > s.len() {
        None
    } else {
        let a = q + 2 + read_be16(s, q) as int;
        if a + 8 > s.len() {
            None
        } else {
            let b = a + 8 + read_be64(s, a) as int;
            if b > s.len() {
                None
            } else {
                Some(((s.subrange(q + 2, a), s.subrange(a + 8, b)), b))
            }
        }
    }
}

/// Reads `count` attachments one after the other starting at position `p`.
pub open spec fn parse_files(s: Seq<u8>, p: int, count: nat) -> Option<(Seq<Attachment>, int)>
    decreases count,
{
    if count == 0 {
        Some((Seq::empty(), p))
    } else {
        match parse_files(s, p, (count - 1) as nat) {
            Some((fs, q)) => match parse_file(s, q) {
                Some((f, r)) => Some((fs.push(f), r)),
                None => None,
            },
            None => None,
        }
    }
}

/// What reading one frame from the start of a byte sequence gives.
pub enum FrameParse {
    /// A whole frame, and the number of bytes it takes.
    Complete(FrameModel, nat),
    /// The first byte lacks the marker bit; the value of that bit.
    BadMarker(u8),
    /// The bytes end before the frame does.
    Incomplete,
}

/// The frame at the start of `s`.
pub open spec fn parse_frame(s: Seq<u8>) -> FrameParse {
    if s.len() < 1 {
        FrameParse::Incomplete
    } else if s[0] & 0x80u8 == 0 {
        FrameParse::BadMarker(s[0] >> 7u8)
    } else if s.len() < 10 {
        FrameParse::Incomplete
    } else {
        match parse_files(s, 10, read_be64(s, 2) as nat) {
            None => FrameParse::Incomplete,
            Some((fs, q)) => if q + 8 > s.len() {
                FrameParse::Incomplete
            } else {
                let e = q + 8 + read_be64(s, q) as int;
                if e > s.len() {
                    FrameParse::Incomplete
                } else {
                    FrameParse::Complete(
                        FrameModel {
                            app_status: s[0] & 0x7fu8,
                            protocol_version: s[1],
                            files: fs,
                            message: s.subrange(q + 8, e),
                        },
                        e as nat,
                    )
                }
            },
        }
    }
}

/// A decoded frame.
#[derive(Debug)]
pub struct DecodedResponse {
    /// The marker bit of the status byte: 1 in every decoded frame.
    pub status: u8,
    pub app_status: u8,
    pub protocol_version: u8,
    pub number_of_files: u64,
    pub files: Vec<File>,
    pub message: Vec<u8>,
}

impl DecodedResponse {
    pub open spec fn model(&self) -> FrameModel {
        FrameModel {
            app_status: self.app_status,
            protocol_version: self.protocol_version,
            files: attachments_of(self.files@),
            message: self.message@,
        }
    }

    /// The header fields agree with the frame's contents.
    pub open spec fn wf(&self) -> bool {
        &&& self.status == 1
        &&& self.number_of_files == self.files@.len()
    }
}

/// Outcome of trying to decode one frame from buffered bytes.
pub enum DecodeStep {
    /// A frame, and the number of bytes it took.
    Complete(DecodedResponse, usize),
    /// The first byte lacks the marker bit; the value of that bit.
    InvalidStartByte(u8),
    /// The bytes end before the frame does.
    NeedMore,
}

impl DecodeStep {
    /// This outcome is the one that `p` describes.
    pub open spec fn agrees_with(&self, p: FrameParse) -> bool {
        match (self, p) {
            (DecodeStep::Complete(resp, n), FrameParse::Complete(f, m)) => {
                &&& resp.wf()
                &&& resp.model() == f
                &&& n == m
            },
            (DecodeStep::InvalidStartByte(b), FrameParse::BadMarker(c)) => *b == c,
            (DecodeStep::NeedMore, FrameParse::Incomplete) => true,
            _ => false,
        }
    }
}

fn read_u16_at(bytes: &[u8], p: usize) -> (r: u16)
    requires
        p + 2 <= bytes@.len(),
    ensures
        r == read_be16(bytes@, p as int),
{
    ((bytes[p] as u16) << 8u16) | (bytes[p + 1] as u16)
}

fn read_u64_at(bytes: &[u8], p: usize) -> (r: u64)
    requires
        p + 8 <= bytes@.len(),
    ensures
        r == read_be64(bytes@, p as int),
{
    ((bytes[p] as u64) << 56u64) | ((bytes[p + 1] as u64) << 48u64) | ((bytes[p + 2] as u64)
        << 40u64) | ((bytes[p + 3] as u64) << 32u64) | ((bytes[p + 4] as u64) << 24u64) | ((bytes[p
        + 5] as u64) << 16u64) | ((bytes[p + 6] as u64) << 8u64) | (bytes[p + 7] as u64)
}

fn copy_range(bytes: &[u8], i: usize, j: usize) -> (r: Vec<u8>)
    requires
        i <= j <= bytes@.len(),
    ensures
        r@ == bytes@.subrange(i as int, j as int),
{
    slice_to_vec(slice_subrange(bytes, i, j))
}

/// Reads the attachment that starts at position `pos`.
fn read_file_at(bytes: &[u8], pos: usize) -> (r: Option<(File, usize)>)
    requires
        pos <= bytes@.len(),
    ensures
        match (r, parse_file(bytes@, pos as int)) {
            (Some((f, n)), Some((a, m))) => f.model() == a && n == m,
            (None, None) => true,
            _ => false,
        },
{
    let len = bytes.len();
    if len - pos < 2 {
        return None;
    }
    let name_len = read_u16_at(bytes, pos) as usize;
    if len - pos - 2 < name_len || len - pos - 2 - name_len < 8 {
        return None;
    }
    let a = pos + 2 + name_len;
    let data_len = read_u64_at(bytes, a);
    if ((len - a - 8) as u64) < data_len {
        return None;
    }
    let b = a + 8 + data_len as usize;
    let name = copy_range(bytes, pos + 2, a);
    let data = copy_range(bytes, a + 8, b);
    Some((File::new(name, data), b))
}

proof fn lemma_parse_files_stays_none(s: Seq<u8>, p: int, k: nat, n: nat)
    requires
        k <= n,
        parse_files(s, p, k) is None,
    ensures
        parse_files(s, p, n) is None,
    decreases n - k,
{
    if k < n {
        lemma_parse_files_stays_none(s, p, k, (n - 1) as nat);
    }
}

/// Decodes the frame at the start of `bytes`, if they hold a whole one.
pub fn decode_frame(bytes: &[u8]) -> (r: DecodeStep)
    ensures
        r.agrees_with(parse_frame(bytes@)),
{
    let len = bytes.len();
    if len < 1 {
        return DecodeStep::NeedMore;
    }
    let first = bytes[0];
    if first & 0x80u8 == 0 {
        return DecodeStep::InvalidStartByte(first >> 7u8);
    }
    if len < 10 {
        return DecodeStep::NeedMore;
    }
    let count = read_u64_at(bytes, 2);
    let mut files: Vec<File> = Vec::new();
    let mut pos: usize = 10;
    let mut i: u64 = 0;
    while i < count
        invariant
            10 <= pos <= bytes@.len(),
            len == bytes@.len(),
            first == bytes@[0],
            first & 0x80u8 != 0,
            i <= count,
            count == read_be64(bytes@, 2),
            files@.len() == i,
            parse_files(bytes@, 10, i as nat) == Some((attachments_of(files@), pos as int)),
        decreases count - i,
    {
        match read_file_at(bytes, pos) {
            None => {
                proof {
                    assert(parse_files(bytes@, 10, (i + 1) as nat) is None);
                    lemma_parse_files_stays_none(bytes@, 10, (i + 1) as nat, count as nat);
                }
                return DecodeStep::NeedMore;
            },
            Some((file, next)) => {
                let ghost before = files@;
                files.push(file);
                pos = next;
                i = i + 1;
                assert(attachments_of(files@) =~= attachments_of(before).push(file.model()));
            },
        }
    }
    if len - pos < 8 {
        return DecodeStep::NeedMore;
    }
    let message_len = read_u64_at(bytes, pos);
    if ((len - pos - 8) as u64) < message_len {
        return DecodeStep::NeedMore;
    }
    let end = pos + 8 + message_len as usize;
    let message = copy_range(bytes, pos + 8, end);
    let resp = DecodedResponse {
        status: 1,
        app_status: first & 0x7fu8,
        protocol_version: bytes[1],
        number_of_files: count,
        files,
        message,
    };
    DecodeStep::Complete(resp, end)
}

// ---------------------------------------------------------------- laws

/// Every length that the frame carries fits its 64-bit field.
pub open spec fn lengths_fit(files: Seq<Attachment>, message: Seq<u8>) -> bool {
    &&& files.len() <= u64::MAX
    &&& message.len() <= u64::MAX
    &&& forall|i: int| 0 <= i < files.len() ==> (#[trigger] files[i]).1.len() <= u64::MAX
}

proof fn lemma_read_be16_of(s: Seq<u8>, p: int, x: u16)
    requires
        0 <= p,
        p + 2 <= s.len(),
        s.subrange(p, p + 2) == be16(x),
    ensures
        read_be16(s, p) == x,
{
    assert(s[p] == s.subrange(p, p + 2)[0]);
    assert(s[p + 1] == s.subrange(p, p + 2)[1]);
    assert(((((x >> 8u16) as u8) as u16) << 8u16) | ((x as u8) as u16) == x) by (bit_vector);
}

proof fn lemma_read_be64_of(s: Seq<u8>, p: int, x: u64)
    requires
        0 <= p,
        p + 8 <= s.len(),
        s.subrange(p, p + 8) == be64(x),
    ensures
        read_be64(s, p) == x,
{
    let t = s.subrange(p, p + 8);
    assert(s[p] == t[0]);
    assert(s[p + 1] == t[1]);
    assert(s[p + 2] == t[2]);
    assert(s[p + 3] == t[3]);
    assert(s[p + 4] == t[4]);
    assert(s[p + 5] == t[5]);
    assert(s[p + 6] == t[6]);
    assert(s[p + 7] == t[7]);
    assert(((((x >> 56u64) as u8) as u64) << 56u64) | ((((x >> 48u64) as u8) as u64) << 48u64) | ((((
    x >> 40u64) as u8) as u64) << 40u64) | ((((x >> 32u64) as u8) as u64) << 32u64) | ((((x
        >> 24u64) as u8) as u64) << 24u64) | ((((x >> 16u64) as u8) as u64) << 16u64) | ((((x
        >> 8u64) as u8) as u64) << 8u64) | ((x as u8) as u64) == x) by (bit_vector);
}

proof fn lemma_parse_file_of(s: Seq<u8>, q: int, f: Attachment)
    requires
        0 <= q,
        q + encode_file(f).len() <= s.len(),
        s.subrange(q, q + encode_file(f).len()) == encode_file(f),
        f.0.len() <= 0xffff,
        f.1.len() <= u64::MAX,
    ensures
        parse_file(s, q) == Some((f, q + encode_file(f).len())),
{
    let e = encode_file(f);
    let nl = f.0.len() as int;
    let dl = f.1.len() as int;
    let a = q + 2 + nl;
    assert(s.subrange(q, q + 2) =~= e.subrange(0, 2));
    assert(e.subrange(0, 2) =~= be16(f.0.len() as u16));
    lemma_read_be16_of(s, q, f.0.len() as u16);
    assert(s.subrange(a, a + 8) =~= e.subrange(2 + nl, 2 + nl + 8));
    assert(e.subrange(2 + nl, 2 + nl + 8) =~= be64(f.1.len() as u64));
    lemma_read_be64_of(s, a, f.1.len() as u64);
    assert(s.subrange(q + 2, a) =~= e.subrange(2, 2 + nl));
    assert(e.subrange(2, 2 + nl) =~= f.0);
    assert(s.subrange(a + 8, a + 8 + dl) =~= e.subrange(2 + nl + 8, e.len() as int));
    assert(e.subrange(2 + nl + 8, e.len() as int) =~= f.1);
}

proof fn lemma_parse_files_of(s: Seq<u8>, p: int, fs: Seq<Attachment>)
    requires
        0 <= p,
        p + encode_files(fs).len() <= s.len(),
        s.subrange(p, p + encode_files(fs).len()) == encode_files(fs),
        names_fit(fs),
        forall|i: int| 0 <= i < fs.len() ==> (#[trigger] fs[i]).1.len() <= u64::MAX,
    ensures
        parse_files(s, p, fs.len()) == Some((fs, p + encode_files(fs).len())),
    decreases fs.len(),
{
    if fs.len() > 0 {
        let init = fs.drop_last();
        let f = fs.last();
        let e = encode_files(fs);
        let n0 = encode_files(init).len() as int;
        assert(e == encode_files(init) + encode_file(f));
        assert(s.subrange(p, p + n0) =~= e.subrange(0, n0));
        assert(e.subrange(0, n0) =~= encode_files(init));
        assert forall|i: int| 0 <= i < init.len() implies (#[trigger] init[i]).0.len() <= 0xffff
            && init[i].1.len() <= u64::MAX by {
            assert(init[i] == fs[i]);
        }
        lemma_parse_files_of(s, p, init);
        assert(s.subrange(p + n0, p + e.len()) =~= e.subrange(n0, e.len() as int));
        assert(e.subrange(n0, e.len() as int) =~= encode_file(f));
        assert(fs[fs.len() - 1] == f);
        lemma_parse_file_of(s, p + n0, f);
        assert(init.push(f) =~= fs);
        assert(((fs.len() - 1) as nat) == init.len());
    }
}

/// Decoding the encoding of a frame, followed by any bytes at all, gives that
/// frame back, field for field, and takes exactly the encoded bytes.
pub proof fn lemma_round_trip(
    app_status: u8,
    protocol_version: u8,
    files: Seq<Attachment>,
    message: Seq<u8>,
    rest: Seq<u8>,
)
    requires
        app_status <= 127,
        names_fit(files),
        lengths_fit(files, message),
    ensures
        parse_frame(encode_frame(app_status, protocol_version, files, message) + rest)
            == FrameParse::Complete(
            FrameModel { app_status, protocol_version, files, message },
            encode_frame(app_status, protocol_version, files, message).len(),
        ),
{
    let e = encode_frame(app_status, protocol_version, files, message);
    let s = e + rest;
    let ef = encode_files(files);
    let q = 10 + ef.len() as int;
    let status = app_status | 0x80u8;
    assert(s[0] == status);
    assert(s[1] == protocol_version);
    assert(status & 0x80u8 != 0) by (bit_vector)
        requires
            status == app_status | 0x80u8,
    ;
    assert(status & 0x7fu8 == app_status) by (bit_vector)
        requires
            app_status <= 127,
            status == app_status | 0x80u8,
    ;
    assert(s.subrange(2, 10) =~= be64(files.len() as u64));
    lemma_read_be64_of(s, 2, files.len() as u64);
    assert(s.subrange(10, q) =~= ef);
    lemma_parse_files_of(s, 10, files);
    assert(s.subrange(q, q + 8) =~= be64(message.len() as u64));
    lemma_read_be64_of(s, q, message.len() as u64);
    assert(s.subrange(q + 8, q + 8 + message.len()) =~= message);
}

/// Two frames sent one after the other come out of the byte stream as those
/// two frames, in that order, with nothing mixed between them.
pub proof fn lemma_two_frames(
    first: FrameModel,
    second: FrameModel,
)
    requires
        first.app_status <= 127,
        names_fit(first.files),
        lengths_fit(first.files, first.message),
        second.app_status <= 127,
        names_fit(second.files),
        lengths_fit(second.files, second.message),
    ensures
        ({
            let a = encode_frame(first.app_status, first.protocol_version, first.files, first.message);
            let b = encode_frame(second.app_status, second.protocol_version, second.files, second.message);
            &&& parse_frame(a + b) == FrameParse::Complete(first, a.len())
            &&& parse_frame((a + b).skip(a.len() as int)) == FrameParse::Complete(second, b.len())
        }),
{
    let a = encode_frame(first.app_status, first.protocol_version, first.files, first.message);
    let b = encode_frame(second.app_status, second.protocol_version, second.files, second.message);
    lemma_round_trip(first.app_status, first.protocol_version, first.files, first.message, b);
    lemma_round_trip(second.app_status, second.protocol_version, second.files, second.message, Seq::empty());
    assert((a + b).skip(a.len() as int) =~= b + Seq::empty());
}

proof fn lemma_parse_file_prefix(s: Seq<u8>, t: Seq<u8>, q: int)
    requires
        0 <= q,
        s.len() <= t.len(),
        t.subrange(0, s.len() as int) == s,
        parse_file(s, q) is Some,
    ensures
        parse_file(t, q) == parse_file(s, q),
{
    assert(s[q] == t.subrange(0, s.len() as int)[q]);
    assert(s[q + 1] == t.subrange(0, s.len() as int)[q + 1]);
    let a = q + 2 + read_be16(s, q) as int;
    assert forall|k: int| 0 <= k < 8 implies #[trigger] s[a + k] == t[a + k] by {
        assert(s[a + k] == t.subrange(0, s.len() as int)[a + k]);
    }
    assert(read_be64(s, a) == read_be64(t, a));
    let b = a + 8 + read_be64(s, a) as int;
    assert(t.subrange(q + 2, a) =~= s.subrange(q + 2, a));
    assert(t.subrange(a + 8, b) =~= s.subrange(a + 8, b));
}

proof fn lemma_parse_files_prefix(s: Seq<u8>, t: Seq<u8>, p: int, n: nat)
    requires
        0 <= p,
        s.len() <= t.len(),
        t.subrange(0, s.len() as int) == s,
        parse_files(s, p, n) is Some,
    ensures
        parse_files(t, p, n) == parse_files(s, p, n),
        parse_files(s, p, n)->Some_0.1 >= p,
    decreases n,
{
    if n > 0 {
        lemma_parse_files_prefix(s, t, p, (n - 1) as nat);
        let q = parse_files(s, p, (n - 1) as nat)->Some_0.1;
        lemma_parse_file_prefix(s, t, q);
    }
}

/// Reading a frame only looks at the bytes that the frame takes: once a
/// prefix of a stream decides the outcome (a frame or a bad marker), any
/// longer stream with that prefix gives the same outcome.
pub proof fn lemma_parse_frame_prefix(s: Seq<u8>, t: Seq<u8>)
    requires
        s.len() <= t.len(),
        t.subrange(0, s.len() as int) == s,
        !(parse_frame(s) is Incomplete),
    ensures
        parse_frame(t) == parse_frame(s),
        parse_frame(s) matches FrameParse::Complete(_, n) ==> n <= s.len(),
{
    assert(s[0] == t.subrange(0, s.len() as int)[0]);
    if s[0] & 0x80u8 != 0 {
        assert forall|k: int| 1 <= k < 10 implies #[trigger] s[k] == t[k] by {
            assert(s[k] == t.subrange(0, s.len() as int)[k]);
        }
        let count = read_be64(s, 2) as nat;
        assert(read_be64(t, 2) == read_be64(s, 2));
        lemma_parse_files_prefix(s, t, 10, count);
        let q = parse_files(s, 10, count)->Some_0.1;
        assert forall|k: int| 0 <= k < 8 implies #[trigger] s[q + k] == t[q + k] by {
            assert(s[q + k] == t.subrange(0, s.len() as int)[q + k]);
        }
        assert(read_be64(s, q) == read_be64(t, q));
        let e = q + 8 + read_be64(s, q) as int;
        assert(t.subrange(q + 8, e) =~= s.subrange(q + 8, e));
    }
}

/// A stream that ends before a whole frame has arrived never decodes: every
/// strict prefix of an encoded frame reads as incomplete, so no partial
/// frame is ever produced.
pub proof fn lemma_truncated_frame_is_incomplete(
    app_status: u8,
    protocol_version: u8,
    files: Seq<Attachment>,
    message: Seq<u8>,
    k: int,
)
    requires
        app_status <= 127,
        names_fit(files),
        lengths_fit(files, message),
        0 <= k < encode_frame(app_status, protocol_version, files, message).len(),
    ensures
        parse_frame(encode_frame(app_status, protocol_version, files, message).take(k))
            is Incomplete,
{
    let e = encode_frame(app_status, protocol_version, files, message);
    let s = e.take(k);
    lemma_round_trip(app_status, protocol_version, files, message, Seq::empty());
    assert(e + Seq::<u8>::empty() =~= e);
    if !(parse_frame(s) is Incomplete) {
        assert(e.subrange(0, s.len() as int) =~= s);
        lemma_parse_frame_prefix(s, e);
    }
}

/// A first byte without the marker bit is rejected at once, whatever follows.
pub proof fn lemma_marker_rejection(s: Seq<u8>)
    requires
        s.len() >= 1,
        s[0] & 0x80u8 == 0,
    ensures
        parse_frame(s) == FrameParse::BadMarker(0),
{
    let b = s[0];
    assert(b & 0x80u8 == 0 ==> b >> 7u8 == 0) by (bit_vector);
}

} // verus!
