//! Wire frames of the continuity protocol: a fixed 48-byte header and a payload.
//!
//! Integers are big-endian. Control frames carry stream id 0, business frames a
//! nonzero one. Unknown frame types, flag bits or directions are refused.
//!
//! ```text
//! offset  size  field
//! 0       4     magic        "DWS1"
//! 4       1     wire version 1
//! 5       1     frame type
//! 6       2     flags
//! 8       16    session id
//! 24      8     stream id
//! 32      1     direction
//! 33      1     reserved     0
//! 34      2     header length 48
//! 36      8     byte offset
//! 44      4     payload length
//! 48      ..    payload
//! ```
use vstd::prelude::*;
use vstd::string::*;

use crate::octets::{
    array_at, be16, be32, be64, be_value, bytes_eq, copy_range, lemma_be_fields, lemma_be_widths,
    push_be, push_bytes, read_be16, read_be32, read_be64,
};
use crate::text::{cat, cat3, decimal, decimal_text, hex_byte, hex_byte_text};

pub mod flags;

verus! {

/// Largest payload of one frame.
pub const MAX_FRAME: usize = 1024 * 1024;

/// Length of the common header.
pub const HEADER_LEN: usize = 48;

/// Wire magic, the ASCII characters `DWS1`.
pub const MAGIC: [u8; 4] = [0x44, 0x57, 0x53, 0x31];

/// Wire version.
pub const WIRE_VERSION: u8 = 1;

/// Frame types.
#[derive(Debug, Clone, Copy, PartialEq, Eq, Structural)]
pub enum FrameType {
    SessionInit,
    ResumeInit,
    ResumeOk,
    ResumeReject,
    Ping,
    Pong,
    SessionFin,
    SessionReset,
    SessionInitOk,
    SessionInitReject,
    Open,
    OpenOk,
    OpenReject,
    Data,
    Ack,
    Fin,
    Reset,
}

/// The wire value of a frame type.
pub open spec fn type_code(t: FrameType) -> u8 {
    match t {
        FrameType::SessionInit => 0x00,
        FrameType::ResumeInit => 0x01,
        FrameType::ResumeOk => 0x02,
        FrameType::ResumeReject => 0x03,
        FrameType::Ping => 0x04,
        FrameType::Pong => 0x05,
        FrameType::SessionFin => 0x06,
        FrameType::SessionReset => 0x07,
        FrameType::SessionInitOk => 0x0A,
        FrameType::SessionInitReject => 0x0B,
        FrameType::Open => 0x10,
        FrameType::OpenOk => 0x11,
        FrameType::OpenReject => 0x12,
        FrameType::Data => 0x20,
        FrameType::Ack => 0x21,
        FrameType::Fin => 0x22,
        FrameType::Reset => 0x23,
    }
}

/// The name of a frame type.
pub open spec fn type_label(t: FrameType) -> Seq<char> {
    match t {
        FrameType::SessionInit => "SessionInit"@,
        FrameType::ResumeInit => "ResumeInit"@,
        FrameType::ResumeOk => "ResumeOk"@,
        FrameType::ResumeReject => "ResumeReject"@,
        FrameType::Ping => "Ping"@,
        FrameType::Pong => "Pong"@,
        FrameType::SessionFin => "SessionFin"@,
        FrameType::SessionReset => "SessionReset"@,
        FrameType::SessionInitOk => "SessionInitOk"@,
        FrameType::SessionInitReject => "SessionInitReject"@,
        FrameType::Open => "Open"@,
        FrameType::OpenOk => "OpenOk"@,
        FrameType::OpenReject => "OpenReject"@,
        FrameType::Data => "Data"@,
        FrameType::Ack => "Ack"@,
        FrameType::Fin => "Fin"@,
        FrameType::Reset => "Reset"@,
    }
}

/// Frame types that belong to a stream.
pub open spec fn is_business(t: FrameType) -> bool {
    type_code(t) >= 0x10
}

/// The frame type of a wire value, if one has it.
pub open spec fn type_of_code(v: u8) -> Option<FrameType> {
    if exists|t: FrameType| type_code(t) == v {
        Some(choose|t: FrameType| type_code(t) == v)
    } else {
        None
    }
}

/// Wire values tell frame types apart.
pub proof fn type_code_is_injective(s: FrameType, t: FrameType)
    requires
        type_code(s) == type_code(t),
    ensures
        s == t,
{
}

impl FrameType {
    /// The wire value.
    pub fn code(self) -> (r: u8)
        ensures
            r == type_code(self),
    {
        match self {
            FrameType::SessionInit => 0x00,
            FrameType::ResumeInit => 0x01,
            FrameType::ResumeOk => 0x02,
            FrameType::ResumeReject => 0x03,
            FrameType::Ping => 0x04,
            FrameType::Pong => 0x05,
            FrameType::SessionFin => 0x06,
            FrameType::SessionReset => 0x07,
            FrameType::SessionInitOk => 0x0A,
            FrameType::SessionInitReject => 0x0B,
            FrameType::Open => 0x10,
            FrameType::OpenOk => 0x11,
            FrameType::OpenReject => 0x12,
            FrameType::Data => 0x20,
            FrameType::Ack => 0x21,
            FrameType::Fin => 0x22,
            FrameType::Reset => 0x23,
        }
    }

    /// The frame type of a wire value.
    pub fn from_u8(v: u8) -> (r: Option<Self>)
        ensures
            r == type_of_code(v),
            match r {
                Some(t) => type_code(t) == v,
                None => forall|t: FrameType| type_code(t) != v,
            },
    {
        let r = match v {
            0x00 => Some(FrameType::SessionInit),
            0x01 => Some(FrameType::ResumeInit),
            0x02 => Some(FrameType::ResumeOk),
            0x03 => Some(FrameType::ResumeReject),
            0x04 => Some(FrameType::Ping),
            0x05 => Some(FrameType::Pong),
            0x06 => Some(FrameType::SessionFin),
            0x07 => Some(FrameType::SessionReset),
            0x0A => Some(FrameType::SessionInitOk),
            0x0B => Some(FrameType::SessionInitReject),
            0x10 => Some(FrameType::Open),
            0x11 => Some(FrameType::OpenOk),
            0x12 => Some(FrameType::OpenReject),
            0x20 => Some(FrameType::Data),
            0x21 => Some(FrameType::Ack),
            0x22 => Some(FrameType::Fin),
            0x23 => Some(FrameType::Reset),
            _ => None,
        };
        proof {
            match r {
                Some(t) => {
                    assert(type_code(t) == v);
                    type_code_is_injective(t, type_of_code(v)->0);
                },
                None => {},
            }
        }
        r
    }

    /// The name of the frame type.
    pub fn name(self) -> (r: &'static str)
        ensures
            r@ == type_label(self),
    {
        match self {
            FrameType::SessionInit => "SessionInit",
            FrameType::ResumeInit => "ResumeInit",
            FrameType::ResumeOk => "ResumeOk",
            FrameType::ResumeReject => "ResumeReject",
            FrameType::Ping => "Ping",
            FrameType::Pong => "Pong",
            FrameType::SessionFin => "SessionFin",
            FrameType::SessionReset => "SessionReset",
            FrameType::SessionInitOk => "SessionInitOk",
            FrameType::SessionInitReject => "SessionInitReject",
            FrameType::Open => "Open",
            FrameType::OpenOk => "OpenOk",
            FrameType::OpenReject => "OpenReject",
            FrameType::Data => "Data",
            FrameType::Ack => "Ack",
            FrameType::Fin => "Fin",
            FrameType::Reset => "Reset",
        }
    }

    /// Control frames, whose stream id is 0.
    pub fn is_control(self) -> (r: bool)
        ensures
            r == !is_business(self),
    {
        match self {
            FrameType::SessionInit
            | FrameType::SessionInitOk
            | FrameType::SessionInitReject
            | FrameType::ResumeInit
            | FrameType::ResumeOk
            | FrameType::ResumeReject
            | FrameType::Ping
            | FrameType::Pong
            | FrameType::SessionFin
            | FrameType::SessionReset => true,
            _ => false,
        }
    }
}

/// Direction of the data of a stream.
#[derive(Debug, Clone, Copy, PartialEq, Eq, Structural)]
pub enum Direction {
    ClientToProvider,
    ProviderToClient,
}

/// The wire value of a direction.
pub open spec fn direction_code(d: Direction) -> u8 {
    match d {
        Direction::ClientToProvider => 0,
        Direction::ProviderToClient => 1,
    }
}

/// The direction of a wire value, if one has it.
pub open spec fn direction_of_code(v: u8) -> Option<Direction> {
    if v == 0 {
        Some(Direction::ClientToProvider)
    } else if v == 1 {
        Some(Direction::ProviderToClient)
    } else {
        None
    }
}

impl Direction {
    /// The wire value.
    pub fn code(self) -> (r: u8)
        ensures
            r == direction_code(self),
    {
        match self {
            Direction::ClientToProvider => 0,
            Direction::ProviderToClient => 1,
        }
    }

    /// The direction of a wire value.
    pub fn from_u8(v: u8) -> (r: Option<Self>)
        ensures
            r == direction_of_code(v),
    {
        match v {
            0 => Some(Direction::ClientToProvider),
            1 => Some(Direction::ProviderToClient),
            _ => None,
        }
    }
}

/// One frame: the header's fields and the payload.
#[derive(Debug, Clone, PartialEq, Eq)]
pub struct Frame {
    pub frame_type: FrameType,
    pub flags: u16,
    pub session_id: [u8; 16],
    pub stream_id: u64,
    pub direction: Direction,
    pub byte_offset: u64,
    pub payload: Vec<u8>,
}

/// What a [`Frame`] holds.
pub struct FrameView {
    pub frame_type: FrameType,
    pub flags: u16,
    pub session_id: Seq<u8>,
    pub stream_id: u64,
    pub direction: Direction,
    pub byte_offset: u64,
    pub payload: Seq<u8>,
}

impl View for Frame {
    type V = FrameView;

    open spec fn view(&self) -> FrameView {
        FrameView {
            frame_type: self.frame_type,
            flags: self.flags,
            session_id: self.session_id@,
            stream_id: self.stream_id,
            direction: self.direction,
            byte_offset: self.byte_offset,
            payload: self.payload@,
        }
    }
}

/// Why a frame cannot be written or read.
#[derive(Debug, Clone, Copy, PartialEq, Eq, Structural)]
pub enum FrameError {
    TooShort(usize),
    BadMagic,
    BadVersion(u8),
    BadHeaderLen(u16),
    BadReserved,
    UnknownFrameType(u8),
    UnknownFlags(u16),
    PayloadTooLarge(usize, usize),
    LengthMismatch { declared: usize, available: usize },
    ControlWithStreamId(u64),
    BusinessWithZeroStreamId,
    BadDirection(u8),
}

/// The text of a frame error.
pub open spec fn frame_error_text(e: FrameError) -> Seq<char> {
    match e {
        FrameError::TooShort(n) => "frame too short for header: "@ + decimal(n as nat) + "B"@,
        FrameError::BadMagic => "bad magic"@,
        FrameError::BadVersion(v) => "unsupported wire version: "@ + decimal(v as nat),
        FrameError::BadHeaderLen(n) => "header_len must be 48, got "@ + decimal(n as nat),
        FrameError::BadReserved => "reserved must be zero"@,
        FrameError::UnknownFrameType(t) => "unknown frame type: 0x"@ + hex_byte(t),
        FrameError::UnknownFlags(f) => "unknown flag bits: 0x"@ + hex_byte((f / 256) as u8)
            + hex_byte((f % 256) as u8),
        FrameError::PayloadTooLarge(n, m) => "payload exceeds MAX_FRAME: "@ + decimal(n as nat)
            + " > "@ + decimal(m as nat),
        FrameError::LengthMismatch { declared, available } => "declared length "@ + decimal(
            declared as nat,
        ) + " != available "@ + decimal(available as nat),
        FrameError::ControlWithStreamId(id) => "control frame with nonzero stream_id: "@ + decimal(
            id as nat,
        ),
        FrameError::BusinessWithZeroStreamId => "business frame with zero stream_id"@,
        FrameError::BadDirection(b) => "invalid direction byte: "@ + decimal(b as nat),
    }
}

impl FrameError {
    /// The error as text.
    pub fn message(&self) -> (r: String)
        ensures
            r@ == frame_error_text(*self),
    {
        match self {
            FrameError::TooShort(n) => cat3(
                "frame too short for header: ",
                decimal_text(*n as u64).as_str(),
                "B",
            ),
            FrameError::BadMagic => "bad magic".to_owned(),
            FrameError::BadVersion(v) => cat(
                "unsupported wire version: ",
                decimal_text(*v as u64).as_str(),
            ),
            FrameError::BadHeaderLen(n) => cat(
                "header_len must be 48, got ",
                decimal_text(*n as u64).as_str(),
            ),
            FrameError::BadReserved => "reserved must be zero".to_owned(),
            FrameError::UnknownFrameType(t) => cat(
                "unknown frame type: 0x",
                hex_byte_text(*t).as_str(),
            ),
            FrameError::UnknownFlags(f) => cat3(
                "unknown flag bits: 0x",
                hex_byte_text((*f / 256) as u8).as_str(),
                hex_byte_text((*f % 256) as u8).as_str(),
            ),
            FrameError::PayloadTooLarge(n, m) => cat(
                cat3("payload exceeds MAX_FRAME: ", decimal_text(*n as u64).as_str(), " > ").as_str(),
                decimal_text(*m as u64).as_str(),
            ),
            FrameError::LengthMismatch { declared, available } => cat(
                cat3(
                    "declared length ",
                    decimal_text(*declared as u64).as_str(),
                    " != available ",
                ).as_str(),
                decimal_text(*available as u64).as_str(),
            ),
            FrameError::ControlWithStreamId(id) => cat(
                "control frame with nonzero stream_id: ",
                decimal_text(*id).as_str(),
            ),
            FrameError::BusinessWithZeroStreamId => "business frame with zero stream_id".to_owned(),
            FrameError::BadDirection(b) => cat(
                "invalid direction byte: ",
                decimal_text(*b as u64).as_str(),
            ),
        }
    }
}

/// The stream id rule: 0 on control frames and only there.
pub open spec fn stream_id_fault(t: FrameType, stream_id: u64) -> Option<FrameError> {
    if !is_business(t) && stream_id != 0 {
        Some(FrameError::ControlWithStreamId(stream_id))
    } else if is_business(t) && stream_id == 0 {
        Some(FrameError::BusinessWithZeroStreamId)
    } else {
        None
    }
}

/// Why a frame cannot be written, if it cannot.
pub open spec fn frame_fault(f: FrameView) -> Option<FrameError> {
    if f.payload.len() > MAX_FRAME {
        Some(FrameError::PayloadTooLarge(f.payload.len() as usize, MAX_FRAME))
    } else if stream_id_fault(f.frame_type, f.stream_id) is Some {
        stream_id_fault(f.frame_type, f.stream_id)
    } else if f.flags & !flags::KNOWN_MASK != 0 {
        Some(FrameError::UnknownFlags(f.flags & !flags::KNOWN_MASK))
    } else {
        None
    }
}

/// The header of a frame, field by field.
pub open spec fn header_bytes(f: FrameView) -> Seq<u8> {
    MAGIC@ + seq![WIRE_VERSION, type_code(f.frame_type)] + be16(f.flags) + f.session_id + be64(
        f.stream_id,
    ) + seq![direction_code(f.direction), 0u8] + be16(48u16) + be64(f.byte_offset) + be32(
        f.payload.len() as u32,
    )
}

/// A frame on the wire.
pub open spec fn frame_bytes(f: FrameView) -> Seq<u8> {
    header_bytes(f) + f.payload
}

/// The bytes `off..off + n`.
pub open spec fn field(src: Seq<u8>, off: int, n: int) -> Seq<u8> {
    src.subrange(off, off + n)
}

/// What `src` holds at its front: a frame and its length, or the first rule that
/// its header breaks.
pub open spec fn frame_at(src: Seq<u8>) -> Result<(FrameView, int), FrameError> {
    let code = src[5];
    let bits = be_value(field(src, 6, 2)) as u16;
    let stream_id = be_value(field(src, 24, 8)) as u64;
    let header_len = be_value(field(src, 34, 2)) as u16;
    let len = be_value(field(src, 44, 4)) as usize;
    if src.len() < HEADER_LEN {
        Err(FrameError::TooShort(src.len() as usize))
    } else if field(src, 0, 4) != MAGIC@ {
        Err(FrameError::BadMagic)
    } else if src[4] != WIRE_VERSION {
        Err(FrameError::BadVersion(src[4]))
    } else if type_of_code(code) is None {
        Err(FrameError::UnknownFrameType(code))
    } else if bits & !flags::KNOWN_MASK != 0 {
        Err(FrameError::UnknownFlags(bits & !flags::KNOWN_MASK))
    } else if direction_of_code(src[32]) is None {
        Err(FrameError::BadDirection(src[32]))
    } else if src[33] != 0 {
        Err(FrameError::BadReserved)
    } else if header_len != 48 {
        Err(FrameError::BadHeaderLen(header_len))
    } else if len > MAX_FRAME {
        Err(FrameError::PayloadTooLarge(len, MAX_FRAME))
    } else if stream_id_fault(type_of_code(code)->0, stream_id) is Some {
        Err(stream_id_fault(type_of_code(code)->0, stream_id)->0)
    } else if src.len() - HEADER_LEN < len {
        Err(
            FrameError::LengthMismatch {
                declared: len,
                available: (src.len() - HEADER_LEN) as usize,
            },
        )
    } else {
        Ok(
            (
                FrameView {
                    frame_type: type_of_code(code)->0,
                    flags: bits,
                    session_id: field(src, 8, 16),
                    stream_id,
                    direction: direction_of_code(src[32])->0,
                    byte_offset: be_value(field(src, 36, 8)) as u64,
                    payload: field(src, 48, len as int),
                },
                48 + len,
            ),
        )
    }
}

/// Reading a written frame gives the frame back and stops at its end, whatever
/// follows it.
pub proof fn frame_roundtrip(f: FrameView, rest: Seq<u8>)
    requires
        f.session_id.len() == 16,
        frame_fault(f) is None,
    ensures
        frame_at(frame_bytes(f) + rest) == Ok::<(FrameView, int), FrameError>(
            (f, 48 + f.payload.len() as int),
        ),
        frame_bytes(f).len() == 48 + f.payload.len(),
{
    let src = frame_bytes(f) + rest;
    lemma_be_widths(f.flags as u64);
    lemma_be_widths(f.stream_id);
    lemma_be_widths(48);
    lemma_be_widths(f.byte_offset);
    lemma_be_widths(f.payload.len() as u64);
    assert(MAGIC@.len() == 4);
    assert(field(src, 0, 4) =~= MAGIC@);
    assert(src[4] == WIRE_VERSION);
    assert(src[5] == type_code(f.frame_type));
    assert(field(src, 6, 2) =~= be16(f.flags));
    assert(field(src, 8, 16) =~= f.session_id);
    assert(field(src, 24, 8) =~= be64(f.stream_id));
    assert(src[32] == direction_code(f.direction));
    assert(src[33] == 0);
    assert(field(src, 34, 2) =~= be16(48u16));
    assert(field(src, 36, 8) =~= be64(f.byte_offset));
    assert(field(src, 44, 4) =~= be32(f.payload.len() as u32));
    assert(field(src, 48, f.payload.len() as int) =~= f.payload);
    assert(type_code(f.frame_type) == src[5]);
    type_code_is_injective(f.frame_type, type_of_code(src[5])->0);
}

/// A frame that can be read is the frame that wrote the bytes: every frame has
/// one wire form.
pub proof fn frame_is_canonical(src: Seq<u8>)
    requires
        frame_at(src) is Ok,
    ensures
        ({
            let (f, n) = frame_at(src)->Ok_0;
            &&& frame_fault(f) is None
            &&& n == frame_bytes(f).len()
            &&& frame_bytes(f).is_prefix_of(src)
        }),
{
    let (f, n) = frame_at(src)->Ok_0;
    lemma_be_fields(field(src, 6, 2));
    lemma_be_fields(field(src, 24, 8));
    lemma_be_fields(field(src, 34, 2));
    lemma_be_fields(field(src, 36, 8));
    lemma_be_fields(field(src, 44, 4));
    lemma_be_widths(f.flags as u64);
    lemma_be_widths(f.stream_id);
    lemma_be_widths(48);
    lemma_be_widths(f.byte_offset);
    lemma_be_widths(f.payload.len() as u64);
    assert(MAGIC@.len() == 4);
    assert(frame_bytes(f).len() == n);
    let p = src.subrange(0, n);
    assert(p =~= field(src, 0, 4) + seq![src[4], src[5]] + field(src, 6, 2) + field(src, 8, 16)
        + field(src, 24, 8) + seq![src[32], src[33]] + field(src, 34, 2) + field(src, 36, 8)
        + field(src, 44, 4) + f.payload);
    assert(p == frame_bytes(f));
}

impl Frame {
    /// Appends the wire form to `dst`; a frame that breaks a rule leaves `dst` as
    /// it was.
    pub fn encode(&self, dst: &mut Vec<u8>) -> (r: Result<(), FrameError>)
        ensures
            match frame_fault(self@) {
                Some(e) => r == Err::<(), FrameError>(e) && final(dst)@ == old(dst)@,
                None => r is Ok && final(dst)@ == old(dst)@ + frame_bytes(self@),
            },
    {
        if self.payload.len() > MAX_FRAME {
            return Err(FrameError::PayloadTooLarge(self.payload.len(), MAX_FRAME));
        }
        if self.frame_type.is_control() && self.stream_id != 0 {
            return Err(FrameError::ControlWithStreamId(self.stream_id));
        }
        if !self.frame_type.is_control() && self.stream_id == 0 {
            return Err(FrameError::BusinessWithZeroStreamId);
        }
        if self.flags & !flags::KNOWN_MASK != 0 {
            return Err(FrameError::UnknownFlags(self.flags & !flags::KNOWN_MASK));
        }
        let ghost before = dst@;
        push_bytes(dst, &MAGIC);
        dst.push(WIRE_VERSION);
        dst.push(self.frame_type.code());
        push_be(dst, self.flags as u64, 2);
        push_bytes(dst, &self.session_id);
        push_be(dst, self.stream_id, 8);
        dst.push(self.direction.code());
        dst.push(0);
        push_be(dst, 48, 2);
        push_be(dst, self.byte_offset, 8);
        push_be(dst, self.payload.len() as u64, 4);
        push_bytes(dst, self.payload.as_slice());
        assert(dst@ =~= before + frame_bytes(self@));
        Ok(())
    }

    /// The wire form in a buffer of its own.
    pub fn encode_to_vec(&self) -> (r: Result<Vec<u8>, FrameError>)
        ensures
            match frame_fault(self@) {
                Some(e) => r == Err::<Vec<u8>, FrameError>(e),
                None => r is Ok && r->Ok_0@ == frame_bytes(self@),
            },
    {
        let mut buf: Vec<u8> = Vec::new();
        match self.encode(&mut buf) {
            Ok(()) => {
                assert(buf@ =~= frame_bytes(self@));
                Ok(buf)
            },
            Err(e) => Err(e),
        }
    }

    /// Reads one frame from the front of `src`; gives the frame and its length on
    /// the wire. Bytes that do not hold a whole frame are refused: the carrier
    /// owns frame boundaries.
    pub fn decode(src: &[u8]) -> (r: Result<(Frame, usize), FrameError>)
        ensures
            match frame_at(src@) {
                Ok((f, n)) => r is Ok && r->Ok_0.0@ == f && r->Ok_0.1 == n,
                Err(e) => r == Err::<(Frame, usize), FrameError>(e),
            },
    {
        if src.len() < HEADER_LEN {
            return Err(FrameError::TooShort(src.len()));
        }
        let magic = array_at::<4>(src, 0);
        if !bytes_eq(&magic, &MAGIC) {
            return Err(FrameError::BadMagic);
        }
        let version = src[4];
        if version != WIRE_VERSION {
            return Err(FrameError::BadVersion(version));
        }
        let code = src[5];
        let frame_type = match FrameType::from_u8(code) {
            Some(t) => t,
            None => return Err(FrameError::UnknownFrameType(code)),
        };
        let bits: u16 = read_be16(src, 6);
        if bits & !flags::KNOWN_MASK != 0 {
            return Err(FrameError::UnknownFlags(bits & !flags::KNOWN_MASK));
        }
        let session_id = array_at::<16>(src, 8);
        let stream_id: u64 = read_be64(src, 24);
        let direction = match Direction::from_u8(src[32]) {
            Some(d) => d,
            None => return Err(FrameError::BadDirection(src[32])),
        };
        if src[33] != 0 {
            return Err(FrameError::BadReserved);
        }
        let header_len: u16 = read_be16(src, 34);
        if header_len as usize != HEADER_LEN {
            return Err(FrameError::BadHeaderLen(header_len));
        }
        let byte_offset: u64 = read_be64(src, 36);
        let payload_len: usize = read_be32(src, 44) as usize;
        if payload_len > MAX_FRAME {
            return Err(FrameError::PayloadTooLarge(payload_len, MAX_FRAME));
        }
        if frame_type.is_control() && stream_id != 0 {
            return Err(FrameError::ControlWithStreamId(stream_id));
        }
        if !frame_type.is_control() && stream_id == 0 {
            return Err(FrameError::BusinessWithZeroStreamId);
        }
        let available: usize = src.len() - HEADER_LEN;
        if available < payload_len {
            return Err(FrameError::LengthMismatch { declared: payload_len, available });
        }
        let payload = copy_range(src, HEADER_LEN, HEADER_LEN + payload_len);
        Ok(
            (
                Frame { frame_type, flags: bits, session_id, stream_id, direction, byte_offset, payload },
                HEADER_LEN + payload_len,
            ),
        )
    }
}

/// Where the fields of a frame stand.
pub proof fn frames_have_their_layout(f: FrameView)
    requires
        f.session_id.len() == 16,
        f.payload.len() <= u32::MAX,
    ensures
        ({
            let b = frame_bytes(f);
            &&& b.len() == 48 + f.payload.len()
            &&& b[4] == 1
            &&& be_value(b.subrange(6, 8)) == f.flags
            &&& b.subrange(8, 24) == f.session_id
            &&& be_value(b.subrange(24, 32)) == f.stream_id
            &&& b[33] == 0
            &&& be_value(b.subrange(34, 36)) == 48
            &&& be_value(b.subrange(36, 44)) == f.byte_offset
            &&& be_value(b.subrange(44, 48)) == f.payload.len()
            &&& b.subrange(48, b.len() as int) == f.payload
        }),
{
    let b = frame_bytes(f);
    lemma_be_widths(f.flags as u64);
    lemma_be_widths(f.stream_id);
    lemma_be_widths(48);
    lemma_be_widths(f.byte_offset);
    lemma_be_widths(f.payload.len() as u64);
    assert(MAGIC@.len() == 4);
    assert(b.subrange(6, 8) =~= be16(f.flags));
    assert(b.subrange(8, 24) =~= f.session_id);
    assert(b.subrange(24, 32) =~= be64(f.stream_id));
    assert(b.subrange(34, 36) =~= be16(48u16));
    assert(b.subrange(36, 44) =~= be64(f.byte_offset));
    assert(b.subrange(44, 48) =~= be32(f.payload.len() as u32));
    assert(b.subrange(48, b.len() as int) =~= f.payload);
}

/// A frame can be written exactly if its payload has at most a MiB, its stream is one where
/// its type needs one and none where it must not, and its flags are known.
pub proof fn frames_that_fit_can_be_written(f: FrameView)
    ensures
        frame_fault(f) is None <==> f.payload.len() <= 1024 * 1024 && stream_id_fault(
            f.frame_type,
            f.stream_id,
        ) is None && f.flags <= 127,
{
    let x = f.flags;
    assert(x & !127u16 == 0 <==> x <= 127) by (bit_vector);
}

} // verus!
