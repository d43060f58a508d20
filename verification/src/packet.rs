//! The uTP wire codec: the 20-byte big-endian header, the chain of typed
//! extensions, and the payload. Encoding and decoding are verified to be
//! inverses on well-formed packets.

use vstd::prelude::*;

verus! {

/// Number of bytes in the fixed packet header.
pub const HEADER_SIZE: usize = 20;

/// The wire protocol version carried in the low nibble of the first byte.
pub const VERSION: u8 = 1;

/// The five packet types, encoded as the high nibble of the first header byte.
#[derive(Clone, Copy, Debug, PartialEq, Eq, Structural)]
pub enum PacketType {
    Data,
    Fin,
    State,
    Reset,
    Syn,
}

/// The wire code of a packet type: Data=0, Fin=1, State=2, Reset=3, Syn=4.
pub open spec fn type_code(t: PacketType) -> u8 {
    match t {
        PacketType::Data => 0,
        PacketType::Fin => 1,
        PacketType::State => 2,
        PacketType::Reset => 3,
        PacketType::Syn => 4,
    }
}

/// The packet type denoted by a wire code, if any.
pub open spec fn spec_decode_type(c: u8) -> Option<PacketType> {
    if c == 0 {
        Some(PacketType::Data)
    } else if c == 1 {
        Some(PacketType::Fin)
    } else if c == 2 {
        Some(PacketType::State)
    } else if c == 3 {
        Some(PacketType::Reset)
    } else if c == 4 {
        Some(PacketType::Syn)
    } else {
        None
    }
}

impl PacketType {
    /// The wire code of this packet type.
    pub fn to_code(self) -> (c: u8)
        ensures
            c == type_code(self),
    {
        match self {
            PacketType::Data => 0,
            PacketType::Fin => 1,
            PacketType::State => 2,
            PacketType::Reset => 3,
            PacketType::Syn => 4,
        }
    }

    /// The packet type encoded by a wire code, if the code is defined.
    pub fn from_code(c: u8) -> (t: Option<PacketType>)
        ensures
            t == spec_decode_type(c),
    {
        if c == 0 {
            Some(PacketType::Data)
        } else if c == 1 {
            Some(PacketType::Fin)
        } else if c == 2 {
            Some(PacketType::State)
        } else if c == 3 {
            Some(PacketType::Reset)
        } else if c == 4 {
            Some(PacketType::Syn)
        } else {
            None
        }
    }
}

/// The extension type code of a selective acknowledgement extension.
pub const SELECTIVE_ACK: u8 = 1;

/// The kind of an extension, as understood by this implementation.
#[derive(Clone, Copy, Debug, PartialEq, Eq, Structural)]
pub enum ExtensionType {
    SelectiveAck,
    Unknown,
}

/// One typed extension: a type code and a length-prefixed payload.
#[derive(Debug)]
pub struct Extension {
    ext_type: u8,
    payload: Vec<u8>,
}

/// Mathematical model of an extension.
pub struct ExtensionView {
    pub ext_type: u8,
    pub payload: Seq<u8>,
}

impl View for Extension {
    type V = ExtensionView;

    closed spec fn view(&self) -> ExtensionView {
        ExtensionView { ext_type: self.ext_type, payload: self.payload@ }
    }
}

impl Clone for Extension {
    /// Cloning an extension preserves its model.
    fn clone(&self) -> (e: Extension)
        ensures
            e@ == self@,
    {
        Extension { ext_type: self.ext_type, payload: clone_bytes(&self.payload) }
    }
}

/// Copies a byte vector.
fn clone_bytes(v: &Vec<u8>) -> (r: Vec<u8>)
    ensures
        r@ == v@,
{
    let mut r: Vec<u8> = Vec::new();
    let mut i: usize = 0;
    while i < v.len()
        invariant
            i <= v@.len(),
            r@ == v@.take(i as int),
        decreases v@.len() - i,
    {
        r.push(v[i]);
        proof {
            assert(r@ =~= v@.take(i + 1));
        }
        i = i + 1;
    }
    proof {
        assert(r@ =~= v@);
    }
    r
}

/// Bit `k` of a selective-ACK bitmap: byte `k/8`, bit `k%8`, LSB first.
pub open spec fn sack_bit(p: Seq<u8>, k: int) -> bool {
    0 <= k < p.len() * 8 && (p[k / 8] >> (k % 8) as u8) & 1 == 1
}

impl ExtensionView {
    /// A well-formed extension has a nonzero type code (zero terminates the
    /// chain), a payload short enough for the one-byte length prefix, and a
    /// selective-ACK payload whose length is a multiple of four.
    pub open spec fn wf(self) -> bool {
        &&& self.ext_type != 0
        &&& self.payload.len() <= 255
        &&& self.ext_type == SELECTIVE_ACK ==> self.payload.len() % 4 == 0
    }

    /// Bit `k` of the extension bitmap.
    pub open spec fn bit(self, k: int) -> bool {
        sack_bit(self.payload, k)
    }

    /// Number of set bits among the first `k` bits of the bitmap.
    pub open spec fn ones_below(self, k: int) -> int
        decreases k,
    {
        if k <= 0 {
            0
        } else {
            self.ones_below(k - 1) + if self.bit(k - 1) {
                1int
            } else {
                0int
            }
        }
    }
}

impl Extension {
    /// Builds an extension from a type code and payload bytes.
    pub fn new(ext_type: u8, payload: Vec<u8>) -> (e: Extension)
        ensures
            e@ == (ExtensionView { ext_type, payload: payload@ }),
    {
        Extension { ext_type, payload }
    }

    /// The kind of this extension; only selective ACKs are understood.
    pub fn get_type(&self) -> (t: ExtensionType)
        ensures
            t == (if self@.ext_type == SELECTIVE_ACK {
                ExtensionType::SelectiveAck
            } else {
                ExtensionType::Unknown
            }),
    {
        if self.ext_type == SELECTIVE_ACK {
            ExtensionType::SelectiveAck
        } else {
            ExtensionType::Unknown
        }
    }

    /// The raw payload length in bytes.
    pub fn len(&self) -> (n: usize)
        ensures
            n == self@.payload.len(),
    {
        self.payload.len()
    }

    /// Bit `k` of the bitmap carried by this extension.
    pub fn bit(&self, k: usize) -> (b: bool)
        requires
            k < self@.payload.len() * 8,
        ensures
            b == self@.bit(k as int),
    {
        (self.payload[k / 8] >> (k % 8) as u8) & 1 == 1
    }

    /// Number of set bits in the whole bitmap.
    pub fn count_ones(&self) -> (n: usize)
        requires
            self@.payload.len() * 8 <= usize::MAX,
        ensures
            n == self@.ones_below(self@.payload.len() * 8int),
    {
        let total: usize = self.payload.len() * 8;
        let mut n: usize = 0;
        let mut k: usize = 0;
        while k < total
            invariant
                k <= total,
                total == self@.payload.len() * 8,
                n == self@.ones_below(k as int),
                n <= k,
            decreases total - k,
        {
            if self.bit(k) {
                n = n + 1;
            }
            k = k + 1;
        }
        n
    }
}

} // verus!

verus! {

/// A uTP packet: the typed header fields, a chain of extensions, and the
/// opaque payload. The version nibble is always 1 and is not stored.
#[derive(Debug)]
pub struct Packet {
    /// The packet type.
    pub ty: PacketType,
    /// The connection identifier.
    pub connection_id: u16,
    /// Sender wall-clock microseconds, wrapping.
    pub timestamp_microseconds: u32,
    /// The sender's latest measured one-way delay.
    pub timestamp_difference_microseconds: u32,
    /// Advertised receive window in bytes.
    pub wnd_size: u32,
    /// Sequence number.
    pub seq_nr: u16,
    /// Acknowledgement number.
    pub ack_nr: u16,
    /// The chain of extensions, in wire order.
    pub extensions: Vec<Extension>,
    /// The payload bytes that follow the last extension.
    pub payload: Vec<u8>,
}

/// Mathematical model of a packet.
pub struct PacketView {
    pub ty: PacketType,
    pub connection_id: u16,
    pub timestamp_microseconds: u32,
    pub timestamp_difference_microseconds: u32,
    pub wnd_size: u32,
    pub seq_nr: u16,
    pub ack_nr: u16,
    pub extensions: Seq<ExtensionView>,
    pub payload: Seq<u8>,
}

impl View for Packet {
    type V = PacketView;

    open spec fn view(&self) -> PacketView {
        PacketView {
            ty: self.ty,
            connection_id: self.connection_id,
            timestamp_microseconds: self.timestamp_microseconds,
            timestamp_difference_microseconds: self.timestamp_difference_microseconds,
            wnd_size: self.wnd_size,
            seq_nr: self.seq_nr,
            ack_nr: self.ack_nr,
            extensions: self.extensions@.map_values(|e: Extension| e@),
            payload: self.payload@,
        }
    }
}

/// Every extension of the sequence is well-formed.
pub open spec fn exts_wf(exts: Seq<ExtensionView>) -> bool {
    forall|i: int| 0 <= i < exts.len() ==> (#[trigger] exts[i]).wf()
}

impl PacketView {
    /// A packet is well-formed when all its extensions are.
    pub open spec fn wf(self) -> bool {
        exts_wf(self.extensions)
    }
}

/// The type code of the first extension, or 0 when there is none; this is
/// the second byte of the encoded header.
pub open spec fn first_ext_type(exts: Seq<ExtensionView>) -> u8 {
    if exts.len() == 0 {
        0
    } else {
        exts[0].ext_type
    }
}

/// The 20 bytes of the encoded header, big-endian.
pub open spec fn spec_header(p: PacketView) -> Seq<u8> {
    seq![
        (type_code(p.ty) * 16 + 1) as u8,
        first_ext_type(p.extensions),
        (p.connection_id / 256) as u8,
        (p.connection_id % 256) as u8,
        (p.timestamp_microseconds / 0x1000000) as u8,
        ((p.timestamp_microseconds / 0x10000) % 256) as u8,
        ((p.timestamp_microseconds / 256) % 256) as u8,
        (p.timestamp_microseconds % 256) as u8,
        (p.timestamp_difference_microseconds / 0x1000000) as u8,
        ((p.timestamp_difference_microseconds / 0x10000) % 256) as u8,
        ((p.timestamp_difference_microseconds / 256) % 256) as u8,
        (p.timestamp_difference_microseconds % 256) as u8,
        (p.wnd_size / 0x1000000) as u8,
        ((p.wnd_size / 0x10000) % 256) as u8,
        ((p.wnd_size / 256) % 256) as u8,
        (p.wnd_size % 256) as u8,
        (p.seq_nr / 256) as u8,
        (p.seq_nr % 256) as u8,
        (p.ack_nr / 256) as u8,
        (p.ack_nr % 256) as u8,
    ]
}

/// The encoded record of extension `i`: the type of the following extension
/// (0 when `i` is the last), the payload length, and the payload.
pub open spec fn ext_record(exts: Seq<ExtensionView>, i: int) -> Seq<u8> {
    seq![
        if i + 1 < exts.len() {
            exts[i + 1].ext_type
        } else {
            0u8
        },
        exts[i].payload.len() as u8,
    ] + exts[i].payload
}

/// The encoded records of extensions `i..`, concatenated.
pub open spec fn ext_chain(exts: Seq<ExtensionView>, i: int) -> Seq<u8>
    decreases exts.len() - i,
{
    if i < 0 || i >= exts.len() {
        Seq::empty()
    } else {
        ext_record(exts, i) + ext_chain(exts, i + 1)
    }
}

/// The full encoding of a packet: header, extension chain, payload.
pub open spec fn spec_encode(p: PacketView) -> Seq<u8> {
    spec_header(p) + ext_chain(p.extensions, 0) + p.payload
}

/// The length in bytes of a packet's encoding.
#[verifier::opaque]
pub open spec fn spec_wire_len(p: PacketView) -> int {
    spec_encode(p).len() as int
}

/// The 16-bit big-endian value at offset `i`.
pub open spec fn u16_at(b: Seq<u8>, i: int) -> u16 {
    (b[i] * 256 + b[i + 1]) as u16
}

/// The 32-bit big-endian value at offset `i`.
pub open spec fn u32_at(b: Seq<u8>, i: int) -> u32 {
    (b[i] * 0x1000000 + b[i + 1] * 0x10000 + b[i + 2] * 256 + b[i + 3]) as u32
}

/// The extension type of the record that encodes extension `i`, which is
/// carried by the previous link of the chain (or by the header for `i == 0`);
/// 0 when `i` is past the end.
pub open spec fn chain_ty(exts: Seq<ExtensionView>, i: int) -> u8 {
    if 0 <= i < exts.len() {
        exts[i].ext_type
    } else {
        0
    }
}

/// Parses the extension chain of `b` starting at offset `pos`, where `ty` is
/// the type of the next extension (0 terminates). Returns the extensions and
/// the offset of the first payload byte, or `None` on a malformed chain.
pub open spec fn parse_exts(b: Seq<u8>, pos: int, ty: u8) -> Option<(Seq<ExtensionView>, int)>
    decreases b.len() - pos,
{
    if ty == 0 {
        Some((Seq::empty(), pos))
    } else if pos < 0 || pos + 2 > b.len() {
        None
    } else {
        let next = b[pos];
        let l = b[pos + 1] as int;
        if pos + 2 + l > b.len() {
            None
        } else if ty == SELECTIVE_ACK && l % 4 != 0 {
            None
        } else {
            match parse_exts(b, pos + 2 + l, next) {
                Some((rest, end)) => Some(
                    (
                        seq![ExtensionView { ext_type: ty, payload: b.subrange(pos + 2, pos + 2 + l) }]
                            + rest,
                        end,
                    ),
                ),
                None => None,
            }
        }
    }
}

/// Decodes a byte string into a packet model, or `None` when it is malformed:
/// shorter than the header, wrong version, undefined packet type, an
/// extension that overruns the buffer, or a selective-ACK extension whose
/// length is not a multiple of four.
pub open spec fn spec_decode(b: Seq<u8>) -> Option<PacketView> {
    if b.len() < 20 {
        None
    } else if b[0] % 16 != 1 {
        None
    } else {
        match spec_decode_type((b[0] / 16) as u8) {
            None => None,
            Some(ty) => match parse_exts(b, 20, b[1]) {
                None => None,
                Some((exts, end)) => Some(
                    PacketView {
                        ty,
                        connection_id: u16_at(b, 2),
                        timestamp_microseconds: u32_at(b, 4),
                        timestamp_difference_microseconds: u32_at(b, 8),
                        wnd_size: u32_at(b, 12),
                        seq_nr: u16_at(b, 16),
                        ack_nr: u16_at(b, 18),
                        extensions: exts,
                        payload: b.subrange(end, b.len() as int),
                    },
                ),
            },
        }
    }
}

} // verus!

verus! {

impl Clone for Packet {
    /// Cloning a packet preserves its model.
    fn clone(&self) -> (p: Packet)
        ensures
            p@ == self@,
    {
        let mut exts: Vec<Extension> = Vec::new();
        let mut i: usize = 0;
        while i < self.extensions.len()
            invariant
                i <= self.extensions@.len(),
                exts@.len() == i,
                forall|j: int| 0 <= j < i ==> (#[trigger] exts@[j])@ == self.extensions@[j]@,
            decreases self.extensions@.len() - i,
        {
            exts.push(self.extensions[i].clone());
            i = i + 1;
        }
        proof {
            assert(exts@.map_values(|e: Extension| e@) =~= self.extensions@.map_values(
                |e: Extension| e@,
            ));
        }
        Packet {
            ty: self.ty,
            connection_id: self.connection_id,
            timestamp_microseconds: self.timestamp_microseconds,
            timestamp_difference_microseconds: self.timestamp_difference_microseconds,
            wnd_size: self.wnd_size,
            seq_nr: self.seq_nr,
            ack_nr: self.ack_nr,
            extensions: exts,
            payload: clone_bytes(&self.payload),
        }
    }
}

impl Packet {
    /// A zeroed Data packet with no extensions and no payload.
    pub fn new() -> (p: Packet)
        ensures
            p@ == (PacketView {
                ty: PacketType::Data,
                connection_id: 0,
                timestamp_microseconds: 0,
                timestamp_difference_microseconds: 0,
                wnd_size: 0,
                seq_nr: 0,
                ack_nr: 0,
                extensions: Seq::<ExtensionView>::empty(),
                payload: Seq::<u8>::empty(),
            }),
            p@.wf(),
    {
        let p = Packet {
            ty: PacketType::Data,
            connection_id: 0,
            timestamp_microseconds: 0,
            timestamp_difference_microseconds: 0,
            wnd_size: 0,
            seq_nr: 0,
            ack_nr: 0,
            extensions: Vec::new(),
            payload: Vec::new(),
        };
        proof {
            assert(p@.extensions =~= Seq::<ExtensionView>::empty());
        }
        p
    }

    /// A zeroed Data packet carrying a copy of `payload`.
    pub fn with_payload(payload: &[u8]) -> (p: Packet)
        ensures
            p@ == (PacketView {
                ty: PacketType::Data,
                connection_id: 0,
                timestamp_microseconds: 0,
                timestamp_difference_microseconds: 0,
                wnd_size: 0,
                seq_nr: 0,
                ack_nr: 0,
                extensions: Seq::<ExtensionView>::empty(),
                payload: payload@,
            }),
            p@.wf(),
    {
        let mut p = Packet::new();
        let mut data: Vec<u8> = Vec::new();
        let mut i: usize = 0;
        while i < payload.len()
            invariant
                i <= payload@.len(),
                data@ == payload@.take(i as int),
            decreases payload@.len() - i,
        {
            data.push(payload[i]);
            proof {
                assert(data@ =~= payload@.take(i + 1));
            }
            i = i + 1;
        }
        proof {
            assert(data@ =~= payload@);
        }
        p.payload = data;
        p
    }

    /// The packet type.
    pub fn get_type(&self) -> (t: PacketType)
        ensures
            t == self@.ty,
    {
        self.ty
    }

    /// Sets the packet type.
    pub fn set_type(&mut self, t: PacketType)
        ensures
            final(self)@ == (PacketView { ty: t, ..old(self)@ }),
    {
        self.ty = t;
    }

    /// The connection identifier.
    pub fn connection_id(&self) -> (c: u16)
        ensures
            c == self@.connection_id,
    {
        self.connection_id
    }

    /// Sets the connection identifier.
    pub fn set_connection_id(&mut self, c: u16)
        ensures
            final(self)@ == (PacketView { connection_id: c, ..old(self)@ }),
    {
        self.connection_id = c;
    }

    /// The sender timestamp in microseconds.
    pub fn timestamp_microseconds(&self) -> (t: u32)
        ensures
            t == self@.timestamp_microseconds,
    {
        self.timestamp_microseconds
    }

    /// Sets the sender timestamp.
    pub fn set_timestamp_microseconds(&mut self, t: u32)
        ensures
            final(self)@ == (PacketView { timestamp_microseconds: t, ..old(self)@ }),
    {
        self.timestamp_microseconds = t;
    }

    /// The sender's latest measured one-way delay.
    pub fn timestamp_difference_microseconds(&self) -> (t: u32)
        ensures
            t == self@.timestamp_difference_microseconds,
    {
        self.timestamp_difference_microseconds
    }

    /// Sets the measured one-way delay field.
    pub fn set_timestamp_difference_microseconds(&mut self, t: u32)
        ensures
            final(self)@ == (PacketView { timestamp_difference_microseconds: t, ..old(self)@ }),
    {
        self.timestamp_difference_microseconds = t;
    }

    /// The advertised receive window in bytes.
    pub fn wnd_size(&self) -> (w: u32)
        ensures
            w == self@.wnd_size,
    {
        self.wnd_size
    }

    /// Sets the advertised receive window.
    pub fn set_wnd_size(&mut self, w: u32)
        ensures
            final(self)@ == (PacketView { wnd_size: w, ..old(self)@ }),
    {
        self.wnd_size = w;
    }

    /// The sequence number.
    pub fn seq_nr(&self) -> (s: u16)
        ensures
            s == self@.seq_nr,
    {
        self.seq_nr
    }

    /// Sets the sequence number.
    pub fn set_seq_nr(&mut self, s: u16)
        ensures
            final(self)@ == (PacketView { seq_nr: s, ..old(self)@ }),
    {
        self.seq_nr = s;
    }

    /// The acknowledgement number.
    pub fn ack_nr(&self) -> (a: u16)
        ensures
            a == self@.ack_nr,
    {
        self.ack_nr
    }

    /// Sets the acknowledgement number.
    pub fn set_ack_nr(&mut self, a: u16)
        ensures
            final(self)@ == (PacketView { ack_nr: a, ..old(self)@ }),
    {
        self.ack_nr = a;
    }

    /// Installs a selective-ACK extension carrying the given bitmap, in front
    /// of any existing extensions.
    pub fn set_sack(&mut self, bitmap: Vec<u8>)
        requires
            bitmap@.len() % 4 == 0,
            bitmap@.len() <= 252,
        ensures
            final(self)@ == (PacketView {
                extensions: seq![
                    ExtensionView { ext_type: SELECTIVE_ACK, payload: bitmap@ },
                ] + old(self)@.extensions,
                ..old(self)@
            }),
    {
        let e = Extension::new(SELECTIVE_ACK, bitmap);
        self.extensions.insert(0, e);
        proof {
            assert(self.extensions@.map_values(|x: Extension| x@) =~= seq![e@]
                + old(self).extensions@.map_values(|x: Extension| x@));
        }
    }
}

} // verus!

verus! {

/// Appends the two big-endian bytes of `x`.
fn push_u16(out: &mut Vec<u8>, x: u16)
    ensures
        final(out)@ == old(out)@ + seq![(x / 256) as u8, (x % 256) as u8],
{
    out.push((x / 256) as u8);
    out.push((x % 256) as u8);
    proof {
        assert(out@ =~= old(out)@ + seq![(x / 256) as u8, (x % 256) as u8]);
    }
}

/// Appends the four big-endian bytes of `x`.
fn push_u32(out: &mut Vec<u8>, x: u32)
    ensures
        final(out)@ == old(out)@ + seq![
            (x / 0x1000000) as u8,
            ((x / 0x10000) % 256) as u8,
            ((x / 256) % 256) as u8,
            (x % 256) as u8,
        ],
{
    out.push((x / 0x1000000) as u8);
    out.push(((x / 0x10000) % 256) as u8);
    out.push(((x / 256) % 256) as u8);
    out.push((x % 256) as u8);
    proof {
        assert(out@ =~= old(out)@ + seq![
            (x / 0x1000000) as u8,
            ((x / 0x10000) % 256) as u8,
            ((x / 256) % 256) as u8,
            (x % 256) as u8,
        ]);
    }
}

impl Packet {
    /// Encodes the packet; the result is exactly `spec_encode` of its model.
    pub fn to_bytes(&self) -> (r: Vec<u8>)
        requires
            self@.wf(),
        ensures
            r@ == spec_encode(self@),
    {
        let ghost v = self@.extensions;
        let mut out: Vec<u8> = Vec::new();
        proof {
            assert(type_code(self@.ty) <= 4);
        }
        out.push(self.ty.to_code() * 16 + 1);
        let first: u8 = if self.extensions.len() == 0 {
            0
        } else {
            self.extensions[0].ext_type
        };
        out.push(first);
        push_u16(&mut out, self.connection_id);
        push_u32(&mut out, self.timestamp_microseconds);
        push_u32(&mut out, self.timestamp_difference_microseconds);
        push_u32(&mut out, self.wnd_size);
        push_u16(&mut out, self.seq_nr);
        push_u16(&mut out, self.ack_nr);
        proof {
            assert(out@ =~= spec_header(self@));
        }
        let mut i: usize = 0;
        while i < self.extensions.len()
            invariant
                i <= self.extensions@.len(),
                v == self@.extensions,
                self@.wf(),
                v.len() == self.extensions@.len(),
                forall|j: int| 0 <= j < v.len() ==> #[trigger] v[j] == self.extensions@[j]@,
                out@ + ext_chain(v, i as int) == spec_header(self@) + ext_chain(v, 0),
            decreases self.extensions@.len() - i,
        {
            proof {
                assert(v[i as int].wf());
            }
            let next: u8 = if i + 1 < self.extensions.len() {
                self.extensions[i + 1].ext_type
            } else {
                0
            };
            out.push(next);
            out.push(self.extensions[i].payload.len() as u8);
            out.extend_from_slice(self.extensions[i].payload.as_slice());
            proof {
                assert(ext_chain(v, i as int) == ext_record(v, i as int) + ext_chain(v, i + 1));
                assert(out@ + ext_chain(v, i + 1) =~= spec_header(self@) + ext_chain(v, 0));
            }
            i = i + 1;
        }
        proof {
            assert(ext_chain(v, v.len() as int) =~= Seq::<u8>::empty());
            assert(out@ =~= spec_header(self@) + ext_chain(v, 0));
        }
        out.extend_from_slice(self.payload.as_slice());
        proof {
            assert(out@ =~= spec_encode(self@));
        }
        out
    }

    /// The length in bytes of this packet's encoding.
    pub fn len(&self) -> (n: usize)
        requires
            self@.wf(),
            spec_wire_len(self@) <= usize::MAX,
        ensures
            n == spec_wire_len(self@),
    {
        let ghost v = self@.extensions;
        proof {
            reveal(spec_wire_len);
            assert(spec_wire_len(self@) == 20 + ext_chain(v, 0).len() + self@.payload.len());
        }
        let mut n: usize = HEADER_SIZE;
        let mut i: usize = 0;
        while i < self.extensions.len()
            invariant
                i <= self.extensions@.len(),
                v == self@.extensions,
                self@.wf(),
                v.len() == self.extensions@.len(),
                forall|j: int| 0 <= j < v.len() ==> #[trigger] v[j] == self.extensions@[j]@,
                n + ext_chain(v, i as int).len() + self@.payload.len() == spec_wire_len(self@),
                spec_wire_len(self@) <= usize::MAX,
            decreases self.extensions@.len() - i,
        {
            proof {
                assert(ext_chain(v, i as int) == ext_record(v, i as int) + ext_chain(v, i + 1));
            }
            n = n + 2 + self.extensions[i].payload.len();
            i = i + 1;
        }
        proof {
            assert(ext_chain(v, v.len() as int) =~= Seq::<u8>::empty());
        }
        n + self.payload.len()
    }
}

} // verus!

verus! {

/// Reads the 16-bit big-endian value at offset `i`.
fn read_u16(buf: &[u8], i: usize) -> (x: u16)
    requires
        i + 2 <= buf@.len(),
    ensures
        x == u16_at(buf@, i as int),
{
    (buf[i] as u16) * 256 + (buf[i + 1] as u16)
}

/// Reads the 32-bit big-endian value at offset `i`.
fn read_u32(buf: &[u8], i: usize) -> (x: u32)
    requires
        i + 4 <= buf@.len(),
    ensures
        x == u32_at(buf@, i as int),
{
    (buf[i] as u32) * 0x1000000 + (buf[i + 1] as u32) * 0x10000 + (buf[i + 2] as u32) * 256 + (
    buf[i + 3] as u32)
}

/// Copies `buf[from..to]` into a fresh vector.
fn copy_range(buf: &[u8], from: usize, to: usize) -> (r: Vec<u8>)
    requires
        from <= to <= buf@.len(),
    ensures
        r@ == buf@.subrange(from as int, to as int),
{
    let mut r: Vec<u8> = Vec::new();
    let mut i: usize = from;
    while i < to
        invariant
            from <= i <= to <= buf@.len(),
            r@ == buf@.subrange(from as int, i as int),
        decreases to - i,
    {
        r.push(buf[i]);
        proof {
            assert(r@ =~= buf@.subrange(from as int, i + 1));
        }
        i = i + 1;
    }
    r
}

impl Packet {
    /// Decodes a byte string; returns `InvalidPacket` exactly when the bytes
    /// are not a well-formed encoding (`spec_decode` yields nothing).
    pub fn from_bytes(buf: &[u8]) -> (r: Result<Packet, crate::SocketError>)
        ensures
            match r {
                Ok(p) => spec_decode(buf@) == Some(p@) && p@.wf(),
                Err(e) => spec_decode(buf@) is None && e == crate::SocketError::InvalidPacket,
            },
    {
        if buf.len() < 20 {
            return Err(crate::SocketError::InvalidPacket);
        }
        if buf[0] % 16 != 1 {
            return Err(crate::SocketError::InvalidPacket);
        }
        let ty = match PacketType::from_code(buf[0] / 16) {
            Some(t) => t,
            None => {
                return Err(crate::SocketError::InvalidPacket);
            },
        };
        let mut exts: Vec<Extension> = Vec::new();
        let mut pos: usize = HEADER_SIZE;
        let mut ty_byte: u8 = buf[1];
        while ty_byte != 0
            invariant
                20 <= pos <= buf@.len(),
                forall|j: int| 0 <= j < exts@.len() ==> (#[trigger] exts@[j])@.wf(),
                ({
                    let whole = parse_exts(buf@, 20, buf@[1]);
                    let here = parse_exts(buf@, pos as int, ty_byte);
                    match here {
                        Some((rest, end)) => whole == Some(
                            (exts@.map_values(|e: Extension| e@) + rest, end),
                        ),
                        None => whole is None,
                    }
                }),
            decreases buf@.len() - pos + (if ty_byte == 0 { 0int } else { 1int }),
        {
            if buf.len() - pos < 2 {
                return Err(crate::SocketError::InvalidPacket);
            }
            let next: u8 = buf[pos];
            let l: usize = buf[pos + 1] as usize;
            if buf.len() - pos - 2 < l {
                return Err(crate::SocketError::InvalidPacket);
            }
            if ty_byte == SELECTIVE_ACK && l % 4 != 0 {
                return Err(crate::SocketError::InvalidPacket);
            }
            let payload = copy_range(buf, pos + 2, pos + 2 + l);
            let e = Extension::new(ty_byte, payload);
            let ghost prev = exts@.map_values(|x: Extension| x@);
            proof {
                assert(e@.wf());
                assert(parse_exts(buf@, pos as int, ty_byte) == match parse_exts(
                    buf@,
                    pos + 2 + l,
                    next,
                ) {
                    Some((rest, end)) => Some((seq![e@] + rest, end)),
                    None => None::<(Seq<ExtensionView>, int)>,
                });
            }
            exts.push(e);
            pos = pos + 2 + l;
            ty_byte = next;
            proof {
                assert(exts@.map_values(|x: Extension| x@) =~= prev + seq![e@]);
                if parse_exts(buf@, pos as int, ty_byte) is Some {
                    let (rest, end) = parse_exts(buf@, pos as int, ty_byte).unwrap();
                    assert((prev + seq![e@]) + rest =~= prev + (seq![e@] + rest));
                }
            }
        }
        proof {
            assert(parse_exts(buf@, pos as int, 0u8) == Some(
                (Seq::<ExtensionView>::empty(), pos as int),
            ));
            assert(exts@.map_values(|e: Extension| e@) + Seq::<ExtensionView>::empty()
                =~= exts@.map_values(|e: Extension| e@));
        }
        let payload = copy_range(buf, pos, buf.len());
        let p = Packet {
            ty,
            connection_id: read_u16(buf, 2),
            timestamp_microseconds: read_u32(buf, 4),
            timestamp_difference_microseconds: read_u32(buf, 8),
            wnd_size: read_u32(buf, 12),
            seq_nr: read_u16(buf, 16),
            ack_nr: read_u16(buf, 18),
            extensions: exts,
            payload,
        };
        Ok(p)
    }
}

} // verus!

verus! {

/// Splitting the two big-endian bytes of a 16-bit value loses nothing.
proof fn lemma_u16_split(x: u16)
    ensures
        ((x / 256) as u8) * 256 + ((x % 256) as u8) == x,
{
    assert(x / 256 < 256) by (bit_vector);
    assert(x == (x / 256) * 256 + x % 256) by (bit_vector);
}

/// Splitting the four big-endian bytes of a 32-bit value loses nothing.
proof fn lemma_u32_split(x: u32)
    ensures
        ((x / 0x1000000) as u8) * 0x1000000 + (((x / 0x10000) % 256) as u8) * 0x10000 + (((x / 256)
            % 256) as u8) * 256 + ((x % 256) as u8) == x,
{
    assert(x / 0x1000000 < 256) by (bit_vector);
    assert(x == (x / 0x1000000) * 0x1000000 + ((x / 0x10000) % 256) * 0x10000 + ((x / 256) % 256)
        * 256 + x % 256) by (bit_vector);
}

/// Parsing an encoded extension chain embedded in `b` at offset `pos` yields
/// exactly the encoded extensions and stops at the end of the chain.
proof fn lemma_parse_chain(b: Seq<u8>, exts: Seq<ExtensionView>, i: int, pos: int)
    requires
        0 <= i <= exts.len(),
        exts_wf(exts),
        0 <= pos,
        pos + ext_chain(exts, i).len() <= b.len(),
        b.subrange(pos, pos + ext_chain(exts, i).len() as int) == ext_chain(exts, i),
    ensures
        parse_exts(b, pos, chain_ty(exts, i)) == Some(
            (exts.subrange(i, exts.len() as int), pos + ext_chain(exts, i).len()),
        ),
    decreases exts.len() - i,
{
    let chain = ext_chain(exts, i);
    if i == exts.len() {
        assert(chain =~= Seq::<u8>::empty());
        assert(exts.subrange(i, exts.len() as int) =~= Seq::<ExtensionView>::empty());
        assert(parse_exts(b, pos, 0u8) == Some((Seq::<ExtensionView>::empty(), pos)));
    } else {
        let ty = exts[i].ext_type;
        let pl = exts[i].payload;
        let rec = ext_record(exts, i);
        let tail = ext_chain(exts, i + 1);
        assert(exts[i].wf());
        assert(chain == rec + tail);
        assert(rec.len() == 2 + pl.len());
        assert forall|j: int| 0 <= j < chain.len() implies #[trigger] chain[j] == b[pos + j] by {
            assert(chain[j] == b.subrange(pos, pos + chain.len() as int)[j]);
        }
        // The record's bytes as seen through `b`.
        assert(b[pos] == chain[0]);
        assert(chain[0] == rec[0]);
        assert(b[pos + 1] == chain[1] && chain[1] == rec[1]);
        assert(rec[1] == pl.len() as u8);
        let l = b[pos + 1] as int;
        assert(l == pl.len());
        assert forall|k: int| 0 <= k < l implies b.subrange(pos + 2, pos + 2 + l)[k] == pl[k] by {
            assert(chain[2 + k] == b[pos + 2 + k]);
            assert(chain[2 + k] == rec[2 + k]);
            assert(rec[2 + k] == pl[k]);
        }
        assert(b.subrange(pos + 2, pos + 2 + l) =~= pl);
        // The rest of the chain, as seen through `b`.
        let pos2 = pos + 2 + l;
        assert forall|k: int| 0 <= k < tail.len() implies b.subrange(
            pos2,
            pos2 + tail.len() as int,
        )[k] == tail[k] by {
            assert(chain[rec.len() + k] == b[pos + rec.len() + k]);
            assert(chain[rec.len() + k] == tail[k]);
        }
        assert(b.subrange(pos2, pos2 + tail.len() as int) =~= tail);
        lemma_parse_chain(b, exts, i + 1, pos2);
        assert(b[pos] == chain_ty(exts, i + 1));
        let parsed = ExtensionView { ext_type: ty, payload: b.subrange(pos + 2, pos + 2 + l) };
        assert(parsed == exts[i]);
        assert(seq![exts[i]] + exts.subrange(i + 1, exts.len() as int) =~= exts.subrange(
            i,
            exts.len() as int,
        ));
    }
}

/// Round trip: decoding the encoding of a well-formed packet gives the packet
/// back unchanged.
pub proof fn lemma_encode_decode(p: PacketView)
    requires
        p.wf(),
    ensures
        spec_decode(spec_encode(p)) == Some(p),
{
    let b = spec_encode(p);
    let hdr = spec_header(p);
    let chain = ext_chain(p.extensions, 0);
    assert(hdr.len() == 20);
    assert(b.len() == 20 + chain.len() + p.payload.len());
    assert(forall|k: int| 0 <= k < 20 ==> b[k] == hdr[k]);
    // First byte: type nibble and version nibble.
    let c = type_code(p.ty);
    assert(c <= 4);
    assert(b[0] == (c * 16 + 1) as u8);
    assert((c * 16 + 1) as u8 % 16 == 1 && (c * 16 + 1) as u8 / 16 == c) by {
        assert(c <= 4 ==> (c * 16 + 1) as u8 % 16 == 1 && (c * 16 + 1) as u8 / 16 == c)
            by (bit_vector);
    }
    assert(spec_decode_type(c) == Some(p.ty));
    // The extension chain parses back.
    assert(b.subrange(20, 20 + chain.len() as int) =~= chain);
    assert(chain_ty(p.extensions, 0) == first_ext_type(p.extensions));
    lemma_parse_chain(b, p.extensions, 0, 20);
    assert(p.extensions.subrange(0, p.extensions.len() as int) =~= p.extensions);
    // Header fields read back.
    lemma_u16_split(p.connection_id);
    lemma_u32_split(p.timestamp_microseconds);
    lemma_u32_split(p.timestamp_difference_microseconds);
    lemma_u32_split(p.wnd_size);
    lemma_u16_split(p.seq_nr);
    lemma_u16_split(p.ack_nr);
    assert(u16_at(b, 2) == p.connection_id);
    assert(u32_at(b, 4) == p.timestamp_microseconds);
    assert(u32_at(b, 8) == p.timestamp_difference_microseconds);
    assert(u32_at(b, 12) == p.wnd_size);
    assert(u16_at(b, 16) == p.seq_nr);
    assert(u16_at(b, 18) == p.ack_nr);
    // The payload reads back.
    assert(b.subrange(20 + chain.len() as int, b.len() as int) =~= p.payload);
    let decoded = spec_decode(b).unwrap();
    assert(decoded == p);
}

} // verus!

verus! {

impl Packet {
    /// Checks at run time that the packet can be encoded: every extension has
    /// a nonzero type code and a selective ACK's bitmap length is a multiple
    /// of four (the one-byte length prefix bounds the length itself).
    pub fn is_well_formed(&self) -> (r: bool)
        ensures
            r == self@.wf(),
    {
        let mut i: usize = 0;
        while i < self.extensions.len()
            invariant
                0 <= i <= self.extensions@.len(),
                forall|j: int|
                    0 <= j < i ==> (#[trigger] self@.extensions[j]).wf(),
            decreases self.extensions@.len() - i,
        {
            let e = &self.extensions[i];
            let ok = e.type_code() != 0 && e.len() <= 255 && (e.type_code() != SELECTIVE_ACK || e.len()
                % 4 == 0);
            if !ok {
                proof {
                    assert(self@.extensions[i as int] == self.extensions@[i as int]@);
                    assert(!self@.extensions[i as int].wf());
                }
                return false;
            }
            proof {
                assert(self@.extensions[i as int] == self.extensions@[i as int]@);
            }
            i = i + 1;
        }
        true
    }
}

impl Extension {
    /// The raw extension type code.
    pub fn type_code(&self) -> (c: u8)
        ensures
            c == self@.ext_type,
    {
        self.ext_type
    }
}

} // verus!
