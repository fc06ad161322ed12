//! Control messages of the beamformer: their content, header and tail, and
//! their big-endian wire format.
//!
//! On the wire a message is a 32-byte header, the payload and a 12-byte
//! tail. The payload is the content's fields as big-endian 32-bit words; the
//! content's type code stands in the header. The tail carries a checksum that
//! makes the byte sum from the fifth header byte through the checksum zero
//! modulo 256.
use vstd::prelude::*;
use vstd::utf8::{valid_utf8, decode_utf8};
use crate::bytes::{
    be16, be16_at, be32, be32_at, be32s, be32s_at, copy_range, hex2, hex_dump,
    lemma_be16_at_sub, lemma_be16_roundtrip, lemma_be32_at_sub, lemma_be32s_roundtrip,
    lemma_be32s_word, push_be16,
    push_be32, push_be32s, push_bytes, push_hex2, push_hex_dump, read_be16, read_be32, read_be32s,
};

verus! {

/// Why a message could not be read from a byte buffer.
#[derive(Debug, Clone, Copy, PartialEq, Eq)]
pub enum MsgError {
    /// The buffer ends before the part being read.
    UnexpectedEof,
    /// No content type has the buffer's type code, or the buffer is too short
    /// for the fields of that type.
    NoVariantMatch,
}

/// The content of a control message: a command and its parameters.
#[derive(Clone, Debug, Copy, PartialEq, Eq)]
pub enum MsgContent {
    WorkMode(u32),
    Status([u32; 2]),
    Reset(u32),
    SelfTest { magic: [u32; 5], action: u32 },
    AcquireSample { acq_ad: u32, acq_ch: u32, ch: u32 },
    BitCut { board_id: u32, filter_cut: u32, dbf_cut: u32 },
    BaseCh { board_id: u32, beam1: [u32; 4], beam2: [u32; 4] },
    BeamCtrl { beam_id: [u32; 4], calc_wgt: u32, apply_wgt: u32 },
    MultiCtrl { cmd: u32, param: [u32; 3] },
    AttSet([u32; 16]),
}

/// The number of 32-bit fields of the content type with this code, if there is one.
pub open spec fn field_count(code: u16) -> Option<nat> {
    if code == 0x1001 {
        Some(1)
    } else if code == 0x1002 {
        Some(2)
    } else if code == 0x1007 {
        Some(1)
    } else if code == 0x1004 {
        Some(6)
    } else if code == 0x1008 {
        Some(3)
    } else if code == 0x1009 {
        Some(3)
    } else if code == 0x100a {
        Some(9)
    } else if code == 0x100b {
        Some(6)
    } else if code == 0x1011 {
        Some(4)
    } else if code == 0x3201 {
        Some(16)
    } else {
        None
    }
}

/// A content can be read from `b`: it starts with a known type code and holds
/// at least the fields of that type.
pub open spec fn content_readable(b: Seq<u8>) -> bool {
    &&& b.len() >= 2
    &&& field_count(be16_at(b, 0)) is Some
    &&& b.len() >= 2 + 4 * field_count(be16_at(b, 0)).unwrap()
}

/// `c` is what reading a content from `b` gives: the type code is the first
/// two bytes and the fields are the big-endian words that follow.
pub open spec fn decodes_to(b: Seq<u8>, c: MsgContent) -> bool {
    &&& content_readable(b)
    &&& c.spec_code() == be16_at(b, 0)
    &&& c.spec_fields() == be32s_at(b, 2, c.spec_fields().len())
}

impl MsgContent {
    /// The type code of the content.
    pub open spec fn spec_code(self) -> u16 {
        match self {
            MsgContent::WorkMode(..) => 0x1001,
            MsgContent::Status(..) => 0x1002,
            MsgContent::Reset(..) => 0x1007,
            MsgContent::SelfTest { .. } => 0x1004,
            MsgContent::AcquireSample { .. } => 0x1008,
            MsgContent::BitCut { .. } => 0x1009,
            MsgContent::BaseCh { .. } => 0x100a,
            MsgContent::BeamCtrl { .. } => 0x100b,
            MsgContent::MultiCtrl { .. } => 0x1011,
            MsgContent::AttSet(..) => 0x3201,
        }
    }

    /// The 32-bit fields of the content, in the order in which they are declared.
    pub open spec fn spec_fields(self) -> Seq<u32> {
        match self {
            MsgContent::WorkMode(x) => seq![x],
            MsgContent::Status(a) => a@,
            MsgContent::Reset(x) => seq![x],
            MsgContent::SelfTest { magic, action } => magic@.push(action),
            MsgContent::AcquireSample { acq_ad, acq_ch, ch } => seq![acq_ad, acq_ch, ch],
            MsgContent::BitCut { board_id, filter_cut, dbf_cut } => seq![
                board_id,
                filter_cut,
                dbf_cut,
            ],
            MsgContent::BaseCh { board_id, beam1, beam2 } => seq![board_id] + beam1@ + beam2@,
            MsgContent::BeamCtrl { beam_id, calc_wgt, apply_wgt } => beam_id@ + seq![
                calc_wgt,
                apply_wgt,
            ],
            MsgContent::MultiCtrl { cmd, param } => seq![cmd] + param@,
            MsgContent::AttSet(a) => a@,
        }
    }

    /// The payload of the content: its fields as big-endian words.
    pub open spec fn spec_payload(self) -> Seq<u8> {
        be32s(self.spec_fields())
    }

    /// The encoding of the content: the type code, big-endian, then the payload.
    pub open spec fn spec_encoding(self) -> Seq<u8> {
        be16(self.spec_code()) + self.spec_payload()
    }

    /// The name by which a reply names the content's type.
    pub open spec fn spec_name(self) -> Seq<char> {
        match self {
            MsgContent::WorkMode(..) => "WorkMode"@,
            MsgContent::Status(..) => "Status"@,
            MsgContent::Reset(..) => "Reset"@,
            MsgContent::SelfTest { .. } => "SelfTest"@,
            MsgContent::AcquireSample { .. } => "AcquireSample"@,
            MsgContent::BitCut { .. } => "BitCut"@,
            MsgContent::BaseCh { .. } => "BaseCh"@,
            MsgContent::BeamCtrl { .. } => "BeamCtrl"@,
            MsgContent::MultiCtrl { .. } => "MultiCtrl"@,
            MsgContent::AttSet(..) => "AttSet"@,
        }
    }

    /// A reply whose `msg_type` is `t` answers this content: `t` names the
    /// content's type, or, for `MultiCtrl`, is `IPAddr`.
    pub open spec fn spec_accepts(self, t: Seq<char>) -> bool {
        ||| t == self.spec_name()
        ||| (self is MultiCtrl && t == "IPAddr"@)
    }

    /// The console dump of the content: the two bytes of the type code in
    /// hexadecimal, then the payload in numbered chunks of four bytes.
    pub open spec fn spec_show(self) -> Seq<u8> {
        let code = be16(self.spec_code());
        hex2(code[0]) + seq![0x20u8] + hex2(code[1]) + seq![0x0au8] + hex_dump(
            self.spec_payload(),
        )
    }

    /// The type code of the content.
    pub fn to_msg_type_code(&self) -> (r: u16)
        ensures
            r == self.spec_code(),
    {
        match self {
            MsgContent::WorkMode { .. } => 0x1001,
            MsgContent::Status { .. } => 0x1002,
            MsgContent::Reset { .. } => 0x1007,
            MsgContent::SelfTest { .. } => 0x1004,
            MsgContent::AcquireSample { .. } => 0x1008,
            MsgContent::BitCut { .. } => 0x1009,
            MsgContent::BaseCh { .. } => 0x100a,
            MsgContent::BeamCtrl { .. } => 0x100b,
            MsgContent::MultiCtrl { .. } => 0x1011,
            MsgContent::AttSet { .. } => 0x3201,
        }
    }

    fn field_words(&self) -> (r: Vec<u32>)
        ensures
            r@ == self.spec_fields(),
    {
        let mut r: Vec<u32> = Vec::new();
        match self {
            MsgContent::WorkMode(x) => {
                r.push(*x);
            },
            MsgContent::Status(a) => {
                push_words(&mut r, a);
            },
            MsgContent::Reset(x) => {
                r.push(*x);
            },
            MsgContent::SelfTest { magic, action } => {
                push_words(&mut r, magic);
                r.push(*action);
            },
            MsgContent::AcquireSample { acq_ad, acq_ch, ch } => {
                r.push(*acq_ad);
                r.push(*acq_ch);
                r.push(*ch);
            },
            MsgContent::BitCut { board_id, filter_cut, dbf_cut } => {
                r.push(*board_id);
                r.push(*filter_cut);
                r.push(*dbf_cut);
            },
            MsgContent::BaseCh { board_id, beam1, beam2 } => {
                r.push(*board_id);
                push_words(&mut r, beam1);
                push_words(&mut r, beam2);
            },
            MsgContent::BeamCtrl { beam_id, calc_wgt, apply_wgt } => {
                push_words(&mut r, beam_id);
                r.push(*calc_wgt);
                r.push(*apply_wgt);
            },
            MsgContent::MultiCtrl { cmd, param } => {
                r.push(*cmd);
                push_words(&mut r, param);
            },
            MsgContent::AttSet(a) => {
                push_words(&mut r, a);
            },
        }
        assert(r@ =~= self.spec_fields());
        r
    }

    /// Appends the encoding of the content: the type code, big-endian, then
    /// each field as a big-endian 32-bit word.
    pub fn write(&self, out: &mut Vec<u8>)
        ensures
            final(out)@ == old(out)@ + self.spec_encoding(),
    {
        push_be16(out, self.to_msg_type_code());
        let w = self.field_words();
        push_be32s(out, w.as_slice());
        assert(final(out)@ =~= old(out)@ + self.spec_encoding());
    }

    /// The type code and the payload of the content.
    pub fn to_bytes(&self) -> (r: (u16, Vec<u8>))
        ensures
            r.0 == self.spec_code(),
            r.1@ == self.spec_payload(),
    {
        let mut data: Vec<u8> = Vec::new();
        self.write(&mut data);
        let payload = copy_range(data.as_slice(), 2, data.len());
        let msg_code = read_be16(data.as_slice(), 0);
        proof {
            lemma_be16_roundtrip(self.spec_code());
            assert(data@.subrange(0, 2) =~= be16(self.spec_code()));
            assert(payload@ =~= self.spec_payload());
        }
        (msg_code, payload)
    }

    fn from_code_words(code: u16, w: &Vec<u32>) -> (c: MsgContent)
        requires
            field_count(code) == Some(w@.len()),
        ensures
            c.spec_code() == code,
            c.spec_fields() == w@,
    {
        let c = if code == 0x1001 {
            MsgContent::WorkMode(w[0])
        } else if code == 0x1002 {
            MsgContent::Status([w[0], w[1]])
        } else if code == 0x1007 {
            MsgContent::Reset(w[0])
        } else if code == 0x1004 {
            MsgContent::SelfTest { magic: [w[0], w[1], w[2], w[3], w[4]], action: w[5] }
        } else if code == 0x1008 {
            MsgContent::AcquireSample { acq_ad: w[0], acq_ch: w[1], ch: w[2] }
        } else if code == 0x1009 {
            MsgContent::BitCut { board_id: w[0], filter_cut: w[1], dbf_cut: w[2] }
        } else if code == 0x100a {
            MsgContent::BaseCh {
                board_id: w[0],
                beam1: [w[1], w[2], w[3], w[4]],
                beam2: [w[5], w[6], w[7], w[8]],
            }
        } else if code == 0x100b {
            MsgContent::BeamCtrl {
                beam_id: [w[0], w[1], w[2], w[3]],
                calc_wgt: w[4],
                apply_wgt: w[5],
            }
        } else if code == 0x1011 {
            MsgContent::MultiCtrl { cmd: w[0], param: [w[1], w[2], w[3]] }
        } else {
            let mut a = [0u32; 16];
            let mut i: usize = 0;
            while i < 16
                invariant
                    i <= 16,
                    w@.len() == 16,
                    a@.len() == 16,
                    forall|j: int| 0 <= j < i ==> a@[j] == w@[j],
                decreases 16 - i,
            {
                a[i] = w[i];
                i = i + 1;
            }
            MsgContent::AttSet(a)
        };
        assert(c.spec_fields() =~= w@);
        c
    }

    /// Reads a content from the start of `b`: the big-endian type code, then
    /// the fields of the type with that code. Bytes after them are not read.
    pub fn read(b: &[u8]) -> (r: Result<MsgContent, MsgError>)
        ensures
            match r {
                Ok(c) => decodes_to(b@, c),
                Err(e) => e == MsgError::NoVariantMatch && !content_readable(b@),
            },
    {
        if b.len() < 2 {
            return Err(MsgError::NoVariantMatch);
        }
        let code = read_be16(b, 0);
        match field_count_of(code) {
            None => Err(MsgError::NoVariantMatch),
            Some(n) => {
                if b.len() - 2 < 4 * n {
                    Err(MsgError::NoVariantMatch)
                } else {
                    let w = read_be32s(b, 2, n);
                    let c = MsgContent::from_code_words(code, &w);
                    Ok(c)
                }
            },
        }
    }

    /// The console dump of the content.
    pub fn show_bytes(&self) -> (r: Vec<u8>)
        ensures
            r@ == self.spec_show(),
    {
        let mut buf: Vec<u8> = Vec::new();
        self.write(&mut buf);
        let mut text: Vec<u8> = Vec::new();
        push_hex2(&mut text, buf[0]);
        text.push(0x20);
        push_hex2(&mut text, buf[1]);
        text.push(0x0a);
        let rest = copy_range(buf.as_slice(), 2, buf.len());
        push_hex_dump(&mut text, rest.as_slice());
        proof {
            assert(rest@ =~= self.spec_payload());
            assert(buf@[0] == be16(self.spec_code())[0]);
            assert(buf@[1] == be16(self.spec_code())[1]);
        }
        assert(text@ =~= self.spec_show());
        text
    }

    fn name(&self) -> (r: &'static str)
        ensures
            r@ == self.spec_name(),
    {
        match self {
            MsgContent::WorkMode(..) => "WorkMode",
            MsgContent::Status(..) => "Status",
            MsgContent::Reset(..) => "Reset",
            MsgContent::SelfTest { .. } => "SelfTest",
            MsgContent::AcquireSample { .. } => "AcquireSample",
            MsgContent::BitCut { .. } => "BitCut",
            MsgContent::BaseCh { .. } => "BaseCh",
            MsgContent::BeamCtrl { .. } => "BeamCtrl",
            MsgContent::MultiCtrl { .. } => "MultiCtrl",
            MsgContent::AttSet(..) => "AttSet",
        }
    }

    /// Whether a reply whose `msg_type` is `t` answers this content.
    pub fn accepts_reply_type(&self, t: &str) -> (r: bool)
        ensures
            r == self.spec_accepts(t@),
    {
        if str_eq(t, self.name()) {
            true
        } else {
            match self {
                MsgContent::MultiCtrl { .. } => str_eq(t, "IPAddr"),
                _ => false,
            }
        }
    }

    /// Whether the reply in `buf` answers this content. The reply is a JSON
    /// object in UTF-8 whose `msg_type` member is a string.
    pub fn verify_reply(&self, buf: &[u8]) -> (r: bool)
        requires
            reply_is_well_formed(buf@),
        ensures
            r == self.spec_accepts(reply_msg_type(buf@)),
    {
        let text = str_from_utf8(buf);
        let text = text.unwrap();
        let t = json_string_field(text, "msg_type");
        let t = t.unwrap();
        self.accepts_reply_type(t.as_str())
    }

    /// Whether the reply in `buf` answers this content, or `None` where `buf`
    /// is not UTF-8, not JSON, or has no string member `msg_type`.
    pub fn try_verify_reply(&self, buf: &[u8]) -> (r: Option<bool>)
        ensures
            r == (if reply_is_well_formed(buf@) {
                Some(self.spec_accepts(reply_msg_type(buf@)))
            } else {
                None
            }),
    {
        match str_from_utf8(buf) {
            None => None,
            Some(text) => match json_string_field(text, "msg_type") {
                None => None,
                Some(_) => Some(self.verify_reply(buf)),
            },
        }
    }
}

fn push_words(out: &mut Vec<u32>, a: &[u32])
    ensures
        final(out)@ == old(out)@ + a@,
{
    let ghost start = out@;
    let n = a.len();
    let mut i: usize = 0;
    while i < n
        invariant
            n == a@.len(),
            i <= n,
            out@ == start + a@.take(i as int),
        decreases n - i,
    {
        out.push(a[i]);
        assert(a@.take(i as int + 1) =~= a@.take(i as int).push(a@[i as int]));
        i = i + 1;
    }
    assert(a@.take(n as int) =~= a@);
}

fn field_count_of(code: u16) -> (r: Option<usize>)
    ensures
        match r {
            Some(n) => field_count(code) == Some(n as nat),
            None => field_count(code) is None,
        },
{
    if code == 0x1001 {
        Some(1)
    } else if code == 0x1002 {
        Some(2)
    } else if code == 0x1007 {
        Some(1)
    } else if code == 0x1004 {
        Some(6)
    } else if code == 0x1008 {
        Some(3)
    } else if code == 0x1009 {
        Some(3)
    } else if code == 0x100a {
        Some(9)
    } else if code == 0x100b {
        Some(6)
    } else if code == 0x1011 {
        Some(4)
    } else if code == 0x3201 {
        Some(16)
    } else {
        None
    }
}

fn str_eq(a: &str, b: &str) -> (r: bool)
    ensures
        r == (a@ == b@),
{
    a.to_owned() == b.to_owned()
}

/// A content has as many fields as its type code calls for.
pub proof fn lemma_field_count(c: MsgContent)
    ensures
        field_count(c.spec_code()) == Some(c.spec_fields().len()),
{
}

/// Word `k` of a content's payload is its `k`-th field, big-endian.
proof fn lemma_payload_word(c: MsgContent, k: int)
    requires
        0 <= k < c.spec_fields().len(),
    ensures
        c.spec_payload().len() == 4 * c.spec_fields().len(),
        c.spec_payload().subrange(4 * k, 4 * k + 4) == be32(c.spec_fields()[k]),
{
    lemma_be32s_word(c.spec_fields(), k);
}

/// The payload of every content is its fields as big-endian 32-bit words,
/// in the order in which the fields are declared.
pub proof fn lemma_payload_layout(c: MsgContent)
    ensures
        match c {
            MsgContent::WorkMode(x) => c.spec_payload() == be32(x),
            MsgContent::Status(a) => c.spec_payload() == be32(a[0]) + be32(a[1]),
            MsgContent::Reset(x) => c.spec_payload() == be32(x),
            MsgContent::SelfTest { magic, action } => {
                &&& c.spec_payload().len() == 24
                &&& forall|k: int|
                    0 <= k < 5 ==> #[trigger] c.spec_payload().subrange(4 * k, 4 * k + 4) == be32(
                        magic[k],
                    )
                &&& c.spec_payload().subrange(20, 24) == be32(action)
            },
            MsgContent::AcquireSample { acq_ad, acq_ch, ch } => c.spec_payload() == be32(acq_ad)
                + be32(acq_ch) + be32(ch),
            MsgContent::BitCut { board_id, filter_cut, dbf_cut } => c.spec_payload() == be32(
                board_id,
            ) + be32(filter_cut) + be32(dbf_cut),
            MsgContent::BaseCh { board_id, beam1, beam2 } => {
                &&& c.spec_payload().len() == 36
                &&& c.spec_payload().subrange(0, 4) == be32(board_id)
                &&& forall|k: int|
                    0 <= k < 4 ==> #[trigger] c.spec_payload().subrange(4 + 4 * k, 8 + 4 * k)
                        == be32(beam1[k])
                &&& forall|k: int|
                    0 <= k < 4 ==> #[trigger] c.spec_payload().subrange(20 + 4 * k, 24 + 4 * k)
                        == be32(beam2[k])
            },
            MsgContent::BeamCtrl { beam_id, calc_wgt, apply_wgt } => {
                &&& c.spec_payload().len() == 24
                &&& forall|k: int|
                    0 <= k < 4 ==> #[trigger] c.spec_payload().subrange(4 * k, 4 * k + 4) == be32(
                        beam_id[k],
                    )
                &&& c.spec_payload().subrange(16, 20) == be32(calc_wgt)
                &&& c.spec_payload().subrange(20, 24) == be32(apply_wgt)
            },
            MsgContent::MultiCtrl { cmd, param } => {
                &&& c.spec_payload().len() == 16
                &&& c.spec_payload().subrange(0, 4) == be32(cmd)
                &&& forall|k: int|
                    0 <= k < 3 ==> #[trigger] c.spec_payload().subrange(4 + 4 * k, 8 + 4 * k)
                        == be32(param[k])
            },
            MsgContent::AttSet(a) => {
                &&& c.spec_payload().len() == 64
                &&& forall|k: int|
                    0 <= k < 16 ==> #[trigger] c.spec_payload().subrange(4 * k, 4 * k + 4) == be32(
                        a[k],
                    )
            },
        },
{
    let p = c.spec_payload();
    let f = c.spec_fields();
    match c {
        MsgContent::WorkMode(x) => {
            lemma_payload_word(c, 0);
            assert(p =~= p.subrange(0, 4));
        },
        MsgContent::Reset(x) => {
            lemma_payload_word(c, 0);
            assert(p =~= p.subrange(0, 4));
        },
        MsgContent::Status(a) => {
            lemma_payload_word(c, 0);
            lemma_payload_word(c, 1);
            assert(p =~= p.subrange(0, 4) + p.subrange(4, 8));
        },
        MsgContent::AcquireSample { .. } => {
            lemma_payload_word(c, 0);
            lemma_payload_word(c, 1);
            lemma_payload_word(c, 2);
            assert(p =~= p.subrange(0, 4) + p.subrange(4, 8) + p.subrange(8, 12));
        },
        MsgContent::BitCut { .. } => {
            lemma_payload_word(c, 0);
            lemma_payload_word(c, 1);
            lemma_payload_word(c, 2);
            assert(p =~= p.subrange(0, 4) + p.subrange(4, 8) + p.subrange(8, 12));
        },
        MsgContent::SelfTest { magic, action } => {
            assert forall|k: int| 0 <= k < 5 implies #[trigger] p.subrange(4 * k, 4 * k + 4) == be32(
                magic[k],
            ) by {
                lemma_payload_word(c, k);
            }
            lemma_payload_word(c, 5);
        },
        MsgContent::BaseCh { board_id, beam1, beam2 } => {
            lemma_payload_word(c, 0);
            assert forall|k: int| 0 <= k < 4 implies #[trigger] p.subrange(4 + 4 * k, 8 + 4 * k)
                == be32(beam1[k]) by {
                lemma_payload_word(c, 1 + k);
            }
            assert forall|k: int| 0 <= k < 4 implies #[trigger] p.subrange(20 + 4 * k, 24 + 4 * k)
                == be32(beam2[k]) by {
                lemma_payload_word(c, 5 + k);
            }
        },
        MsgContent::BeamCtrl { beam_id, calc_wgt, apply_wgt } => {
            assert forall|k: int| 0 <= k < 4 implies #[trigger] p.subrange(4 * k, 4 * k + 4) == be32(
                beam_id[k],
            ) by {
                lemma_payload_word(c, k);
            }
            lemma_payload_word(c, 4);
            lemma_payload_word(c, 5);
        },
        MsgContent::MultiCtrl { cmd, param } => {
            lemma_payload_word(c, 0);
            assert forall|k: int| 0 <= k < 3 implies #[trigger] p.subrange(4 + 4 * k, 8 + 4 * k)
                == be32(param[k]) by {
                lemma_payload_word(c, 1 + k);
            }
        },
        MsgContent::AttSet(a) => {
            assert forall|k: int| 0 <= k < 16 implies #[trigger] p.subrange(4 * k, 4 * k + 4) == be32(
                a[k],
            ) by {
                lemma_payload_word(c, k);
            }
            lemma_payload_word(c, 0);
        },
    }
}

/// The type code of every content, and the number of its fields.
pub proof fn lemma_type_codes(c: MsgContent)
    ensures
        match c {
            MsgContent::WorkMode(..) => c.spec_code() == 0x1001 && c.spec_fields().len() == 1,
            MsgContent::Status(..) => c.spec_code() == 0x1002 && c.spec_fields().len() == 2,
            MsgContent::Reset(..) => c.spec_code() == 0x1007 && c.spec_fields().len() == 1,
            MsgContent::SelfTest { .. } => c.spec_code() == 0x1004 && c.spec_fields().len() == 6,
            MsgContent::AcquireSample { .. } => c.spec_code() == 0x1008 && c.spec_fields().len()
                == 3,
            MsgContent::BitCut { .. } => c.spec_code() == 0x1009 && c.spec_fields().len() == 3,
            MsgContent::BaseCh { .. } => c.spec_code() == 0x100a && c.spec_fields().len() == 9,
            MsgContent::BeamCtrl { .. } => c.spec_code() == 0x100b && c.spec_fields().len() == 6,
            MsgContent::MultiCtrl { .. } => c.spec_code() == 0x1011 && c.spec_fields().len() == 4,
            MsgContent::AttSet(..) => c.spec_code() == 0x3201 && c.spec_fields().len() == 16,
        },
{
}

/// A reply answers a content exactly when its `msg_type` is the name of
/// the content's variant, or, for `MultiCtrl`, `IPAddr`.
pub proof fn lemma_reply_types(c: MsgContent, t: Seq<char>)
    ensures
        match c {
            MsgContent::WorkMode(..) => c.spec_accepts(t) <==> t == "WorkMode"@,
            MsgContent::Status(..) => c.spec_accepts(t) <==> t == "Status"@,
            MsgContent::Reset(..) => c.spec_accepts(t) <==> t == "Reset"@,
            MsgContent::SelfTest { .. } => c.spec_accepts(t) <==> t == "SelfTest"@,
            MsgContent::AcquireSample { .. } => c.spec_accepts(t) <==> t == "AcquireSample"@,
            MsgContent::BitCut { .. } => c.spec_accepts(t) <==> t == "BitCut"@,
            MsgContent::BaseCh { .. } => c.spec_accepts(t) <==> t == "BaseCh"@,
            MsgContent::BeamCtrl { .. } => c.spec_accepts(t) <==> t == "BeamCtrl"@,
            MsgContent::MultiCtrl { .. } => c.spec_accepts(t) <==> (t == "MultiCtrl"@ || t
                == "IPAddr"@),
            MsgContent::AttSet(..) => c.spec_accepts(t) <==> t == "AttSet"@,
        },
{
}

/// The type code and the fields determine a content.
pub proof fn lemma_content_determined(c1: MsgContent, c2: MsgContent)
    requires
        c1.spec_code() == c2.spec_code(),
        c1.spec_fields() == c2.spec_fields(),
    ensures
        c1 == c2,
{
    let f = c1.spec_fields();
    match c1 {
        MsgContent::Status(a) => {
            if let MsgContent::Status(b) = c2 {
                assert(a =~= b);
                assert(a == b);
            } else {
                assert(false);
            }
        },
        MsgContent::SelfTest { magic, action } => {
            if let MsgContent::SelfTest { magic: m2, action: a2 } = c2 {
                assert(magic@ == f.drop_last());
                assert(m2@ == f.drop_last());
                assert(magic =~= m2);
                assert(f[5] == c2.spec_fields()[5]);
            }
        },
        MsgContent::BaseCh { board_id, beam1, beam2 } => {
            if let MsgContent::BaseCh { board_id: b2, beam1: x2, beam2: y2 } = c2 {
                assert(beam1@ =~= f.subrange(1, 5));
                assert(x2@ =~= f.subrange(1, 5));
                assert(beam2@ =~= f.subrange(5, 9));
                assert(y2@ =~= f.subrange(5, 9));
                assert(beam1 =~= x2);
                assert(beam2 =~= y2);
                assert(f[0] == c2.spec_fields()[0]);
            }
        },
        MsgContent::BeamCtrl { beam_id, calc_wgt, apply_wgt } => {
            if let MsgContent::BeamCtrl { beam_id: b2, calc_wgt: c2w, apply_wgt: a2 } = c2 {
                assert(beam_id@ =~= f.subrange(0, 4));
                assert(b2@ =~= f.subrange(0, 4));
                assert(beam_id =~= b2);
                assert(f[4] == c2.spec_fields()[4]);
                assert(f[5] == c2.spec_fields()[5]);
            }
        },
        MsgContent::MultiCtrl { cmd, param } => {
            if let MsgContent::MultiCtrl { cmd: c2c, param: p2 } = c2 {
                assert(param@ =~= f.subrange(1, 4));
                assert(p2@ =~= f.subrange(1, 4));
                assert(param =~= p2);
                assert(f[0] == c2.spec_fields()[0]);
            }
        },
        MsgContent::AttSet(a) => {
            if let MsgContent::AttSet(b) = c2 {
                assert(a =~= b);
            }
        },
        MsgContent::WorkMode(x) => {
            assert(f[0] == c2.spec_fields()[0]);
        },
        MsgContent::Reset(x) => {
            assert(f[0] == c2.spec_fields()[0]);
        },
        MsgContent::AcquireSample { .. } => {
            let g = c2.spec_fields();
            assert(f[0] == g[0] && f[1] == g[1] && f[2] == g[2]);
        },
        MsgContent::BitCut { .. } => {
            let g = c2.spec_fields();
            assert(f[0] == g[0] && f[1] == g[1] && f[2] == g[2]);
        },
    }
}

/// The bytes determine the content read from them.
pub proof fn lemma_decodes_to_unique(b: Seq<u8>, c1: MsgContent, c2: MsgContent)
    requires
        decodes_to(b, c1),
        decodes_to(b, c2),
    ensures
        c1 == c2,
{
    lemma_field_count(c1);
    lemma_field_count(c2);
    lemma_content_determined(c1, c2);
}

/// Reading a content from its encoding, whatever follows it, gives that content back.
pub proof fn lemma_content_roundtrip(c: MsgContent, rest: Seq<u8>)
    ensures
        decodes_to(c.spec_encoding() + rest, c),
        forall|c2: MsgContent| decodes_to(c.spec_encoding() + rest, c2) ==> c2 == c,
{
    let b = c.spec_encoding() + rest;
    let code = c.spec_code();
    lemma_be16_roundtrip(code);
    assert(b[0] == be16(code)[0]);
    assert(b[1] == be16(code)[1]);
    lemma_be32s_roundtrip(be16(code), c.spec_fields(), rest);
    assert(b =~= be16(code) + be32s(c.spec_fields()) + rest);
    assert forall|c2: MsgContent| decodes_to(b, c2) implies c2 == c by {
        lemma_decodes_to_unique(b, c, c2);
    }
}

// ---------------------------------------------------------------------------
// Header, tail and whole message
// ---------------------------------------------------------------------------

/// Length of a message header, in memory and on the wire.
pub const HEADER_LEN: usize = 32;

/// Length of a message tail, in memory and on the wire.
pub const TAIL_LEN: usize = 12;

/// The first word of every message header.
pub const HEADER_MAGIC: u32 = 0x5a5a5a5a;

/// The header of a control message.
#[derive(Debug, Clone, Copy, PartialEq, Eq)]
pub struct MsgHeader {
    pub header: u32,
    pub pkt_len: u32,
    pub rev1: [u8; 6],
    pub msg_type: u16,
    pub timestamp: u32,
    pub microsecs: u32,
    pub msg_cnt: u16,
    pub rev2: [u8; 6],
}

/// `t / d` rounded toward zero, as Rust divides signed integers.
pub open spec fn trunc_div(t: int, d: int) -> int {
    if t >= 0 {
        t / d
    } else {
        -((-t) / d)
    }
}

impl MsgHeader {
    /// The header on the wire: each field big-endian, in declaration order (32 bytes).
    pub open spec fn spec_encoding(self) -> Seq<u8> {
        be32(self.header) + be32(self.pkt_len) + self.rev1@ + be16(self.msg_type) + be32(
            self.timestamp,
        ) + be32(self.microsecs) + be16(self.msg_cnt) + self.rev2@
    }

    /// The header is what its 32 bytes at the start of `b` say.
    pub open spec fn read_from(self, b: Seq<u8>) -> bool {
        &&& self.header == be32_at(b, 0)
        &&& self.pkt_len == be32_at(b, 4)
        &&& self.rev1@ == b.subrange(8, 14)
        &&& self.msg_type == be16_at(b, 14)
        &&& self.timestamp == be32_at(b, 16)
        &&& self.microsecs == be32_at(b, 20)
        &&& self.msg_cnt == be16_at(b, 24)
        &&& self.rev2@ == b.subrange(26, 32)
    }

    /// The header of a new message of type `msg_type`, `pkt_len` bytes long,
    /// numbered `msg_cnt`, stamped with the time `t_us` in microseconds since
    /// the Unix epoch: whole seconds and the microseconds left over, both
    /// truncated to 32 bits.
    pub open spec fn made_at(self, msg_type: u16, pkt_len: usize, msg_cnt: u16, t_us: i64) -> bool {
        let t_s = trunc_div(t_us as int, 1_000_000);
        &&& self.header == HEADER_MAGIC
        &&& self.pkt_len == pkt_len as u32
        &&& self.rev1@ == Seq::new(6, |i: int| 0u8)
        &&& self.msg_type == msg_type
        &&& self.timestamp == t_s as u32
        &&& self.microsecs == (t_us - t_s * 1_000_000) as u32
        &&& self.msg_cnt == msg_cnt
        &&& self.rev2@ == Seq::new(6, |i: int| 0u8)
    }

    /// The header of a new message stamped with the time `t_us`, in
    /// microseconds since the Unix epoch.
    pub fn at_time(msg_type: u16, pkt_len: usize, msg_cnt: u16, t_us: i64) -> (h: MsgHeader)
        ensures
            h.made_at(msg_type, pkt_len, msg_cnt, t_us),
    {
        let t_s = t_us / 1_000_000;
        proof {
            let q = trunc_div(t_us as int, 1_000_000);
            assert(q == t_s);
            if t_us >= 0 {
                assert(0 <= t_us - q * 1_000_000 < 1_000_000) by (nonlinear_arith)
                    requires
                        t_us >= 0,
                        q == t_us as int / 1_000_000,
                ;
            } else {
                assert(-1_000_000 < t_us - q * 1_000_000 <= 0) by (nonlinear_arith)
                    requires
                        t_us < 0,
                        q == -((-t_us) as int / 1_000_000),
                ;
            }
        }
        let t_sub_sec_us = t_us - t_s * 1_000_000;
        let h = MsgHeader {
            header: HEADER_MAGIC,
            pkt_len: pkt_len as u32,
            rev1: [0u8; 6],
            msg_type,
            timestamp: t_s as u32,
            microsecs: t_sub_sec_us as u32,
            msg_cnt,
            rev2: [0u8; 6],
        };
        assert(h.rev1@ =~= Seq::new(6, |i: int| 0u8));
        assert(h.rev2@ =~= Seq::new(6, |i: int| 0u8));
        h
    }

    /// The header of a new message stamped with the current time.
    pub fn new(msg_type: u16, pkt_len: usize, msg_cnt: u16) -> (h: MsgHeader)
        ensures
            exists|t_us: i64| #[trigger] h.made_at(msg_type, pkt_len, msg_cnt, t_us),
    {
        let t_us = utc_now_micros();
        MsgHeader::at_time(msg_type, pkt_len, msg_cnt, t_us)
    }

    /// Appends the header as it goes on the wire.
    pub fn write(&self, out: &mut Vec<u8>)
        ensures
            final(out)@ == old(out)@ + self.spec_encoding(),
    {
        push_be32(out, self.header);
        push_be32(out, self.pkt_len);
        push_bytes(out, &self.rev1);
        push_be16(out, self.msg_type);
        push_be32(out, self.timestamp);
        push_be32(out, self.microsecs);
        push_be16(out, self.msg_cnt);
        push_bytes(out, &self.rev2);
        assert(final(out)@ =~= old(out)@ + self.spec_encoding());
    }

    /// Reads a header from the first 32 bytes of `b`.
    pub fn read(b: &[u8]) -> (r: Result<MsgHeader, MsgError>)
        ensures
            match r {
                Ok(h) => b@.len() >= HEADER_LEN && h.read_from(b@),
                Err(e) => e == MsgError::UnexpectedEof && b@.len() < HEADER_LEN,
            },
    {
        if b.len() < HEADER_LEN {
            return Err(MsgError::UnexpectedEof);
        }
        let h = MsgHeader {
            header: read_be32(b, 0),
            pkt_len: read_be32(b, 4),
            rev1: [b[8], b[9], b[10], b[11], b[12], b[13]],
            msg_type: read_be16(b, 14),
            timestamp: read_be32(b, 16),
            microsecs: read_be32(b, 20),
            msg_cnt: read_be16(b, 24),
            rev2: [b[26], b[27], b[28], b[29], b[30], b[31]],
        };
        assert(h.rev1@ =~= b@.subrange(8, 14));
        assert(h.rev2@ =~= b@.subrange(26, 32));
        Ok(h)
    }

    /// The console dump of the header: its bytes in numbered chunks of four.
    pub fn show_bytes(&self) -> (r: Vec<u8>)
        ensures
            r@ == hex_dump(self.spec_encoding()),
    {
        let mut buf: Vec<u8> = Vec::new();
        self.write(&mut buf);
        let mut text: Vec<u8> = Vec::new();
        push_hex_dump(&mut text, buf.as_slice());
        assert(buf@ =~= self.spec_encoding());
        text
    }
}

/// The tail of a control message.
#[derive(Debug, Clone, Copy, PartialEq, Eq)]
pub struct MsgTail {
    pub rev: [u8; 3],
    pub checksum: u8,
    pub tail: [u8; 8],
}

impl MsgTail {
    /// The tail on the wire: its bytes in declaration order (12 bytes).
    pub open spec fn spec_encoding(self) -> Seq<u8> {
        self.rev@ + seq![self.checksum] + self.tail@
    }

    /// The tail is what the first 12 bytes of `b` say.
    pub open spec fn read_from(self, b: Seq<u8>) -> bool {
        &&& self.rev@ == b.subrange(0, 3)
        &&& self.checksum == b[3]
        &&& self.tail@ == b.subrange(4, 12)
    }

    /// The tail of a new message: three zero bytes, the checksum, eight bytes `0xaa`.
    pub open spec fn is_new_tail(self, checksum: u8) -> bool {
        &&& self.rev@ == Seq::new(3, |i: int| 0u8)
        &&& self.checksum == checksum
        &&& self.tail@ == Seq::new(8, |i: int| 0xaau8)
    }

    /// Appends the tail as it goes on the wire.
    pub fn write(&self, out: &mut Vec<u8>)
        ensures
            final(out)@ == old(out)@ + self.spec_encoding(),
    {
        push_bytes(out, &self.rev);
        out.push(self.checksum);
        push_bytes(out, &self.tail);
        assert(final(out)@ =~= old(out)@ + self.spec_encoding());
    }

    /// Reads a tail from the first 12 bytes of `b`.
    pub fn read(b: &[u8]) -> (r: Result<MsgTail, MsgError>)
        ensures
            match r {
                Ok(t) => b@.len() >= TAIL_LEN && t.read_from(b@),
                Err(e) => e == MsgError::UnexpectedEof && b@.len() < TAIL_LEN,
            },
    {
        if b.len() < TAIL_LEN {
            return Err(MsgError::UnexpectedEof);
        }
        let t = MsgTail {
            rev: [b[0], b[1], b[2]],
            checksum: b[3],
            tail: [b[4], b[5], b[6], b[7], b[8], b[9], b[10], b[11]],
        };
        assert(t.rev@ =~= b@.subrange(0, 3));
        assert(t.tail@ =~= b@.subrange(4, 12));
        Ok(t)
    }

    /// The console dump of the tail: its bytes in numbered chunks of four.
    pub fn show_bytes(&self) -> (r: Vec<u8>)
        ensures
            r@ == hex_dump(self.spec_encoding()),
    {
        let mut buf: Vec<u8> = Vec::new();
        self.write(&mut buf);
        let mut text: Vec<u8> = Vec::new();
        push_hex_dump(&mut text, buf.as_slice());
        assert(buf@ =~= self.spec_encoding());
        text
    }
}

/// The sum of the bytes of `s`.
pub open spec fn byte_sum(s: Seq<u8>) -> int
    decreases s.len(),
{
    if s.len() == 0 {
        0
    } else {
        byte_sum(s.drop_last()) + s.last()
    }
}

/// The byte that brings the byte sum of `s` to zero modulo 256.
pub open spec fn neg_sum_byte(s: Seq<u8>) -> u8 {
    ((0 - byte_sum(s)) % 256) as u8
}

/// The checksum of a message with this header and payload: the negated byte
/// sum, modulo 256, of the header from its fifth byte on, the payload and the
/// three reserved zero bytes of the tail.
pub open spec fn msg_checksum(head: MsgHeader, payload: Seq<u8>) -> u8 {
    neg_sum_byte((head.spec_encoding() + payload + seq![0u8, 0u8, 0u8]).skip(4))
}

/// A control message: header, payload and tail.
pub struct CtrlMsg {
    pub head: MsgHeader,
    pub payload: Vec<u8>,
    pub tail: MsgTail,
}

/// A whole message can be read from `b`: it holds a header and at least as
/// many bytes as the header's length field says.
pub open spec fn msg_readable(b: Seq<u8>) -> bool {
    &&& b.len() >= HEADER_LEN
    &&& b.len() >= be32_at(b, 4)
}

impl CtrlMsg {
    /// The message on the wire: header, payload, tail.
    pub open spec fn spec_encoding(self) -> Seq<u8> {
        self.head.spec_encoding() + self.payload@ + self.tail.spec_encoding()
    }

    /// The bytes from which the content is read: the type code from the
    /// header, big-endian, then the payload.
    pub open spec fn content_bytes(self) -> Seq<u8> {
        be16(self.head.msg_type) + self.payload@
    }

    /// The message is what the start of `b` says: the header, then as many
    /// payload bytes as the header's length calls for, then the tail.
    pub open spec fn read_from(self, b: Seq<u8>) -> bool {
        let n = self.head.pkt_len as int;
        &&& self.head.read_from(b)
        &&& self.payload@ == b.subrange(HEADER_LEN as int, n - TAIL_LEN)
        &&& self.tail.read_from(b.subrange(n - TAIL_LEN, n))
    }

    /// The message is a new message of content `c`, numbered `msg_cnt`, made
    /// at some time: its payload is the content's payload, its length field
    /// counts header, payload and tail, and its tail holds the checksum.
    pub open spec fn is_new_message(self, c: MsgContent, msg_cnt: u16) -> bool {
        &&& self.payload@ == c.spec_payload()
        &&& exists|t_us: i64|
            #[trigger] self.head.made_at(
                c.spec_code(),
                (HEADER_LEN + TAIL_LEN + c.spec_payload().len()) as usize,
                msg_cnt,
                t_us,
            )
        &&& self.tail.is_new_tail(msg_checksum(self.head, self.payload@))
    }

    /// The console dump of the message: header, content and tail.
    pub open spec fn spec_show(self, c: MsgContent) -> Seq<u8> {
        hex_dump(self.head.spec_encoding()) + c.spec_show() + hex_dump(self.tail.spec_encoding())
    }

    /// A new message of content `msg_cont`, numbered `msg_cnt`, stamped with the current time.
    pub fn new(msg_cont: MsgContent, msg_cnt: u16) -> (m: CtrlMsg)
        ensures
            m.is_new_message(msg_cont, msg_cnt),
    {
        let (code, payload) = msg_cont.to_bytes();
        proof {
            lemma_field_count(msg_cont);
        }
        let pkt_len = CtrlMsg::calc_msg_len(payload.len());
        assert(payload@.len() <= 64);
        assert(pkt_len as usize == (HEADER_LEN + TAIL_LEN + msg_cont.spec_payload().len()) as usize);
        let head = MsgHeader::new(code, pkt_len as usize, msg_cnt);
        proof {
            let t = choose|t: i64| #[trigger] head.made_at(code, pkt_len as usize, msg_cnt, t);
            assert(head.made_at(
                msg_cont.spec_code(),
                (HEADER_LEN + TAIL_LEN + msg_cont.spec_payload().len()) as usize,
                msg_cnt,
                t,
            ));
        }
        let checksum = CtrlMsg::calc_checksum(&head, payload.as_slice());
        let m = CtrlMsg {
            head,
            payload,
            tail: MsgTail { rev: [0u8; 3], checksum, tail: [0xaau8; 8] },
        };
        assert(m.tail.rev@ =~= Seq::new(3, |i: int| 0u8));
        assert(m.tail.tail@ =~= Seq::new(8, |i: int| 0xaau8));
        assert(m.payload@ == msg_cont.spec_payload());
        assert(m.tail.is_new_tail(msg_checksum(m.head, m.payload@)));
        m
    }

    /// The length of a message with a payload of `payload_len` bytes:
    /// header, payload and tail, truncated to 32 bits.
    pub fn calc_msg_len(payload_len: usize) -> (r: u32)
        requires
            payload_len <= usize::MAX - HEADER_LEN - TAIL_LEN,
        ensures
            r == (HEADER_LEN + TAIL_LEN + payload_len) as u32,
    {
        (HEADER_LEN + TAIL_LEN + payload_len) as u32
    }

    fn calc_checksum(head: &MsgHeader, payload: &[u8]) -> (r: u8)
        ensures
            r == msg_checksum(*head, payload@),
    {
        let mut buf: Vec<u8> = Vec::new();
        head.write(&mut buf);
        push_bytes(&mut buf, payload);
        buf.push(0);
        buf.push(0);
        buf.push(0);
        let ghost all = head.spec_encoding() + payload@ + seq![0u8, 0u8, 0u8];
        assert(buf@ =~= all);
        let n = buf.len();
        let mut checksum: u8 = 0;
        let mut i: usize = 4;
        assert(all.subrange(4, 4) =~= Seq::<u8>::empty());
        while i < n
            invariant
                4 <= i <= n,
                n == buf@.len(),
                buf@ == all,
                checksum == neg_sum_byte(all.subrange(4, i as int)),
            decreases n - i,
        {
            let x = buf[i];
            let ghost s = all.subrange(4, i as int);
            let ghost s2 = all.subrange(4, i + 1);
            assert(s2.drop_last() =~= s);
            assert(byte_sum(s2) == byte_sum(s) + x);
            if checksum >= x {
                checksum = checksum - x;
            } else {
                checksum = (checksum as u16 + 256 - x as u16) as u8;
            }
            proof {
                let a = 0 - byte_sum(s);
                assert(checksum as int == (a - x) % 256);
            }
            i = i + 1;
        }
        assert(all.subrange(4, n as int) =~= all.skip(4));
        checksum
    }

    /// Appends the message as it goes on the wire: header, payload, tail.
    pub fn write(&self, writer: &mut Vec<u8>)
        ensures
            final(writer)@ == old(writer)@ + self.spec_encoding(),
    {
        self.head.write(writer);
        push_bytes(writer, self.payload.as_slice());
        self.tail.write(writer);
        assert(final(writer)@ =~= old(writer)@ + self.spec_encoding());
    }

    /// Reads a message from the start of `b`: a header, then as many payload
    /// bytes as its length field leaves after header and tail, then the tail.
    pub fn read(b: &[u8]) -> (r: Result<CtrlMsg, MsgError>)
        requires
            b@.len() >= HEADER_LEN ==> be32_at(b@, 4) >= HEADER_LEN + TAIL_LEN,
        ensures
            match r {
                Ok(m) => msg_readable(b@) && m.read_from(b@),
                Err(e) => e == MsgError::UnexpectedEof && !msg_readable(b@),
            },
    {
        let head = match MsgHeader::read(b) {
            Ok(h) => h,
            Err(e) => {
                return Err(e);
            },
        };
        let msg_len = head.pkt_len as usize;
        let payload_len = msg_len - (HEADER_LEN + TAIL_LEN);
        if b.len() - HEADER_LEN < payload_len {
            return Err(MsgError::UnexpectedEof);
        }
        let payload = copy_range(b, HEADER_LEN, HEADER_LEN + payload_len);
        let tail = match MsgTail::read(&b[HEADER_LEN + payload_len..b.len()]) {
            Ok(t) => t,
            Err(e) => {
                return Err(e);
            },
        };
        let m = CtrlMsg { head, payload, tail };
        proof {
            let n = head.pkt_len as int;
            assert(b@.subrange(n - 12, b@.len() as int).subrange(0, 12) =~= b@.subrange(
                n - 12,
                n,
            ));
            assert(b@.subrange(n - 12, b@.len() as int).subrange(4, 12) =~= b@.subrange(
                n - 12,
                n,
            ).subrange(4, 12));
            assert(b@.subrange(n - 12, b@.len() as int).subrange(0, 3) =~= b@.subrange(
                n - 12,
                n,
            ).subrange(0, 3));
        }
        Ok(m)
    }

    /// Reads the content of the message from the type code in its header and its payload.
    pub fn get_payload(&self) -> (r: Result<MsgContent, MsgError>)
        ensures
            match r {
                Ok(c) => decodes_to(self.content_bytes(), c),
                Err(e) => e == MsgError::NoVariantMatch && !content_readable(self.content_bytes()),
            },
    {
        let mut buf: Vec<u8> = Vec::new();
        push_be16(&mut buf, self.head.msg_type);
        push_bytes(&mut buf, self.payload.as_slice());
        assert(buf@ =~= self.content_bytes());
        MsgContent::read(buf.as_slice())
    }

    /// The console dump of the message: the header, the content read from the
    /// message, and the tail.
    pub fn show_bytes(&self) -> (r: Vec<u8>)
        requires
            content_readable(self.content_bytes()),
        ensures
            exists|c: MsgContent|
                #[trigger] decodes_to(self.content_bytes(), c) && r@ == self.spec_show(c),
    {
        let mut text = self.head.show_bytes();
        let c = match self.get_payload() {
            Ok(c) => c,
            Err(_) => {
                return Vec::new();
            },
        };
        let content_text = c.show_bytes();
        push_bytes(&mut text, content_text.as_slice());
        let tail_text = self.tail.show_bytes();
        push_bytes(&mut text, tail_text.as_slice());
        assert(text@ =~= self.spec_show(c));
        text
    }
}

/// A header read from its own encoding, whatever follows it, is that header.
pub proof fn lemma_header_roundtrip(h: MsgHeader, rest: Seq<u8>)
    ensures
        h.spec_encoding().len() == HEADER_LEN,
        (h.spec_encoding() + rest).len() >= HEADER_LEN,
        h.read_from(h.spec_encoding() + rest),
{
    let b = h.spec_encoding() + rest;
    assert(b.subrange(0, 4) =~= be32(h.header));
    assert(b.subrange(4, 8) =~= be32(h.pkt_len));
    assert(b.subrange(8, 14) =~= h.rev1@);
    assert(b.subrange(14, 16) =~= be16(h.msg_type));
    assert(b.subrange(16, 20) =~= be32(h.timestamp));
    assert(b.subrange(20, 24) =~= be32(h.microsecs));
    assert(b.subrange(24, 26) =~= be16(h.msg_cnt));
    assert(b.subrange(26, 32) =~= h.rev2@);
    lemma_be32_at_sub(b, 0, h.header);
    lemma_be32_at_sub(b, 4, h.pkt_len);
    lemma_be16_at_sub(b, 14, h.msg_type);
    lemma_be32_at_sub(b, 16, h.timestamp);
    lemma_be32_at_sub(b, 20, h.microsecs);
    lemma_be16_at_sub(b, 24, h.msg_cnt);
}

/// Where each field of a header stands on the wire (32 bytes): the magic
/// word at 0, the length at 4, six reserved bytes at 8, the type code at 14,
/// the seconds at 16, the microseconds at 20, the counter at 24 and six
/// reserved bytes at 26, each number big-endian.
pub proof fn lemma_header_layout(h: MsgHeader)
    ensures
        h.spec_encoding().len() == 32,
        h.spec_encoding().subrange(0, 4) == be32(h.header),
        h.spec_encoding().subrange(4, 8) == be32(h.pkt_len),
        h.spec_encoding().subrange(8, 14) == h.rev1@,
        h.spec_encoding().subrange(14, 16) == be16(h.msg_type),
        h.spec_encoding().subrange(16, 20) == be32(h.timestamp),
        h.spec_encoding().subrange(20, 24) == be32(h.microsecs),
        h.spec_encoding().subrange(24, 26) == be16(h.msg_cnt),
        h.spec_encoding().subrange(26, 32) == h.rev2@,
{
    let e = h.spec_encoding();
    assert(e.subrange(0, 4) =~= be32(h.header));
    assert(e.subrange(4, 8) =~= be32(h.pkt_len));
    assert(e.subrange(8, 14) =~= h.rev1@);
    assert(e.subrange(14, 16) =~= be16(h.msg_type));
    assert(e.subrange(16, 20) =~= be32(h.timestamp));
    assert(e.subrange(20, 24) =~= be32(h.microsecs));
    assert(e.subrange(24, 26) =~= be16(h.msg_cnt));
    assert(e.subrange(26, 32) =~= h.rev2@);
}

/// Where each field of a tail stands on the wire (12 bytes): three
/// reserved bytes, the checksum at 3, eight tail bytes at 4.
pub proof fn lemma_tail_layout(t: MsgTail)
    ensures
        t.spec_encoding().len() == 12,
        t.spec_encoding().subrange(0, 3) == t.rev@,
        t.spec_encoding()[3] == t.checksum,
        t.spec_encoding().subrange(4, 12) == t.tail@,
{
    let e = t.spec_encoding();
    assert(e.subrange(0, 3) =~= t.rev@);
    assert(e.subrange(4, 12) =~= t.tail@);
}

/// The bytes determine the header read from them.
pub proof fn lemma_header_determined(h1: MsgHeader, h2: MsgHeader, b: Seq<u8>)
    requires
        h1.read_from(b),
        h2.read_from(b),
    ensures
        h1 == h2,
{
    assert(h1.rev1 =~= h2.rev1);
    assert(h1.rev2 =~= h2.rev2);
}

/// A tail read from its own encoding, whatever follows it, is that tail.
pub proof fn lemma_tail_roundtrip(t: MsgTail, rest: Seq<u8>)
    ensures
        t.spec_encoding().len() == TAIL_LEN,
        t.read_from(t.spec_encoding() + rest),
{
    let b = t.spec_encoding() + rest;
    assert(b.subrange(0, 3) =~= t.rev@);
    assert(b.subrange(4, 12) =~= t.tail@);
}

/// The bytes determine the tail read from them.
pub proof fn lemma_tail_determined(t1: MsgTail, t2: MsgTail, b: Seq<u8>)
    requires
        t1.read_from(b),
        t2.read_from(b),
    ensures
        t1 == t2,
{
    assert(t1.rev =~= t2.rev);
    assert(t1.tail =~= t2.tail);
}

/// A message whose length field counts its header, payload and tail is read
/// back from its own encoding, whatever follows it: the read is allowed, it
/// succeeds, and it gives the same header, payload and tail.
pub proof fn lemma_msg_roundtrip(m: CtrlMsg, rest: Seq<u8>)
    requires
        m.head.pkt_len == HEADER_LEN + m.payload@.len() + TAIL_LEN,
    ensures
        be32_at(m.spec_encoding() + rest, 4) >= HEADER_LEN + TAIL_LEN,
        msg_readable(m.spec_encoding() + rest),
        m.read_from(m.spec_encoding() + rest),
{
    let he = m.head.spec_encoding();
    let p = m.payload@;
    let te = m.tail.spec_encoding();
    let b = m.spec_encoding() + rest;
    lemma_header_roundtrip(m.head, p + te + rest);
    assert(b =~= he + (p + te + rest));
    lemma_tail_roundtrip(m.tail, Seq::<u8>::empty());
    let n = m.head.pkt_len as int;
    assert(b.subrange(HEADER_LEN as int, n - TAIL_LEN) =~= p);
    assert(b.subrange(n - TAIL_LEN, n) =~= te);
    assert(b.subrange(n - TAIL_LEN, n) =~= te + Seq::<u8>::empty());
}

proof fn lemma_byte_sum_push(s: Seq<u8>, x: u8)
    ensures
        byte_sum(s.push(x)) == byte_sum(s) + x,
{
    assert(s.push(x).drop_last() =~= s);
}

proof fn lemma_checksum_zero(m: CtrlMsg)
    requires
        m.tail.checksum == msg_checksum(m.head, m.payload@),
        m.tail.rev@ == Seq::new(3, |i: int| 0u8),
    ensures
        byte_sum(m.spec_encoding().subrange(4, HEADER_LEN + m.payload@.len() + 4)) % 256 == 0,
{
    lemma_header_roundtrip(m.head, Seq::<u8>::empty());
    let s = (m.head.spec_encoding() + m.payload@ + seq![0u8, 0u8, 0u8]).skip(4);
    let k = HEADER_LEN + m.payload@.len() + 4;
    assert(m.spec_encoding().subrange(4, k) =~= s.push(m.tail.checksum));
    lemma_byte_sum_push(s, m.tail.checksum);
    let a = byte_sum(s);
    assert((a + ((0 - a) % 256)) % 256 == 0) by (nonlinear_arith);
}

/// What a new message promises its receiver: the content read back from it
/// is the content it was made from; its length field is its length on the
/// wire; its header starts with the magic word; and the bytes from the fifth
/// one through the checksum sum to zero modulo 256.
pub proof fn lemma_new_message(m: CtrlMsg, c: MsgContent, msg_cnt: u16)
    requires
        m.is_new_message(c, msg_cnt),
    ensures
        decodes_to(m.content_bytes(), c),
        m.head.pkt_len == m.spec_encoding().len(),
        m.head.header == HEADER_MAGIC,
        m.head.msg_type == c.spec_code(),
        m.head.msg_cnt == msg_cnt,
        byte_sum(m.spec_encoding().subrange(4, HEADER_LEN + m.payload@.len() + 4)) % 256 == 0,
{
    lemma_field_count(c);
    let t = choose|t_us: i64|
        #[trigger] m.head.made_at(
            c.spec_code(),
            (HEADER_LEN + TAIL_LEN + c.spec_payload().len()) as usize,
            msg_cnt,
            t_us,
        );
    assert(m.content_bytes() =~= c.spec_encoding() + Seq::<u8>::empty());
    lemma_content_roundtrip(c, Seq::<u8>::empty());
    lemma_header_roundtrip(m.head, Seq::<u8>::empty());
    lemma_tail_roundtrip(m.tail, Seq::<u8>::empty());
    lemma_checksum_zero(m);
}

/// A new message sent on the wire is read back whole, whatever follows it:
/// the read is allowed and succeeds, and any message read from those bytes
/// carries the content the message was made from.
pub proof fn lemma_new_message_read_back(m: CtrlMsg, c: MsgContent, msg_cnt: u16, rest: Seq<u8>)
    requires
        m.is_new_message(c, msg_cnt),
    ensures
        be32_at(m.spec_encoding() + rest, 4) >= HEADER_LEN + TAIL_LEN,
        msg_readable(m.spec_encoding() + rest),
        m.read_from(m.spec_encoding() + rest),
        forall|m2: CtrlMsg|
            #[trigger] m2.read_from(m.spec_encoding() + rest) ==> decodes_to(m2.content_bytes(), c),
{
    lemma_new_message(m, c, msg_cnt);
    lemma_header_roundtrip(m.head, Seq::<u8>::empty());
    lemma_tail_roundtrip(m.tail, Seq::<u8>::empty());
    lemma_msg_roundtrip(m, rest);
    let b = m.spec_encoding() + rest;
    assert forall|m2: CtrlMsg| #[trigger] m2.read_from(b) implies decodes_to(m2.content_bytes(), c) by {
        lemma_header_determined(m.head, m2.head, b);
        assert(m2.payload@ == m.payload@);
        assert(m2.content_bytes() == m.content_bytes());
    }
}

/// A reply naming the content's own type answers it.
pub proof fn lemma_reply_own_name(c: MsgContent)
    ensures
        c.spec_accepts(c.spec_name()),
{
}

/// Calls `chrono::offset::Utc::now().timestamp_micros()`: the current time in
/// microseconds since the Unix epoch. Nothing is stated of the value.
#[verifier::external_body]
fn utc_now_micros() -> i64 {
    chrono::offset::Utc::now().timestamp_micros()
}

// ---------------------------------------------------------------------------
// Replies
// ---------------------------------------------------------------------------

/// The string member `key` of the JSON value in `text`, where `text` is JSON
/// and that member is a string.
pub uninterp spec fn json_str_field(text: Seq<char>, key: Seq<char>) -> Option<Seq<char>>;

/// A reply can be checked: it is UTF-8 and a JSON value with a string member `msg_type`.
pub open spec fn reply_is_well_formed(buf: Seq<u8>) -> bool {
    &&& valid_utf8(buf)
    &&& json_str_field(decode_utf8(buf), "msg_type"@) is Some
}

/// The `msg_type` member of a well-formed reply.
pub open spec fn reply_msg_type(buf: Seq<u8>) -> Seq<char> {
    json_str_field(decode_utf8(buf), "msg_type"@).unwrap()
}

/// Calls `std::str::from_utf8`: the bytes as text where they are valid UTF-8,
/// `None` where they are not.
#[verifier::external_body]
fn str_from_utf8(buf: &[u8]) -> (r: Option<&str>)
    ensures
        r is Some <==> valid_utf8(buf@),
        r matches Some(s) ==> s@ == decode_utf8(buf@),
{
    std::str::from_utf8(buf).ok()
}

/// Calls `serde_json::from_str::<serde_json::Value>` on `text` and takes the
/// member `key` with `as_str`. The result is named `json_str_field`; `None`
/// stands for text that is not JSON and for a member that is missing or not
/// a string.
#[verifier::external_body]
fn json_string_field(text: &str, key: &str) -> (r: Option<String>)
    ensures
        match r {
            Some(s) => json_str_field(text@, key@) == Some(s@),
            None => json_str_field(text@, key@) is None,
        },
{
    match serde_json::from_str::<serde_json::Value>(text) {
        Ok(value) => value[key].as_str().map(String::from),
        Err(_) => None,
    }
}

} // verus!
