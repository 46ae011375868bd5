//! The DNS packet codec: flags bitfield, fixed header, question section and
//! the length-prefixed label encoding of domain names.

use vstd::prelude::*;

verus! {

use vstd::arithmetic::div_mod::lemma_add_mod_noop_right;
use vstd::string::StrSliceExecFns;

/// The flags word of a DNS header, unpacked into its nine named fields.
/// Bit 6 of the wire word (the reserved Z bit) is not surfaced: it is
/// emitted as zero and ignored on parse.
#[derive(Debug, PartialEq, Eq, Structural, Clone, Copy)]
pub struct DNSFlags {
    pub is_response: bool,
    pub opcode: u8,
    pub is_authoritative: bool,
    pub is_truncated: bool,
    pub recurse_desired: bool,
    pub recurse_available: bool,
    pub answer_authed: bool,
    pub unauth_ok: bool,
    pub reply_code: u8,
}

/// The contribution of a single boolean flag: its positioned mask when set.
pub open spec fn flag_bit(b: bool, mask: u16) -> u16 {
    if b {
        mask
    } else {
        0
    }
}

/// The 16-bit wire word that a flags record packs into. Bit 15 is
/// `is_response`, bits 14..11 the opcode, down to bits 3..0 the reply code;
/// bit 6 (Z) is always zero. `opcode` and `reply_code` are masked to their
/// low four bits.
pub open spec fn flags_word(f: DNSFlags) -> u16 {
    flag_bit(f.is_response, 0x8000) | (((f.opcode & 0xf) as u16) << 11) | flag_bit(
        f.is_authoritative,
        0x400,
    ) | flag_bit(f.is_truncated, 0x200) | flag_bit(f.recurse_desired, 0x100) | flag_bit(
        f.recurse_available,
        0x80,
    ) | flag_bit(f.answer_authed, 0x20) | flag_bit(f.unauth_ok, 0x10) | ((f.reply_code & 0xf)
        as u16)
}

/// The flags record read out of a 16-bit wire word: each field is the
/// masked and shifted slice of the word; booleans are the truth of the
/// masked bit.
pub open spec fn parse_flags(w: u16) -> DNSFlags {
    DNSFlags {
        is_response: w & 0x8000 != 0,
        opcode: ((w & 0x7800) >> 11) as u8,
        is_authoritative: w & 0x400 != 0,
        is_truncated: w & 0x200 != 0,
        recurse_desired: w & 0x100 != 0,
        recurse_available: w & 0x80 != 0,
        answer_authed: w & 0x20 != 0,
        unauth_ok: w & 0x10 != 0,
        reply_code: (w & 0xf) as u8,
    }
}

/// All flags cleared: a standard query word of zero.
pub open spec fn default_flags() -> DNSFlags {
    DNSFlags {
        is_response: false,
        opcode: 0,
        is_authoritative: false,
        is_truncated: false,
        recurse_desired: false,
        recurse_available: false,
        answer_authed: false,
        unauth_ok: false,
        reply_code: 0,
    }
}

impl DNSFlags {
    /// A flags record with every field cleared; it packs to `0x0000`.
    pub fn default() -> (r: DNSFlags)
        ensures
            r == default_flags(),
    {
        DNSFlags {
            is_response: false,
            opcode: 0,
            is_authoritative: false,
            is_truncated: false,
            recurse_desired: false,
            recurse_available: false,
            answer_authed: false,
            unauth_ok: false,
            reply_code: 0,
        }
    }

    /// Packs the record into its 16-bit wire word.
    pub fn serialize(&self) -> (r: u16)
        ensures
            r == flags_word(*self),
    {
        let mut flags: u16 = if self.is_response {
            0x8000
        } else {
            0
        };
        flags = flags | (((self.opcode & 0xf) as u16) << 11);
        flags = flags | (if self.is_authoritative {
            0x400
        } else {
            0
        });
        flags = flags | (if self.is_truncated {
            0x200
        } else {
            0
        });
        flags = flags | (if self.recurse_desired {
            0x100
        } else {
            0
        });
        flags = flags | (if self.recurse_available {
            0x80
        } else {
            0
        });
        flags = flags | (if self.answer_authed {
            0x20
        } else {
            0
        });
        flags = flags | (if self.unauth_ok {
            0x10
        } else {
            0
        });
        flags = flags | ((self.reply_code & 0xf) as u16);
        flags
    }

    /// Unpacks a 16-bit wire word into a flags record.
    pub fn from(uint16: u16) -> (r: DNSFlags)
        ensures
            r == parse_flags(uint16),
    {
        DNSFlags {
            is_response: uint16 & 0x8000 > 0,
            opcode: ((uint16 & 0x7800) >> 11) as u8,
            is_authoritative: uint16 & 0x400 > 0,
            is_truncated: uint16 & 0x200 > 0,
            recurse_desired: uint16 & 0x100 > 0,
            recurse_available: uint16 & 0x80 > 0,
            answer_authed: uint16 & 0x20 > 0,
            unauth_ok: uint16 & 0x10 > 0,
            reply_code: (uint16 & 0xf) as u8,
        }
    }
}

/// Law: packing a flags record into its wire word and unpacking that word
/// yields the record back, for any record whose `opcode` and `reply_code`
/// fit in their four-bit fields. The reserved Z bit is lossy by design, but
/// a packed word always carries it as zero, so nothing is lost here.
pub proof fn lemma_flags_round_trip(f: DNSFlags)
    requires
        f.opcode < 16,
        f.reply_code < 16,
    ensures
        parse_flags(flags_word(f)) == f,
{
    let a = flag_bit(f.is_response, 0x8000);
    let op = (f.opcode & 0xf) as u16;
    let b = flag_bit(f.is_authoritative, 0x400);
    let c = flag_bit(f.is_truncated, 0x200);
    let d = flag_bit(f.recurse_desired, 0x100);
    let e = flag_bit(f.recurse_available, 0x80);
    let g = flag_bit(f.answer_authed, 0x20);
    let h = flag_bit(f.unauth_ok, 0x10);
    let rc = (f.reply_code & 0xf) as u16;
    let w = flags_word(f);
    let oc = f.opcode;
    let rp = f.reply_code;
    assert(oc & 0xf == oc && ((oc & 0xf) as u16) < 16 && rp & 0xf == rp && (((rp & 0xf) as u16)
        < 16)) by (bit_vector)
        requires
            oc < 16 && rp < 16,
    ;
    assert(w == a | (op << 11) | b | c | d | e | g | h | rc);
    assert((w & 0x8000 != 0) == (a == 0x8000) && ((w & 0x7800) >> 11) == op && (w & 0x400 != 0)
        == (b == 0x400) && (w & 0x200 != 0) == (c == 0x200) && (w & 0x100 != 0) == (d == 0x100) && (
    w & 0x80 != 0) == (e == 0x80) && (w & 0x20 != 0) == (g == 0x20) && (w & 0x10 != 0) == (h
        == 0x10) && (w & 0xf) == rc) by (bit_vector)
        requires
            (a == 0 || a == 0x8000) && op < 16 && (b == 0 || b == 0x400) && (c == 0 || c == 0x200)
                && (d == 0 || d == 0x100) && (e == 0 || e == 0x80) && (g == 0 || g == 0x20) && (h
                == 0 || h == 0x10) && rc < 16 && w == a | (op << 11) | b | c | d | e | g | h | rc,
    ;
    assert(((oc & 0xf) as u16) as u8 == oc && ((rp & 0xf) as u16) as u8 == rp) by (bit_vector)
        requires
            oc < 16 && rp < 16,
    ;
    assert(parse_flags(w).opcode == f.opcode);
    assert(parse_flags(w).reply_code == f.reply_code);
}

/// The high byte of a 16-bit value in network (big-endian) order.
pub open spec fn be_hi(x: u16) -> u8 {
    ((x >> 8) & 0xff) as u8
}

/// The low byte of a 16-bit value in network (big-endian) order.
pub open spec fn be_lo(x: u16) -> u8 {
    (x & 0xff) as u8
}

/// The 16-bit value read from two bytes in network (big-endian) order.
pub open spec fn u16_of_be(hi: u8, lo: u8) -> u16 {
    ((hi as u16) << 8) | (lo as u16)
}

/// Law: reading back the two big-endian bytes of a 16-bit value gives the
/// value itself.
pub proof fn lemma_u16_be_round_trip(x: u16)
    ensures
        u16_of_be(be_hi(x), be_lo(x)) == x,
{
    assert(((((x >> 8) & 0xff) as u8) as u16) << 8 | ((((x & 0xff) as u8)) as u16) == x)
        by (bit_vector);
}

/// Appends the two big-endian bytes of a 16-bit value.
fn push_be16(bytes: &mut Vec<u8>, x: u16)
    ensures
        final(bytes)@ == old(bytes)@ + seq![be_hi(x), be_lo(x)],
{
    assert((x >> 8) & 0xff < 256 && x & 0xff < 256) by (bit_vector);
    bytes.push(((x >> 8) & 0xff) as u8);
    bytes.push((x & 0xff) as u8);
    assert(final(bytes)@ =~= old(bytes)@ + seq![be_hi(x), be_lo(x)]);
}

/// Reads a 16-bit value from its two big-endian bytes.
fn read_be16(hi: u8, lo: u8) -> (r: u16)
    ensures
        r == u16_of_be(hi, lo),
{
    ((hi as u16) << 8) | (lo as u16)
}

/// The fixed size of a DNS header on the wire: six 16-bit fields.
pub const HEADER_SIZE: usize = 12;

/// A decoding failure of the codec.
#[derive(Debug, PartialEq, Eq, Structural, Clone, Copy)]
pub enum DNSError {
    /// A header decode was asked of fewer than `HEADER_SIZE` bytes; carries
    /// the expected and the actual byte counts.
    ShortHeader { expected: usize, actual: usize },
}

/// The fixed 12-byte DNS header: six 16-bit big-endian fields.
#[derive(Debug, PartialEq, Eq, Structural, Clone, Copy)]
pub struct DNSHeader {
    pub id: u16,
    pub flags: DNSFlags,
    pub question_count: u16,
    pub answer_count: u16,
    pub authority_count: u16,
    pub additional_count: u16,
}

/// The twelve wire bytes of a header: the big-endian bytes of `id`, the
/// packed flags word, and the four section counts, in that order.
pub open spec fn header_bytes(h: DNSHeader) -> Seq<u8> {
    seq![
        be_hi(h.id),
        be_lo(h.id),
        be_hi(flags_word(h.flags)),
        be_lo(flags_word(h.flags)),
        be_hi(h.question_count),
        be_lo(h.question_count),
        be_hi(h.answer_count),
        be_lo(h.answer_count),
        be_hi(h.authority_count),
        be_lo(h.authority_count),
        be_hi(h.additional_count),
        be_lo(h.additional_count),
    ]
}

/// The header read out of the first twelve bytes of a packet; the flags
/// word is unpacked through the flags codec.
pub open spec fn parse_header(b: Seq<u8>) -> DNSHeader
    recommends
        b.len() >= HEADER_SIZE,
{
    DNSHeader {
        id: u16_of_be(b[0], b[1]),
        flags: parse_flags(u16_of_be(b[2], b[3])),
        question_count: u16_of_be(b[4], b[5]),
        answer_count: u16_of_be(b[6], b[7]),
        authority_count: u16_of_be(b[8], b[9]),
        additional_count: u16_of_be(b[10], b[11]),
    }
}

impl DNSHeader {
    /// Encodes the header as its twelve wire bytes.
    pub fn serialize(&self) -> (r: Vec<u8>)
        ensures
            r@ == header_bytes(*self),
            r@.len() == HEADER_SIZE,
    {
        let mut bytes: Vec<u8> = Vec::new();
        push_be16(&mut bytes, self.id);
        push_be16(&mut bytes, self.flags.serialize());
        push_be16(&mut bytes, self.question_count);
        push_be16(&mut bytes, self.answer_count);
        push_be16(&mut bytes, self.authority_count);
        push_be16(&mut bytes, self.additional_count);
        assert(bytes@ =~= header_bytes(*self));
        bytes
    }

    /// Decodes a header from the first twelve bytes of a buffer. Succeeds
    /// exactly when at least twelve bytes are available; otherwise reports
    /// how many bytes were expected and how many were given. Bytes beyond
    /// the header are the caller's concern.
    pub fn deserialize(bytes: &[u8]) -> (r: Result<DNSHeader, DNSError>)
        ensures
            bytes@.len() >= HEADER_SIZE ==> r == Ok::<DNSHeader, DNSError>(parse_header(bytes@)),
            bytes@.len() < HEADER_SIZE ==> r == Err::<DNSHeader, DNSError>(
                DNSError::ShortHeader { expected: HEADER_SIZE, actual: bytes@.len() as usize },
            ),
    {
        if bytes.len() < HEADER_SIZE {
            return Err(DNSError::ShortHeader { expected: HEADER_SIZE, actual: bytes.len() });
        }
        Ok(
            DNSHeader {
                id: read_be16(bytes[0], bytes[1]),
                flags: DNSFlags::from(read_be16(bytes[2], bytes[3])),
                question_count: read_be16(bytes[4], bytes[5]),
                answer_count: read_be16(bytes[6], bytes[7]),
                authority_count: read_be16(bytes[8], bytes[9]),
                additional_count: read_be16(bytes[10], bytes[11]),
            },
        )
    }
}

/// Law: decoding the twelve bytes that a header encodes to yields the
/// header back, for any header whose flags carry a four-bit `opcode` and
/// `reply_code`.
pub proof fn lemma_header_round_trip(h: DNSHeader)
    requires
        h.flags.opcode < 16,
        h.flags.reply_code < 16,
    ensures
        parse_header(header_bytes(h)) == h,
{
    lemma_u16_be_round_trip(h.id);
    lemma_u16_be_round_trip(flags_word(h.flags));
    lemma_u16_be_round_trip(h.question_count);
    lemma_u16_be_round_trip(h.answer_count);
    lemma_u16_be_round_trip(h.authority_count);
    lemma_u16_be_round_trip(h.additional_count);
    lemma_flags_round_trip(h.flags);
}

/// The number of bytes that a character occupies in the UTF-8 form of a
/// string; label length prefixes count these bytes.
pub open spec fn char_width(c: char) -> nat {
    if (c as u32) < 0x80 {
        1
    } else if (c as u32) < 0x800 {
        2
    } else if (c as u32) < 0x10000 {
        3
    } else {
        4
    }
}

/// The byte emitted for one character of a label: ASCII uppercase letters
/// are folded to lowercase, and every character is narrowed to its low byte
/// (no IDN translation is attempted).
pub open spec fn lower_byte(c: char) -> u8 {
    if 65 <= (c as u32) && (c as u32) <= 90 {
        (((c as u32) + 32) % 256) as u8
    } else {
        ((c as u32) & 0xff) as u8
    }
}

/// The UTF-8 byte length of a label's text: the sum of its characters'
/// widths.
pub open spec fn label_width(l: Seq<char>) -> nat
    decreases l.len(),
{
    if l.len() == 0 {
        0
    } else {
        label_width(l.drop_last()) + char_width(l.last())
    }
}

/// The wire bytes of one label: a single length byte (the label's UTF-8
/// byte length, narrowed to a byte) followed by one lowercased byte per
/// character. Labels longer than 63 bytes are not rejected; the length
/// prefix simply wraps, as the length check is an open point of the codec.
pub open spec fn label_bytes(l: Seq<char>) -> Seq<u8> {
    seq![(label_width(l) % 256) as u8] + Seq::new(l.len(), |i: int| lower_byte(l[i]))
}

/// The position of the first `.` in a name, or -1 when there is none.
pub open spec fn first_dot(s: Seq<char>) -> int
    decreases s.len(),
{
    if s.len() == 0 {
        -1
    } else if s[0] == '.' {
        0
    } else {
        let r = first_dot(s.skip(1));
        if r < 0 {
            -1
        } else {
            r + 1
        }
    }
}

/// The labels of a name: the segments between the `.` separators, in
/// order. A name without a dot is a single label; an empty name is a
/// single empty label.
pub open spec fn name_labels(s: Seq<char>) -> Seq<Seq<char>>
    decreases s.len(),
{
    let i = first_dot(s);
    if 0 <= i < s.len() {
        seq![s.take(i)] + name_labels(s.skip(i + 1))
    } else {
        seq![s]
    }
}

/// The concatenated wire bytes of a sequence of labels.
pub open spec fn encode_labels(ls: Seq<Seq<char>>) -> Seq<u8>
    decreases ls.len(),
{
    if ls.len() == 0 {
        Seq::empty()
    } else {
        label_bytes(ls[0]) + encode_labels(ls.skip(1))
    }
}

/// The full wire encoding of a domain name: its labels, each length-
/// prefixed, terminated by a single zero byte.
pub open spec fn encode_name(s: Seq<char>) -> Seq<u8> {
    encode_labels(name_labels(s)) + seq![0u8]
}

/// If position `m` holds a `.` and no earlier position does, then `m` is
/// the first dot.
proof fn lemma_first_dot_at(s: Seq<char>, m: int)
    requires
        0 <= m < s.len(),
        s[m] == '.',
        forall|j: int| 0 <= j < m ==> s[j] != '.',
    ensures
        first_dot(s) == m,
    decreases m,
{
    if m > 0 {
        lemma_first_dot_at(s.skip(1), m - 1);
    }
}

/// A name without any `.` has no first dot.
proof fn lemma_first_dot_none(s: Seq<char>)
    requires
        forall|j: int| 0 <= j < s.len() ==> s[j] != '.',
    ensures
        first_dot(s) == -1,
    decreases s.len(),
{
    if s.len() > 0 {
        lemma_first_dot_none(s.skip(1));
    }
}

/// Encodes a domain name in the DNS label wire form: each dot-separated
/// label as a length byte followed by its lowercased bytes, the whole
/// terminated by a zero byte. An empty name encodes as one empty label plus
/// the terminator, `00 00`.
pub fn serialize_dns_str(dns_str: &str) -> (r: Vec<u8>)
    ensures
        r@ == encode_name(dns_str@),
{
    let ghost s = dns_str@;
    let n: usize = dns_str.unicode_len();
    let mut out: Vec<u8> = Vec::new();
    let mut cur: Vec<u8> = Vec::new();
    let mut curw: u8 = 0;
    let ghost mut gw: nat = 0;
    let ghost mut k: int = 0;
    let mut i: usize = 0;
    proof {
        assert(s.skip(0) =~= s);
        assert(s.subrange(0, 0) =~= Seq::<char>::empty());
    }
    while i < n
        invariant
            s == dns_str@,
            n == s.len(),
            0 <= k <= i as int <= n as int,
            forall|j: int| k <= j < i as int ==> s[j] != '.',
            cur@.len() == i as int - k,
            forall|j: int| 0 <= j < cur@.len() ==> cur@[j] == lower_byte(s[k + j]),
            gw == label_width(s.subrange(k, i as int)),
            curw as nat == gw % 256,
            encode_name(s) == out@ + encode_labels(name_labels(s.skip(k))) + seq![0u8],
        decreases n - i,
    {
        let c = dns_str.get_char(i);
        if c == '.' {
            let ghost out0 = out@;
            let ghost cur0 = cur@;
            out.push(curw);
            out.append(&mut cur);
            proof {
                let lbl = s.subrange(k, i as int);
                let rest = s.skip(i as int + 1);
                assert(s.skip(k)[i as int - k] == '.');
                assert(forall|j: int| 0 <= j < i as int - k ==> s.skip(k)[j] != '.');
                lemma_first_dot_at(s.skip(k), i as int - k);
                assert(s.skip(k).take(i as int - k) =~= lbl);
                assert(s.skip(k).skip(i as int - k + 1) =~= rest);
                assert(name_labels(s.skip(k)) == seq![lbl] + name_labels(rest));
                let ls = seq![lbl] + name_labels(rest);
                assert(ls[0] == lbl);
                assert(ls.skip(1) =~= name_labels(rest));
                assert(encode_labels(ls) == label_bytes(lbl) + encode_labels(name_labels(rest)));
                assert(out@ =~= out0 + label_bytes(lbl));
                assert(out0 + (label_bytes(lbl) + encode_labels(name_labels(rest))) =~= out@
                    + encode_labels(name_labels(rest)));
                k = i as int + 1;
                gw = 0;
                assert(s.subrange(k, i as int + 1) =~= Seq::<char>::empty());
            }
            curw = 0;
        } else {
            let v: u32 = c as u32;
            let w: u8 = if v < 0x80 {
                1
            } else if v < 0x800 {
                2
            } else if v < 0x10000 {
                3
            } else {
                4
            };
            proof {
                assert(w as nat == char_width(c));
            }
            let b: u8 = if 65 <= v && v <= 90 {
                (v + 32) as u8
            } else {
                assert(v & 0xff < 256) by (bit_vector);
                (v & 0xff) as u8
            };
            proof {
                assert(b == lower_byte(c));
            }
            curw = (((curw as u16) + (w as u16)) % 256) as u8;
            cur.push(b);
            proof {
                let l2 = s.subrange(k, i as int + 1);
                assert(l2.drop_last() =~= s.subrange(k, i as int));
                assert(l2.last() == s[i as int]);
                assert(label_width(l2) == gw + char_width(c));
                lemma_add_mod_noop_right(char_width(c) as int, gw as int, 256);
                gw = gw + char_width(c);
            }
        }
        i = i + 1;
    }
    let ghost out0 = out@;
    out.push(curw);
    out.append(&mut cur);
    out.push(0);
    proof {
        let lbl = s.subrange(k, n as int);
        assert(forall|j: int| 0 <= j < s.skip(k).len() ==> s.skip(k)[j] != '.');
        lemma_first_dot_none(s.skip(k));
        assert(s.skip(k) =~= lbl);
        assert(name_labels(s.skip(k)) == seq![lbl]);
        let ls = seq![lbl];
        assert(ls[0] == lbl);
        assert(ls.skip(1) =~= Seq::<Seq<char>>::empty());
        assert(encode_labels(ls) == label_bytes(lbl) + encode_labels(Seq::<Seq<char>>::empty()));
        assert(out@ =~= out0 + label_bytes(lbl) + seq![0u8]);
        assert(out@ =~= out0 + encode_labels(name_labels(s.skip(k))) + seq![0u8]);
        assert(out@ == encode_name(s));
    }
    out
}

/// The total character count of a sequence of labels.
pub open spec fn sum_label_lens(ls: Seq<Seq<char>>) -> nat
    decreases ls.len(),
{
    if ls.len() == 0 {
        0
    } else {
        ls[0].len() + sum_label_lens(ls.skip(1))
    }
}

proof fn lemma_encode_labels_len(ls: Seq<Seq<char>>)
    ensures
        encode_labels(ls).len() == sum_label_lens(ls) + ls.len(),
    decreases ls.len(),
{
    if ls.len() != 0 {
        lemma_encode_labels_len(ls.skip(1));
        assert(label_bytes(ls[0]).len() == 1 + ls[0].len());
    }
}

/// Law: the encoding of a name is as long as the sum of its labels'
/// lengths, plus one length byte per label, plus the one terminator byte.
pub proof fn lemma_name_encoding_len(s: Seq<char>)
    ensures
        encode_name(s).len() == sum_label_lens(name_labels(s)) + name_labels(s).len() + 1,
{
    lemma_encode_labels_len(name_labels(s));
}

/// Whether two characters are the same up to ASCII letter case.
pub open spec fn case_equiv(a: char, b: char) -> bool {
    a == b || (65 <= (a as u32) && (a as u32) <= 90 && (b as u32) == (a as u32) + 32) || (65 <= (
    b as u32) && (b as u32) <= 90 && (a as u32) == (b as u32) + 32)
}

/// Names equal up to ASCII letter case have their dots at the same places.
proof fn lemma_first_dot_case(s: Seq<char>, t: Seq<char>)
    requires
        s.len() == t.len(),
        forall|j: int| 0 <= j < s.len() ==> case_equiv(s[j], t[j]),
    ensures
        first_dot(s) == first_dot(t),
    decreases s.len(),
{
    if s.len() != 0 {
        assert(case_equiv(s[0], t[0]));
        assert((s[0] == '.') == (t[0] == '.'));
        assert(forall|j: int| 0 <= j < s.skip(1).len() ==> case_equiv(s.skip(1)[j], t.skip(1)[j]));
        lemma_first_dot_case(s.skip(1), t.skip(1));
    }
}

/// Labels equal up to ASCII letter case have the same UTF-8 byte length.
proof fn lemma_label_width_case(l1: Seq<char>, l2: Seq<char>)
    requires
        l1.len() == l2.len(),
        forall|j: int| 0 <= j < l1.len() ==> case_equiv(l1[j], l2[j]),
    ensures
        label_width(l1) == label_width(l2),
    decreases l1.len(),
{
    if l1.len() != 0 {
        assert(case_equiv(l1.last(), l2.last()));
        assert(char_width(l1.last()) == char_width(l2.last()));
        assert(forall|j: int|
            0 <= j < l1.drop_last().len() ==> case_equiv(l1.drop_last()[j], l2.drop_last()[j]));
        lemma_label_width_case(l1.drop_last(), l2.drop_last());
    }
}

/// Folding a character to lowercase gives the same byte for both members
/// of a case-equivalent pair.
proof fn lemma_lower_byte_case(a: char, b: char)
    requires
        case_equiv(a, b),
    ensures
        lower_byte(a) == lower_byte(b),
{
    let va = a as u32;
    let vb = b as u32;
    assert(va < 256 ==> va & 0xff == va) by (bit_vector);
    assert(vb < 256 ==> vb & 0xff == vb) by (bit_vector);
}

/// Labels equal up to ASCII letter case encode to the same bytes.
proof fn lemma_label_bytes_case(l1: Seq<char>, l2: Seq<char>)
    requires
        l1.len() == l2.len(),
        forall|j: int| 0 <= j < l1.len() ==> case_equiv(l1[j], l2[j]),
    ensures
        label_bytes(l1) == label_bytes(l2),
{
    lemma_label_width_case(l1, l2);
    assert forall|j: int| 0 <= j < l1.len() implies lower_byte(l1[j]) == lower_byte(l2[j]) by {
        lemma_lower_byte_case(l1[j], l2[j]);
    }
    assert(label_bytes(l1) =~= label_bytes(l2));
}

proof fn lemma_encode_labels_case(s: Seq<char>, t: Seq<char>)
    requires
        s.len() == t.len(),
        forall|j: int| 0 <= j < s.len() ==> case_equiv(s[j], t[j]),
    ensures
        encode_labels(name_labels(s)) == encode_labels(name_labels(t)),
    decreases s.len(),
{
    lemma_first_dot_case(s, t);
    let i = first_dot(s);
    if 0 <= i < s.len() {
        assert(forall|j: int| 0 <= j < s.take(i).len() ==> case_equiv(s.take(i)[j], t.take(i)[j]));
        lemma_label_bytes_case(s.take(i), t.take(i));
        assert(forall|j: int|
            0 <= j < s.skip(i + 1).len() ==> case_equiv(
                #[trigger] s.skip(i + 1)[j],
                t.skip(i + 1)[j],
            ));
        lemma_encode_labels_case(s.skip(i + 1), t.skip(i + 1));
        let ls = seq![s.take(i)] + name_labels(s.skip(i + 1));
        let lt = seq![t.take(i)] + name_labels(t.skip(i + 1));
        assert(name_labels(s) == ls && name_labels(t) == lt);
        assert(ls[0] == s.take(i) && lt[0] == t.take(i));
        assert(ls.skip(1) =~= name_labels(s.skip(i + 1)));
        assert(lt.skip(1) =~= name_labels(t.skip(i + 1)));
        assert(encode_labels(ls) == label_bytes(s.take(i)) + encode_labels(
            name_labels(s.skip(i + 1)),
        ));
        assert(encode_labels(lt) == label_bytes(t.take(i)) + encode_labels(
            name_labels(t.skip(i + 1)),
        ));
    } else {
        lemma_label_bytes_case(s, t);
        assert(name_labels(s) == seq![s] && name_labels(t) == seq![t]);
        assert(seq![s][0] == s && seq![t][0] == t);
        assert(seq![s].skip(1) =~= Seq::<Seq<char>>::empty());
        assert(seq![t].skip(1) =~= Seq::<Seq<char>>::empty());
        assert(encode_labels(seq![s]) == label_bytes(s) + encode_labels(
            Seq::<Seq<char>>::empty(),
        ));
        assert(encode_labels(seq![t]) == label_bytes(t) + encode_labels(
            Seq::<Seq<char>>::empty(),
        ));
    }
}

/// Law: case folding — two names of the same length whose characters agree
/// up to ASCII letter case encode to exactly the same bytes.
pub proof fn lemma_encode_name_case_fold(s: Seq<char>, t: Seq<char>)
    requires
        s.len() == t.len(),
        forall|j: int| 0 <= j < s.len() ==> case_equiv(s[j], t[j]),
    ensures
        encode_name(s) == encode_name(t),
{
    lemma_encode_labels_case(s, t);
}

/// The record class of every question this codec emits: the Internet
/// class, IN.
pub const RECORD_CLASS: u16 = 1;

/// The closed set of record types the codec knows, each mapping to its
/// IANA numeric code.
#[derive(Debug, Clone, Copy, PartialEq, Eq, Structural)]
pub enum RecordType {
    A,
    NS,
    CNAME,
    SOA,
    PTR,
    MX,
    TXT,
}

/// The IANA numeric code of a record type.
pub open spec fn record_code(t: RecordType) -> u16 {
    match t {
        RecordType::A => 1,
        RecordType::NS => 2,
        RecordType::CNAME => 5,
        RecordType::SOA => 6,
        RecordType::PTR => 12,
        RecordType::MX => 15,
        RecordType::TXT => 16,
    }
}

impl RecordType {
    /// The 16-bit QTYPE code of this record type.
    pub fn value(&self) -> (r: u16)
        ensures
            r == record_code(*self),
    {
        match self {
            RecordType::A => 1,
            RecordType::NS => 2,
            RecordType::CNAME => 5,
            RecordType::SOA => 6,
            RecordType::PTR => 12,
            RecordType::MX => 15,
            RecordType::TXT => 16,
        }
    }
}

/// A question section: a domain name and a record type. The class is
/// implicit: it is always IN.
pub struct DNSQuestion {
    pub name: String,
    pub qtype: RecordType,
}

/// The wire bytes of a question: the label-encoded name, then the 16-bit
/// big-endian QTYPE, then the 16-bit big-endian class (always IN).
pub open spec fn question_bytes(q: DNSQuestion) -> Seq<u8> {
    encode_name(q.name@) + seq![
        be_hi(record_code(q.qtype)),
        be_lo(record_code(q.qtype)),
        be_hi(RECORD_CLASS),
        be_lo(RECORD_CLASS),
    ]
}

impl DNSQuestion {
    /// Builds a question for `name` with record type `qtype`.
    pub fn new(name: String, qtype: RecordType) -> (r: DNSQuestion)
        ensures
            r.name == name,
            r.qtype == qtype,
    {
        DNSQuestion { name, qtype }
    }

    /// Encodes the question as its wire bytes.
    pub fn serialize(&self) -> (r: Vec<u8>)
        ensures
            r@ == question_bytes(*self),
    {
        let mut bytes = serialize_dns_str(self.name.as_str());
        push_be16(&mut bytes, self.qtype.value());
        push_be16(&mut bytes, RECORD_CLASS);
        assert(bytes@ =~= question_bytes(*self));
        bytes
    }
}

/// A whole outbound packet: a header and the questions added so far. The
/// answer, authority and additional sections are counted in the header but
/// never decoded.
pub struct DNSPacket {
    pub header: DNSHeader,
    pub questions: Vec<DNSQuestion>,
}

/// The concatenated wire bytes of a sequence of questions, in order.
pub open spec fn questions_bytes(qs: Seq<DNSQuestion>) -> Seq<u8>
    decreases qs.len(),
{
    if qs.len() == 0 {
        Seq::empty()
    } else {
        question_bytes(qs[0]) + questions_bytes(qs.skip(1))
    }
}

/// The wire bytes of a packet: the header, then each question in insertion
/// order, with no padding.
pub open spec fn packet_bytes(p: DNSPacket) -> Seq<u8> {
    header_bytes(p.header) + questions_bytes(p.questions@)
}

/// Appending to a question sequence appends that question's bytes to the
/// sequence's encoding.
proof fn lemma_questions_bytes_snoc(qs: Seq<DNSQuestion>, m: int)
    requires
        0 <= m < qs.len(),
    ensures
        questions_bytes(qs.take(m + 1)) == questions_bytes(qs.take(m)) + question_bytes(qs[m]),
    decreases m,
{
    if m == 0 {
        assert(qs.take(1)[0] == qs[0]);
        assert(qs.take(1).skip(1) =~= Seq::<DNSQuestion>::empty());
        assert(qs.take(0) =~= Seq::<DNSQuestion>::empty());
        assert(questions_bytes(Seq::<DNSQuestion>::empty()) == Seq::<u8>::empty());
        assert(questions_bytes(qs.take(1)) == question_bytes(qs[0]) + questions_bytes(
            Seq::<DNSQuestion>::empty(),
        ));
        assert(questions_bytes(qs.take(1)) =~= question_bytes(qs[0]));
        assert(questions_bytes(qs.take(0)) + question_bytes(qs[0]) =~= question_bytes(qs[0]));
    } else {
        lemma_questions_bytes_snoc(qs.skip(1), m - 1);
        assert(qs.take(m + 1)[0] == qs[0]);
        assert(qs.take(m)[0] == qs[0]);
        assert(qs.take(m + 1).skip(1) =~= qs.skip(1).take(m));
        assert(qs.take(m).skip(1) =~= qs.skip(1).take(m - 1));
        assert(qs.skip(1)[m - 1] == qs[m]);
        assert(question_bytes(qs[0]) + (questions_bytes(qs.skip(1).take(m - 1)) + question_bytes(
            qs[m],
        )) =~= (question_bytes(qs[0]) + questions_bytes(qs.skip(1).take(m - 1))) + question_bytes(
            qs[m],
        ));
    }
}

impl DNSPacket {
    /// A packet whose header's question count equals the number of
    /// questions it holds; `new` establishes this and `add_question`
    /// preserves it.
    pub open spec fn wf(self) -> bool {
        self.header.question_count as nat == self.questions@.len()
    }

    /// An empty packet: a fresh random id, all flags cleared, every count
    /// zero and no questions.
    pub fn new() -> (r: DNSPacket)
        ensures
            r.header.flags == default_flags(),
            r.header.question_count == 0,
            r.header.answer_count == 0,
            r.header.authority_count == 0,
            r.header.additional_count == 0,
            r.questions@ == Seq::<DNSQuestion>::empty(),
            r.wf(),
    {
        DNSPacket {
            header: DNSHeader {
                id: rand::random::<u16>(),
                flags: DNSFlags::default(),
                question_count: 0,
                answer_count: 0,
                authority_count: 0,
                additional_count: 0,
            },
            questions: Vec::new(),
        }
    }

    /// Appends a question and raises the header's question count by exactly
    /// one; every other header field is kept.
    pub fn add_question(&mut self, question: DNSQuestion)
        requires
            old(self).header.question_count < 0xffff,
        ensures
            final(self).questions@ == old(self).questions@.push(question),
            final(self).header == (DNSHeader {
                question_count: (old(self).header.question_count + 1) as u16,
                ..old(self).header
            }),
            old(self).wf() ==> final(self).wf(),
    {
        self.questions.push(question);
        self.header.question_count = self.header.question_count + 1;
    }

    /// Encodes the packet: the header's twelve bytes followed by each
    /// question's bytes, in insertion order.
    pub fn serialize(&self) -> (r: Vec<u8>)
        ensures
            r@ == packet_bytes(*self),
    {
        let mut bytes = self.header.serialize();
        let ghost qs = self.questions@;
        let mut idx: usize = 0;
        proof {
            assert(qs.take(0) =~= Seq::<DNSQuestion>::empty());
        }
        while idx < self.questions.len()
            invariant
                qs == self.questions@,
                0 <= idx as int <= qs.len(),
                bytes@ == header_bytes(self.header) + questions_bytes(qs.take(idx as int)),
            decreases qs.len() - idx,
        {
            let ghost bytes0 = bytes@;
            let mut qb = self.questions[idx].serialize();
            bytes.append(&mut qb);
            proof {
                lemma_questions_bytes_snoc(qs, idx as int);
                assert(bytes@ =~= header_bytes(self.header) + questions_bytes(
                    qs.take(idx as int + 1),
                ));
            }
            idx = idx + 1;
        }
        proof {
            assert(qs.take(qs.len() as int) =~= qs);
        }
        bytes
    }

    /// Decodes an inbound packet: the header is read through the header
    /// codec and its failure is propagated unchanged; the record sections
    /// are left unparsed, so the question list comes back empty whatever
    /// the header's counts say.
    pub fn deserialize(bytes: &[u8]) -> (r: Result<DNSPacket, DNSError>)
        ensures
            bytes@.len() >= HEADER_SIZE ==> (r matches Ok(p) && p.header == parse_header(bytes@)
                && p.questions@ == Seq::<DNSQuestion>::empty()),
            bytes@.len() < HEADER_SIZE ==> r == Err::<DNSPacket, DNSError>(
                DNSError::ShortHeader { expected: HEADER_SIZE, actual: bytes@.len() as usize },
            ),
    {
        match DNSHeader::deserialize(bytes) {
            Ok(header) => Ok(DNSPacket { header, questions: Vec::new() }),
            Err(e) => Err(e),
        }
    }
}

/// Law: question-count consistency. A packet built by `new` and any number
/// of `add_question` calls satisfies `wf`, so its header advertises exactly
/// the questions it holds, and its serialization is the header's bytes
/// followed by the held questions' encodings in insertion order.
pub proof fn lemma_question_count_consistent(p: DNSPacket)
    requires
        p.wf(),
    ensures
        p.header.question_count as nat == p.questions@.len(),
        packet_bytes(p) == header_bytes(p.header) + questions_bytes(p.questions@),
{
}

/// Relies on rand::random for the id of a fresh outbound packet: the value
/// is drawn from a thread-local generator, so nothing is assumed of it.
pub assume_specification<T>[ rand::random::<T> ]() -> (r: T)
    where
        rand::distributions::Standard: rand::distributions::Distribution<T>,
;

} // verus!

