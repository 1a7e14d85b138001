//! Archive container codec: the single-file container format.
//!
//! An archive is a sequence of entries, each a 512-byte header (name, octal
//! size, checksum, and standard metadata fields) followed by the payload
//! padded with zero bytes to a 512-byte boundary, terminated by two all-zero
//! blocks.  The layout matches the common tape-archive header so that
//! standard tooling can read the produced files.
//!
//! Encoding is strict: numeric fields are written as zero-padded octal
//! digits with a trailing NUL.  Decoding is lenient about the fill after a
//! numeric field's digits, so archives whose writers terminate the digits
//! with a space instead of a NUL are accepted as well.  Entry names are
//! stored verbatim; duplicate names are not rejected (extraction tools see
//! the last entry of a given name).
use vstd::prelude::*;

verus! {

/// The greatest payload size the header's eleven octal digits can record.
pub const MAX_PAYLOAD: u64 = 0x1_FFFF_FFFF;

/// The greatest entry-name length the header's name field can hold.
pub const MAX_NAME: usize = 100;

/// An octal digit as an ASCII byte.
pub open spec fn octal_digit(d: nat) -> u8 {
    (0x30 + d) as u8
}

/// `n` written as exactly `width` ASCII octal digits, most significant
/// first, with leading zeros; digits beyond `width` are lost.
pub open spec fn octal_seq(n: nat, width: nat) -> Seq<u8>
    decreases width,
{
    if width == 0 {
        Seq::empty()
    } else {
        octal_seq(n / 8, (width - 1) as nat).push(octal_digit(n % 8))
    }
}

/// The value of a run of ASCII octal digits, most significant first.
pub open spec fn parse_octal(s: Seq<u8>) -> nat
    decreases s.len(),
{
    if s.len() == 0 {
        0
    } else {
        (parse_octal(s.drop_last()) * 8 + (s.last() - 0x30)) as nat
    }
}

/// Every byte of `s` is an ASCII octal digit.
pub open spec fn all_octal(s: Seq<u8>) -> bool {
    forall|i: int| 0 <= i < s.len() ==> 0x30 <= #[trigger] s[i] <= 0x37
}

/// Length of the longest prefix of `s` made of ASCII octal digits.
pub open spec fn oct_prefix_len(s: Seq<u8>) -> nat
    decreases s.len(),
{
    if s.len() == 0 {
        0
    } else if !(0x30 <= s[0] <= 0x37) {
        0
    } else {
        1 + oct_prefix_len(s.drop_first())
    }
}

/// The numeric value of a header field: its leading octal digits, read
/// leniently (whatever fill follows the digits is ignored).
pub open spec fn field_value(s: Seq<u8>) -> nat {
    parse_octal(s.take(oct_prefix_len(s) as int))
}

/// 8 raised to `w`.
pub open spec fn pow8(w: nat) -> nat
    decreases w,
{
    if w == 0 {
        1
    } else {
        8 * pow8((w - 1) as nat)
    }
}

/// A run of `n` zero bytes.
pub open spec fn zeros(n: nat) -> Seq<u8> {
    Seq::new(n, |i: int| 0u8)
}

/// A run of `n` ASCII space bytes.
pub open spec fn spaces(n: nat) -> Seq<u8> {
    Seq::new(n, |i: int| 0x20u8)
}

/// `s` extended with zero bytes to length `n`; meaningful when
/// `s.len() <= n`.
pub open spec fn pad(s: Seq<u8>, n: nat) -> Seq<u8> {
    s + zeros((n - s.len()) as nat)
}

/// The sum of all bytes of `s`.
pub open spec fn byte_sum(s: Seq<u8>) -> nat
    decreases s.len(),
{
    if s.len() == 0 {
        0
    } else {
        (byte_sum(s.drop_last()) + s.last()) as nat
    }
}

/// A numeric header field `width` bytes wide: `width - 1` octal digits and
/// a terminating NUL.
pub open spec fn num_field(n: nat, width: nat) -> Seq<u8> {
    octal_seq(n, (width - 1) as nat).push(0u8)
}

/// The magic bytes `ustar` that identify a header block.
pub open spec fn magic() -> Seq<u8> {
    seq![0x75u8, 0x73u8, 0x74u8, 0x61u8, 0x72u8]
}

/// A header block for an entry of the given name and payload size, before
/// its checksum is filled in: the checksum field holds spaces, which is
/// exactly the state over which the checksum is defined.
pub open spec fn pre_header(name: Seq<u8>, size: nat) -> Seq<u8> {
    pad(name, 100)  // name
     + num_field(0o644, 8)  // mode
     + num_field(0, 8)  // uid
     + num_field(0, 8)  // gid
     + num_field(size, 12)  // size
     + num_field(0, 12)  // mtime
     + spaces(8)  // checksum placeholder
     + seq![0x30u8]  // typeflag: regular file
     + zeros(100)  // linkname
     + (magic() + seq![0u8])  // magic
     + seq![0x30u8, 0x30u8]  // version
     + zeros(247)  // uname, gname, device numbers, prefix, fill
}

/// The finished header block: the pre-header with the byte sum of the
/// pre-header written into the checksum field.
pub open spec fn header_bytes(name: Seq<u8>, size: nat) -> Seq<u8> {
    let pre = pre_header(name, size);
    pre.take(148) + num_field(byte_sum(pre), 8) + pre.skip(156)
}

/// Zero bytes that align a payload of `n` bytes to a block boundary.
pub open spec fn pad_len(n: nat) -> nat {
    if n % 512 == 0 {
        0
    } else {
        (512 - n % 512) as nat
    }
}

/// One encoded entry: header, payload, block padding.
pub open spec fn encode_entry(name: Seq<u8>, data: Seq<u8>) -> Seq<u8> {
    header_bytes(name, data.len()) + data + zeros(pad_len(data.len()))
}

/// An entry the format can represent: a non-empty name of at most 100
/// NUL-free bytes, and a payload whose size fits the size field.
pub open spec fn entry_wf(name: Seq<u8>, data: Seq<u8>) -> bool {
    &&& 1 <= name.len() <= MAX_NAME
    &&& forall|i: int| 0 <= i < name.len() ==> #[trigger] name[i] != 0
    &&& data.len() <= MAX_PAYLOAD
}

/// The concatenation of the encodings of `es`, in order.
pub open spec fn encode_entries(es: Seq<(Seq<u8>, Seq<u8>)>) -> Seq<u8>
    decreases es.len(),
{
    if es.len() == 0 {
        Seq::empty()
    } else {
        encode_entry(es[0].0, es[0].1) + encode_entries(es.drop_first())
    }
}

/// A whole archive: the encoded entries followed by the end-of-archive
/// marker of two zero blocks.
pub open spec fn encode_archive(es: Seq<(Seq<u8>, Seq<u8>)>) -> Seq<u8> {
    encode_entries(es) + zeros(1024)
}

/// All bytes of `b` are zero.
pub open spec fn is_zero_block(b: Seq<u8>) -> bool {
    forall|i: int| 0 <= i < b.len() ==> #[trigger] b[i] == 0
}

/// `hdr` with its checksum field replaced by spaces: the bytes the
/// checksum is a sum of.
pub open spec fn spaced(hdr: Seq<u8>) -> Seq<u8> {
    hdr.take(148) + spaces(8) + hdr.skip(156)
}

/// A decodable header block: its size and checksum fields carry octal
/// digits, the checksum equals the byte sum of the block with the checksum
/// field read as spaces, and the magic bytes are present.
pub open spec fn header_valid(hdr: Seq<u8>) -> bool {
    &&& oct_prefix_len(hdr.subrange(124, 136)) >= 1
    &&& oct_prefix_len(hdr.subrange(148, 156)) >= 1
    &&& field_value(hdr.subrange(148, 156)) == byte_sum(spaced(hdr))
    &&& hdr.subrange(257, 262) == magic()
}

/// The payload size a header records.
pub open spec fn header_size(hdr: Seq<u8>) -> nat {
    field_value(hdr.subrange(124, 136))
}

/// Index of the first NUL byte of `s`, or `s.len()` if there is none.
pub open spec fn nul_index(s: Seq<u8>) -> nat
    decreases s.len(),
{
    if s.len() == 0 {
        0
    } else if s[0] == 0 {
        0
    } else {
        1 + nul_index(s.drop_first())
    }
}

/// The entry name a header records: the name field up to its first NUL.
pub open spec fn header_name(hdr: Seq<u8>) -> Seq<u8> {
    hdr.take(100).take(nul_index(hdr.take(100)) as int)
}

/// The entries of an archive, or `None` if the bytes are not a well-formed
/// container: every entry read in on-disk order until the zero-block
/// terminator; a truncated container, a bad checksum or a non-numeric size
/// field make the whole parse fail, since the decoder cannot resynchronize
/// past a corrupt header.
pub open spec fn parse_archive(bytes: Seq<u8>) -> Option<Seq<(Seq<u8>, Seq<u8>)>>
    decreases bytes.len(),
{
    if bytes.len() < 512 {
        None
    } else {
        let hdr = bytes.take(512);
        if is_zero_block(hdr) {
            Some(Seq::empty())
        } else if !header_valid(hdr) {
            None
        } else {
            let size = header_size(hdr);
            let total = 512 + size + pad_len(size);
            if bytes.len() < total {
                None
            } else {
                match parse_archive(bytes.skip(total as int)) {
                    Option::None => None,
                    Option::Some(rest) => Some(
                        seq![(header_name(hdr), bytes.subrange(512, 512 + size as int))] + rest,
                    ),
                }
            }
        }
    }
}

proof fn lemma_octal_seq_len(n: nat, width: nat)
    ensures
        octal_seq(n, width).len() == width,
    decreases width,
{
    if width > 0 {
        lemma_octal_seq_len(n / 8, (width - 1) as nat);
    }
}

proof fn lemma_octal_seq_all_octal(n: nat, width: nat)
    ensures
        all_octal(octal_seq(n, width)),
    decreases width,
{
    if width > 0 {
        lemma_octal_seq_all_octal(n / 8, (width - 1) as nat);
        lemma_octal_seq_len(n / 8, (width - 1) as nat);
        assert(octal_seq(n, width).drop_last() =~= octal_seq(n / 8, (width - 1) as nat));
        assert forall|i: int| 0 <= i < width implies 0x30 <= #[trigger] octal_seq(n, width)[i]
            <= 0x37 by {
            if i < width - 1 {
                assert(octal_seq(n, width)[i] == octal_seq(n / 8, (width - 1) as nat)[i]);
            }
        }
    }
}

proof fn lemma_octal_round_trip(n: nat, width: nat)
    requires
        n < pow8(width),
    ensures
        parse_octal(octal_seq(n, width)) == n,
    decreases width,
{
    if width > 0 {
        assert(n / 8 < pow8((width - 1) as nat)) by {
            assert(pow8(width) == 8 * pow8((width - 1) as nat));
        }
        lemma_octal_round_trip(n / 8, (width - 1) as nat);
        lemma_octal_seq_len(n, width);
        assert(octal_seq(n, width).drop_last() =~= octal_seq(n / 8, (width - 1) as nat));
        assert(octal_seq(n, width).last() == octal_digit(n % 8));
        assert(parse_octal(octal_seq(n, width)) == (n / 8) * 8 + n % 8);
    }
}

proof fn lemma_byte_sum_bound(s: Seq<u8>)
    ensures
        byte_sum(s) <= 255 * s.len(),
    decreases s.len(),
{
    if s.len() > 0 {
        lemma_byte_sum_bound(s.drop_last());
    }
}

/// Prefix sums: extending a prefix by one byte adds that byte to the sum.
proof fn lemma_byte_sum_step(s: Seq<u8>, i: int)
    requires
        0 <= i < s.len(),
    ensures
        byte_sum(s.take(i + 1)) == byte_sum(s.take(i)) + s[i],
{
    assert(s.take(i + 1).drop_last() =~= s.take(i));
    assert(s.take(i + 1).last() == s[i]);
}

/// A run of octal digits followed by a non-digit is exactly the octal
/// prefix of the field.
proof fn lemma_oct_prefix_of_digits(s: Seq<u8>, k: int)
    requires
        0 <= k <= s.len(),
        forall|i: int| 0 <= i < k ==> 0x30 <= #[trigger] s[i] <= 0x37,
        k < s.len() ==> !(0x30 <= s[k] <= 0x37),
    ensures
        oct_prefix_len(s) == k,
    decreases s.len(),
{
    if s.len() == 0 {
    } else if k == 0 {
    } else {
        lemma_oct_prefix_of_digits(s.drop_first(), k - 1);
    }
}

/// An encoded header is decodable and gives back its name and size.
proof fn lemma_header_fields(name: Seq<u8>, size: nat)
    requires
        name.len() <= 100,
        forall|i: int| 0 <= i < name.len() ==> #[trigger] name[i] != 0,
        size <= MAX_PAYLOAD,
    ensures
        header_bytes(name, size).len() == 512,
        !is_zero_block(header_bytes(name, size)),
        header_valid(header_bytes(name, size)),
        header_size(header_bytes(name, size)) == size,
        header_name(header_bytes(name, size)) == name,
{
    let pre = pre_header(name, size);
    let cks = byte_sum(pre);
    let hdr = header_bytes(name, size);
    lemma_octal_seq_len(0o644, 7);
    lemma_octal_seq_len(0, 7);
    lemma_octal_seq_len(size, 11);
    lemma_octal_seq_len(0, 11);
    lemma_octal_seq_len(cks, 7);
    assert(pre.len() == 512);
    assert(hdr.len() == 512);

    // The size field.
    lemma_octal_seq_all_octal(size, 11);
    assert(hdr.subrange(124, 136) =~= num_field(size, 12));
    assert(num_field(size, 12)[11] == 0);
    lemma_oct_prefix_of_digits(num_field(size, 12), 11);
    assert(num_field(size, 12).take(11) =~= octal_seq(size, 11));
    assert(pow8(11) == 0x2_0000_0000) by {
        reveal_with_fuel(pow8, 12);
    }
    lemma_octal_round_trip(size, 11);
    assert(header_size(hdr) == size);

    // The checksum field.
    lemma_byte_sum_bound(pre);
    assert(pow8(7) == 0x200000) by {
        reveal_with_fuel(pow8, 8);
    }
    lemma_octal_seq_all_octal(cks, 7);
    assert(hdr.subrange(148, 156) =~= num_field(cks, 8));
    assert(num_field(cks, 8)[7] == 0);
    lemma_oct_prefix_of_digits(num_field(cks, 8), 7);
    assert(num_field(cks, 8).take(7) =~= octal_seq(cks, 7));
    lemma_octal_round_trip(cks, 7);
    assert(spaced(hdr) =~= pre);
    assert(field_value(hdr.subrange(148, 156)) == byte_sum(spaced(hdr)));

    // The magic bytes.
    assert(hdr.subrange(257, 262) =~= magic());

    // Not a terminator block: the mode field starts with an octal digit.
    lemma_octal_seq_all_octal(0o644, 7);
    assert(hdr[100] == num_field(0o644, 8)[0]);
    assert(octal_seq(0o644, 7)[0] >= 0x30);
    assert(!is_zero_block(hdr));

    // The name comes back exactly.
    assert(hdr.take(100) =~= pad(name, 100));
    lemma_nul_index_of(pad(name, 100), name.len() as int);
    assert(pad(name, 100).take(name.len() as int) =~= name);
}

/// Decoding an encoded entry peels it off the front of the archive.
proof fn lemma_parse_encoded_entry(name: Seq<u8>, data: Seq<u8>, rest: Seq<u8>)
    requires
        entry_wf(name, data),
    ensures
        parse_archive(encode_entry(name, data) + rest) == match parse_archive(rest) {
            Option::None => Option::<Seq<(Seq<u8>, Seq<u8>)>>::None,
            Option::Some(r) => Option::Some(seq![(name, data)] + r),
        },
{
    let size = data.len();
    let enc = encode_entry(name, data);
    let b = enc + rest;
    lemma_header_fields(name, size);
    assert(enc.len() == 512 + size + pad_len(size));
    let hdr = b.take(512);
    assert(hdr =~= header_bytes(name, size));
    let total = 512 + size + pad_len(size);
    assert(b.len() >= total);
    assert(b.subrange(512, 512 + size as int) =~= data);
    assert(b.skip(total as int) =~= rest);
    match parse_archive(rest) {
        Option::None => {},
        Option::Some(r) => {
            assert(parse_archive(b) == Option::Some(seq![(name, data)] + r));
        },
    }
}

/// The end-of-archive marker decodes as an archive with no entries.
proof fn lemma_parse_terminator()
    ensures
        parse_archive(zeros(1024)) == Option::Some(Seq::<(Seq<u8>, Seq<u8>)>::empty()),
{
    let b = zeros(1024);
    assert(is_zero_block(b.take(512)));
}

/// Round-trip: decoding an encoded archive yields exactly the entries that
/// were encoded, in order.
pub proof fn lemma_archive_round_trip(es: Seq<(Seq<u8>, Seq<u8>)>)
    requires
        forall|i: int| 0 <= i < es.len() ==> #[trigger] entry_wf(es[i].0, es[i].1),
    ensures
        parse_archive(encode_archive(es)) == Option::Some(es),
    decreases es.len(),
{
    if es.len() == 0 {
        lemma_parse_terminator();
        assert(encode_archive(es) =~= zeros(1024));
        assert(es =~= Seq::<(Seq<u8>, Seq<u8>)>::empty());
    } else {
        let tail = es.drop_first();
        assert(forall|i: int|
            0 <= i < tail.len() ==> #[trigger] entry_wf(tail[i].0, tail[i].1)) by {
            assert(forall|i: int| 0 <= i < tail.len() ==> tail[i] == es[i + 1]);
        }
        lemma_archive_round_trip(tail);
        assert(encode_archive(es) =~= encode_entry(es[0].0, es[0].1) + encode_archive(tail));
        lemma_parse_encoded_entry(es[0].0, es[0].1, encode_archive(tail));
        assert(seq![(es[0].0, es[0].1)] + tail =~= es);
    }
}

/// Appending one entry extends the encoded byte run by that entry's
/// encoding.
proof fn lemma_encode_entries_push(es: Seq<(Seq<u8>, Seq<u8>)>, e: (Seq<u8>, Seq<u8>))
    ensures
        encode_entries(es.push(e)) == encode_entries(es) + encode_entry(e.0, e.1),
    decreases es.len(),
{
    if es.len() == 0 {
        assert(es.push(e)[0] == e);
        assert(es.push(e).drop_first() =~= Seq::<(Seq<u8>, Seq<u8>)>::empty());
        assert(encode_entries(es.push(e)) == encode_entry(e.0, e.1) + encode_entries(
            Seq::<(Seq<u8>, Seq<u8>)>::empty(),
        ));
        assert(encode_entry(e.0, e.1) + encode_entries(Seq::<(Seq<u8>, Seq<u8>)>::empty())
            =~= encode_entries(es) + encode_entry(e.0, e.1));
    } else {
        assert(es.push(e).drop_first() =~= es.drop_first().push(e));
        lemma_encode_entries_push(es.drop_first(), e);
        assert(es.push(e)[0] == es[0]);
        assert(encode_entries(es.push(e)) == encode_entry(es[0].0, es[0].1) + (encode_entries(
            es.drop_first(),
        ) + encode_entry(e.0, e.1)));
        assert(encode_entry(es[0].0, es[0].1) + (encode_entries(es.drop_first()) + encode_entry(
            e.0,
            e.1,
        )) =~= encode_entries(es) + encode_entry(e.0, e.1));
    }
}

proof fn lemma_nul_index_of(s: Seq<u8>, k: int)
    requires
        0 <= k <= s.len(),
        forall|i: int| 0 <= i < k ==> #[trigger] s[i] != 0,
        k < s.len() ==> s[k] == 0,
    ensures
        nul_index(s) == k,
    decreases s.len(),
{
    if s.len() == 0 {
    } else if k == 0 {
    } else {
        lemma_nul_index_of(s.drop_first(), k - 1);
    }
}

proof fn lemma_pow8_mono(a: nat, b: nat)
    requires
        a <= b,
    ensures
        pow8(a) <= pow8(b),
    decreases b,
{
    if a < b {
        lemma_pow8_mono(a, (b - 1) as nat);
    }
}

proof fn lemma_byte_sum_concat(a: Seq<u8>, b: Seq<u8>)
    ensures
        byte_sum(a + b) == byte_sum(a) + byte_sum(b),
    decreases b.len(),
{
    if b.len() == 0 {
        assert(a + b =~= a);
    } else {
        lemma_byte_sum_concat(a, b.drop_last());
        assert((a + b).drop_last() =~= a + b.drop_last());
        assert((a + b).last() == b.last());
    }
}

proof fn lemma_byte_sum_spaces(n: nat)
    ensures
        byte_sum(spaces(n)) == 32 * n,
    decreases n,
{
    if n > 0 {
        lemma_byte_sum_spaces((n - 1) as nat);
        assert(spaces(n).drop_last() =~= spaces((n - 1) as nat));
        assert(spaces(n).last() == 0x20);
    }
}

/// Prefix sums over a subrange: one more byte adds that byte to the sum.
proof fn lemma_byte_sum_sub_step(s: Seq<u8>, a: int, i: int)
    requires
        0 <= a <= i < s.len(),
    ensures
        byte_sum(s.subrange(a, i + 1)) == byte_sum(s.subrange(a, i)) + s[i],
{
    assert(s.subrange(a, i + 1).drop_last() =~= s.subrange(a, i));
    assert(s.subrange(a, i + 1).last() == s[i]);
}

/// Why an entry cannot be appended or an archive cannot be decoded.
#[derive(Clone, Copy, Debug, PartialEq, Eq, Structural)]
pub enum CodecError {
    /// An entry name must not be empty.
    EmptyName,
    /// An entry name must fit the header's 100-byte name field.
    NameTooLong,
    /// An entry name must not contain a NUL byte, the field terminator.
    NameHasNul,
    /// A payload must fit the header's eleven octal digits.
    PayloadTooLarge,
    /// The container ends before the recorded entries or the terminator.
    Truncated,
    /// A header block fails its checksum or carries no readable size.
    BadHeader,
}

/// One decoded archive entry.
#[derive(Debug)]
pub struct Entry {
    pub name: Vec<u8>,
    pub data: Vec<u8>,
}

impl View for Entry {
    type V = (Seq<u8>, Seq<u8>);

    open spec fn view(&self) -> (Seq<u8>, Seq<u8>) {
        (self.name@, self.data@)
    }
}

/// The models of a run of decoded entries.
pub open spec fn entries_view(es: Seq<Entry>) -> Seq<(Seq<u8>, Seq<u8>)> {
    es.map_values(|e: Entry| e@)
}

fn push_run(v: &mut Vec<u8>, b: u8, n: usize)
    ensures
        final(v)@ == old(v)@ + Seq::new(n as nat, |j: int| b),
{
    let mut i: usize = 0;
    proof {
        assert(v@ =~= old(v)@ + Seq::new(0, |j: int| b));
    }
    while i < n
        invariant
            i <= n,
            v@ == old(v)@ + Seq::new(i as nat, |j: int| b),
        decreases n - i,
    {
        v.push(b);
        proof {
            assert(v@ =~= old(v)@ + Seq::new((i + 1) as nat, |j: int| b));
        }
        i += 1;
    }
    proof {
        assert(v@ =~= old(v)@ + Seq::new(n as nat, |j: int| b));
    }
}

fn push_bytes(v: &mut Vec<u8>, src: &Vec<u8>)
    ensures
        final(v)@ == old(v)@ + src@,
{
    let mut i: usize = 0;
    proof {
        assert(v@ =~= old(v)@ + src@.take(0));
    }
    while i < src.len()
        invariant
            i <= src@.len(),
            v@ == old(v)@ + src@.take(i as int),
        decreases src@.len() - i,
    {
        v.push(src[i]);
        proof {
            assert(v@ =~= old(v)@ + src@.take(i + 1));
        }
        i += 1;
    }
    proof {
        assert(v@ =~= old(v)@ + src@);
    }
}

fn push_octal(v: &mut Vec<u8>, n: u64, width: usize)
    ensures
        final(v)@ == old(v)@ + octal_seq(n as nat, width as nat),
    decreases width,
{
    if width == 0 {
        proof {
            assert(v@ =~= old(v)@ + octal_seq(n as nat, 0));
        }
    } else {
        push_octal(v, n / 8, width - 1);
        let d: u8 = 0x30 + (n % 8) as u8;
        v.push(d);
        proof {
            assert(d == octal_digit((n as nat) % 8));
            assert((n as nat) / 8 == (n / 8) as nat);
            assert(v@ =~= old(v)@ + octal_seq(n as nat, width as nat));
        }
    }
}

fn push_num_field(v: &mut Vec<u8>, n: u64, width: usize)
    requires
        width >= 1,
    ensures
        final(v)@ == old(v)@ + num_field(n as nat, width as nat),
{
    push_octal(v, n, width - 1);
    v.push(0);
    proof {
        assert(v@ =~= old(v)@ + num_field(n as nat, width as nat));
    }
}

/// The header block for an entry, with the checksum field still holding
/// the spaces over which the checksum is defined.
fn build_pre_block(name: &Vec<u8>, size: u64) -> (b: Vec<u8>)
    requires
        name@.len() <= 100,
    ensures
        b@ == pre_header(name@, size as nat),
        b@.len() == 512,
{
    let mut block: Vec<u8> = Vec::new();
    push_bytes(&mut block, name);
    push_run(&mut block, 0, 100 - name.len());
    push_num_field(&mut block, 0o644, 8);
    push_num_field(&mut block, 0, 8);
    push_num_field(&mut block, 0, 8);
    push_num_field(&mut block, size, 12);
    push_num_field(&mut block, 0, 12);
    push_run(&mut block, 0x20, 8);
    block.push(0x30);
    push_run(&mut block, 0, 100);
    block.push(0x75);
    block.push(0x73);
    block.push(0x74);
    block.push(0x61);
    block.push(0x72);
    block.push(0);
    block.push(0x30);
    block.push(0x30);
    push_run(&mut block, 0, 247);
    proof {
        lemma_octal_seq_len(0o644, 7);
        lemma_octal_seq_len(0, 7);
        lemma_octal_seq_len(size as nat, 11);
        lemma_octal_seq_len(0, 11);
        assert(block@ =~= pre_header(name@, size as nat));
    }
    block
}

/// The byte sum of a 512-byte block.
fn block_sum(block: &Vec<u8>) -> (sum: u64)
    requires
        block@.len() == 512,
    ensures
        sum as nat == byte_sum(block@),
{
    let mut sum: u64 = 0;
    let mut i: usize = 0;
    while i < 512
        invariant
            i <= 512,
            block@.len() == 512,
            sum as nat == byte_sum(block@.take(i as int)),
            sum <= 255 * i,
        decreases 512 - i,
    {
        proof {
            lemma_byte_sum_step(block@, i as int);
        }
        sum = sum + block[i] as u64;
        i += 1;
    }
    proof {
        assert(block@.take(512) =~= block@);
    }
    sum
}

/// Appends the finished header: the block with `sum` written into the
/// checksum field.
fn push_header(buf: &mut Vec<u8>, block: &Vec<u8>, sum: u64)
    requires
        block@.len() == 512,
    ensures
        final(buf)@ == old(buf)@ + (block@.take(148) + num_field(sum as nat, 8) + block@.skip(
            156,
        )),
{
    let ghost start = buf@;
    let mut i: usize = 0;
    while i < 148
        invariant
            i <= 148,
            block@.len() == 512,
            buf@ == start + block@.take(i as int),
        decreases 148 - i,
    {
        buf.push(block[i]);
        proof {
            assert(buf@ =~= start + block@.take(i + 1));
        }
        i += 1;
    }
    push_num_field(buf, sum, 8);
    let mut i: usize = 156;
    while i < 512
        invariant
            156 <= i <= 512,
            block@.len() == 512,
            buf@ == start + block@.take(148) + num_field(sum as nat, 8) + block@.subrange(
                156,
                i as int,
            ),
        decreases 512 - i,
    {
        buf.push(block[i]);
        proof {
            assert(buf@ =~= start + block@.take(148) + num_field(sum as nat, 8) + block@.subrange(
                156,
                i + 1,
            ));
        }
        i += 1;
    }
    proof {
        assert(block@.subrange(156, 512) =~= block@.skip(156));
        assert(buf@ =~= start + (block@.take(148) + num_field(sum as nat, 8) + block@.skip(156)));
    }
}

/// Builds an archive container in memory, one appended entry at a time.
pub struct ArchiveWriter {
    buf: Vec<u8>,
    recorded: Ghost<Seq<(Seq<u8>, Seq<u8>)>>,
}

impl ArchiveWriter {
    /// The models of the entries appended so far, in order.
    pub closed spec fn entries(&self) -> Seq<(Seq<u8>, Seq<u8>)> {
        self.recorded@
    }

    /// The writer's bytes are exactly the encoding of the entries appended
    /// so far, each of which the format can represent.
    pub closed spec fn wf(&self) -> bool {
        &&& self.buf@ == encode_entries(self.recorded@)
        &&& forall|i: int|
            0 <= i < self.recorded@.len() ==> #[trigger] entry_wf(
                self.recorded@[i].0,
                self.recorded@[i].1,
            )
    }

    /// A fresh container with no entries.
    pub fn new() -> (w: Self)
        ensures
            w.wf(),
            w.entries() == Seq::<(Seq<u8>, Seq<u8>)>::empty(),
    {
        let w = ArchiveWriter { buf: Vec::new(), recorded: Ghost(Seq::empty()) };
        proof {
            assert(w.buf@ =~= encode_entries(w.recorded@));
        }
        w
    }

    /// Appends one entry: computes and stores size and checksum in a fresh
    /// header, then the payload, zero-padded to the block size.  Rejects
    /// exactly the names and payloads the format cannot represent, leaving
    /// the container unchanged.
    #[verifier::loop_isolation(false)]
    pub fn append(&mut self, name: &Vec<u8>, data: &Vec<u8>) -> (r: Result<(), CodecError>)
        requires
            old(self).wf(),
        ensures
            final(self).wf(),
            r is Ok <==> entry_wf(name@, data@),
            final(self).entries() == if entry_wf(name@, data@) {
                old(self).entries().push((name@, data@))
            } else {
                old(self).entries()
            },
            r == Result::<(), CodecError>::Err(CodecError::EmptyName) <==> name@.len() == 0,
            r == Result::<(), CodecError>::Err(CodecError::NameTooLong) <==> name@.len()
                > MAX_NAME,
            r == Result::<(), CodecError>::Err(CodecError::NameHasNul) <==> (1 <= name@.len()
                <= MAX_NAME && exists|i: int| 0 <= i < name@.len() && name@[i] == 0),
            r == Result::<(), CodecError>::Err(CodecError::PayloadTooLarge) <==> (1 <= name@.len()
                <= MAX_NAME && (forall|i: int| 0 <= i < name@.len() ==> #[trigger] name@[i] != 0)
                && data@.len() > MAX_PAYLOAD),
    {
        if name.len() == 0 {
            return Err(CodecError::EmptyName);
        }
        if name.len() > MAX_NAME {
            return Err(CodecError::NameTooLong);
        }
        let mut i: usize = 0;
        while i < name.len()
            invariant
                i <= name@.len(),
                forall|j: int| 0 <= j < i ==> #[trigger] name@[j] != 0,
            decreases name@.len() - i,
        {
            if name[i] == 0 {
                return Err(CodecError::NameHasNul);
            }
            i += 1;
        }
        if data.len() as u64 > MAX_PAYLOAD {
            return Err(CodecError::PayloadTooLarge);
        }
        let ghost gname = name@;
        let ghost gsize = data@.len();
        let ghost start = self.buf@;

        let block = build_pre_block(name, data.len() as u64);
        let sum = block_sum(&block);
        push_header(&mut self.buf, &block, sum);
        proof {
            assert(self.buf@ =~= start + header_bytes(gname, gsize));
        }

        // The payload, padded to the block boundary.
        push_bytes(&mut self.buf, data);
        let rem = data.len() % 512;
        if rem != 0 {
            push_run(&mut self.buf, 0, 512 - rem);
        }
        proof {
            assert(self.buf@ =~= start + encode_entry(gname, data@));
            lemma_encode_entries_push(old(self).recorded@, (gname, data@));
        }
        self.recorded = Ghost(self.recorded@.push((gname, data@)));
        proof {
            assert(self.buf@ =~= encode_entries(self.recorded@));
        }
        Ok(())
    }

    /// Writes the end-of-archive marker and hands the finished container
    /// back: it decodes to exactly the appended entries.
    pub fn finalize(self) -> (r: Vec<u8>)
        requires
            self.wf(),
        ensures
            r@ == encode_archive(self.entries()),
            parse_archive(r@) == Option::Some(self.entries()),
    {
        let ArchiveWriter { mut buf, recorded } = self;
        push_run(&mut buf, 0, 1024);
        proof {
            assert(buf@ =~= encode_archive(recorded@));
            lemma_archive_round_trip(recorded@);
        }
        buf
    }
}

/// Reads a numeric header field: its leading octal digits, leniently.
#[verifier::loop_isolation(false)]
fn read_field(bytes: &Vec<u8>, start: usize, width: usize) -> (r: Option<u64>)
    requires
        start + width <= bytes@.len(),
        1 <= width <= 12,
    ensures
        ({
            let f = bytes@.subrange(start as int, start as int + width as int);
            match r {
                Option::Some(v) => oct_prefix_len(f) >= 1 && v as nat == field_value(f) && v
                    < 0x10_0000_0000u64,
                Option::None => oct_prefix_len(f) == 0,
            }
        }),
{
    let n = bytes.len();
    let ghost f = bytes@.subrange(start as int, start as int + width as int);
    let mut k: usize = 0;
    let mut acc: u64 = 0;
    while k < width
        invariant
            k <= width,
            start + width <= bytes@.len(),
            f == bytes@.subrange(start as int, start as int + width as int),
            1 <= width <= 12,
            forall|j: int| 0 <= j < k ==> 0x30 <= #[trigger] f[j] <= 0x37,
            acc as nat == parse_octal(f.take(k as int)),
            acc < pow8(k as nat),
        decreases width - k,
    {
        let b = bytes[start + k];
        proof {
            assert(f[k as int] == b);
        }
        if b < 0x30 || b > 0x37 {
            proof {
                lemma_oct_prefix_of_digits(f, k as int);
            }
            if k == 0 {
                return None;
            }
            proof {
                lemma_pow8_mono(k as nat, 12);
                assert(pow8(12) == 0x10_0000_0000) by {
                    reveal_with_fuel(pow8, 13);
                }
            }
            return Some(acc);
        }
        proof {
            assert(f.take(k + 1).drop_last() =~= f.take(k as int));
            assert(f.take(k + 1).last() == b);
            assert(parse_octal(f.take(k + 1)) == acc * 8 + (b - 0x30));
            lemma_pow8_mono((k + 1) as nat, 12);
            assert(pow8(12) == 0x10_0000_0000) by {
                reveal_with_fuel(pow8, 13);
            }
            assert(pow8((k + 1) as nat) == 8 * pow8(k as nat));
        }
        acc = acc * 8 + (b - 0x30) as u64;
        k += 1;
    }
    proof {
        lemma_oct_prefix_of_digits(f, width as int);
        assert(f.take(width as int) =~= f);
        lemma_pow8_mono(width as nat, 12);
        assert(pow8(12) == 0x10_0000_0000) by {
            reveal_with_fuel(pow8, 13);
        }
    }
    Some(acc)
}

/// True exactly when the 512 bytes at `start` are all zero.
#[verifier::loop_isolation(false)]
fn is_zero_block_at(bytes: &Vec<u8>, start: usize) -> (r: bool)
    requires
        start + 512 <= bytes@.len(),
    ensures
        r <==> is_zero_block(bytes@.subrange(start as int, start as int + 512)),
{
    let n = bytes.len();
    let ghost h = bytes@.subrange(start as int, start as int + 512);
    let mut i: usize = 0;
    while i < 512
        invariant
            i <= 512,
            start + 512 <= bytes@.len(),
            h == bytes@.subrange(start as int, start as int + 512),
            forall|j: int| 0 <= j < i ==> #[trigger] h[j] == 0,
        decreases 512 - i,
    {
        if bytes[start + i] != 0 {
            proof {
                assert(h[i as int] != 0);
            }
            return false;
        }
        i += 1;
    }
    true
}

/// The byte sum of the block at `start` with its checksum field read as
/// spaces.
#[verifier::loop_isolation(false)]
fn spaced_sum(bytes: &Vec<u8>, start: usize) -> (sum: u64)
    requires
        start + 512 <= bytes@.len(),
    ensures
        sum as nat == byte_sum(spaced(bytes@.subrange(start as int, start as int + 512))),
{
    let n = bytes.len();
    let ghost h = bytes@.subrange(start as int, start as int + 512);
    let mut sum: u64 = 0;
    let mut i: usize = 0;
    while i < 148
        invariant
            i <= 148,
            start + 512 <= bytes@.len(),
            h == bytes@.subrange(start as int, start as int + 512),
            sum as nat == byte_sum(h.take(i as int)),
            sum <= 255 * i,
        decreases 148 - i,
    {
        proof {
            lemma_byte_sum_step(h, i as int);
            assert(h[i as int] == bytes@[start + i]);
        }
        sum = sum + bytes[start + i] as u64;
        i += 1;
    }
    sum = sum + 256;
    let mut i: usize = 156;
    while i < 512
        invariant
            156 <= i <= 512,
            start + 512 <= bytes@.len(),
            h == bytes@.subrange(start as int, start as int + 512),
            sum as nat == byte_sum(h.take(148)) + 256 + byte_sum(h.subrange(156, i as int)),
            sum <= 255 * i + 256,
        decreases 512 - i,
    {
        proof {
            lemma_byte_sum_sub_step(h, 156, i as int);
            assert(h[i as int] == bytes@[start + i]);
        }
        sum = sum + bytes[start + i] as u64;
        i += 1;
    }
    proof {
        lemma_byte_sum_concat(h.take(148) + spaces(8), h.skip(156));
        lemma_byte_sum_concat(h.take(148), spaces(8));
        lemma_byte_sum_spaces(8);
        assert(h.subrange(156, 512) =~= h.skip(156));
        assert(spaced(h) == h.take(148) + spaces(8) + h.skip(156));
    }
    sum
}

/// The entry name of the block at `start`: the name field up to its first
/// NUL.
fn read_name(bytes: &Vec<u8>, start: usize) -> (nm: Vec<u8>)
    requires
        start + 512 <= bytes@.len(),
    ensures
        nm@ == header_name(bytes@.subrange(start as int, start as int + 512)),
{
    let n = bytes.len();
    let ghost h = bytes@.subrange(start as int, start as int + 512);
    let ghost n100 = h.take(100);
    let mut k: usize = 0;
    while k < 100
        invariant
            k <= 100,
            n == bytes@.len(),
            start + 512 <= n,
            h == bytes@.subrange(start as int, start as int + 512),
            n100 == h.take(100),
            forall|j: int| 0 <= j < k ==> #[trigger] n100[j] != 0,
        ensures
            k <= 100,
            n100 == h.take(100),
            forall|j: int| 0 <= j < k ==> #[trigger] n100[j] != 0,
            k < 100 ==> n100[k as int] == 0,
        decreases 100 - k,
    {
        if bytes[start + k] == 0 {
            proof {
                assert(n100[k as int] == 0);
            }
            break;
        }
        proof {
            assert(n100[k as int] != 0);
        }
        k += 1;
    }
    proof {
        lemma_nul_index_of(n100, k as int);
    }
    let mut nm: Vec<u8> = Vec::new();
    let mut j: usize = 0;
    while j < k
        invariant
            j <= k <= 100,
            n == bytes@.len(),
            start + 512 <= n,
            h == bytes@.subrange(start as int, start as int + 512),
            n100 == h.take(100),
            nm@ == n100.take(j as int),
        decreases k - j,
    {
        nm.push(bytes[start + j]);
        proof {
            assert(n100[j as int] == bytes@[start + j]);
            assert(nm@ =~= n100.take(j + 1));
        }
        j += 1;
    }
    proof {
        assert(nm@ == n100.take(nul_index(n100) as int));
    }
    nm
}

/// True exactly when the block at `start` carries the magic bytes.
#[verifier::loop_isolation(false)]
fn check_magic(bytes: &Vec<u8>, start: usize) -> (r: bool)
    requires
        start + 512 <= bytes@.len(),
    ensures
        r <==> bytes@.subrange(start as int, start as int + 512).subrange(257, 262) == magic(),
{
    let n = bytes.len();
    let ghost h = bytes@.subrange(start as int, start as int + 512);
    let ghost m = h.subrange(257, 262);
    let ok = bytes[start + 257] == 0x75 && bytes[start + 258] == 0x73 && bytes[start + 259] == 0x74
        && bytes[start + 260] == 0x61 && bytes[start + 261] == 0x72;
    proof {
        assert(m[0] == bytes@[start + 257]);
        assert(m[1] == bytes@[start + 258]);
        assert(m[2] == bytes@[start + 259]);
        assert(m[3] == bytes@[start + 260]);
        assert(m[4] == bytes@[start + 261]);
        if ok {
            assert(m =~= magic());
        }
    }
    ok
}

/// Decodes a whole container: every entry in on-disk order, validating
/// each header's checksum and size field, up to the zero-block terminator.
/// Fails, without resynchronizing, exactly on the byte runs that are not a
/// well-formed container.
#[verifier::loop_isolation(false)]
#[verifier::rlimit(50)]
pub fn decode_archive(bytes: &Vec<u8>) -> (r: Result<Vec<Entry>, CodecError>)
    ensures
        match r {
            Ok(es) => parse_archive(bytes@) == Option::Some(entries_view(es@)),
            Err(e) => parse_archive(bytes@) is None && (e == CodecError::Truncated || e
                == CodecError::BadHeader),
        },
{
    let n = bytes.len();
    let mut acc: Vec<Entry> = Vec::new();
    let mut offset: usize = 0;
    proof {
        assert(bytes@.skip(0) =~= bytes@);
        assert(entries_view(acc@) =~= Seq::<(Seq<u8>, Seq<u8>)>::empty());
    }
    loop
        invariant
            offset <= n,
            n == bytes@.len(),
            (match parse_archive(bytes@.skip(offset as int)) {
                Option::None => parse_archive(bytes@) is None,
                Option::Some(rest) => parse_archive(bytes@) == Option::Some(
                    entries_view(acc@) + rest,
                ),
            }),
        decreases n - offset,
    {
        let ghost s = bytes@.skip(offset as int);
        if n - offset < 512 {
            return Err(CodecError::Truncated);
        }
        let ghost hdr = s.take(512);
        proof {
            assert(hdr =~= bytes@.subrange(offset as int, offset as int + 512));
        }
        if is_zero_block_at(bytes, offset) {
            proof {
                assert(parse_archive(s) == Option::Some(Seq::<(Seq<u8>, Seq<u8>)>::empty()));
                assert(entries_view(acc@) + Seq::<(Seq<u8>, Seq<u8>)>::empty() =~= entries_view(
                    acc@,
                ));
            }
            return Ok(acc);
        }
        proof {
            assert(hdr.subrange(148, 156) =~= bytes@.subrange(
                offset as int + 148,
                offset as int + 156,
            ));
            assert(hdr.subrange(124, 136) =~= bytes@.subrange(
                offset as int + 124,
                offset as int + 136,
            ));
        }
        let sum = spaced_sum(bytes, offset);
        let cks = match read_field(bytes, offset + 148, 8) {
            Option::None => {
                return Err(CodecError::BadHeader);
            },
            Option::Some(v) => v,
        };
        if cks != sum {
            return Err(CodecError::BadHeader);
        }
        let size = match read_field(bytes, offset + 124, 12) {
            Option::None => {
                return Err(CodecError::BadHeader);
            },
            Option::Some(v) => v,
        };
        if !check_magic(bytes, offset) {
            return Err(CodecError::BadHeader);
        }
        proof {
            assert(header_valid(hdr));
            assert(header_size(hdr) == size as nat);
        }
        let rem = size % 512;
        let padn: u64 = if rem == 0 {
            0
        } else {
            512 - rem
        };
        let need: u64 = 512 + size + padn;
        let avail: u64 = (n - offset) as u64;
        proof {
            assert(padn as nat == pad_len(size as nat));
            assert(need as nat == 512 + header_size(hdr) + pad_len(header_size(hdr)));
        }
        if avail < need {
            return Err(CodecError::Truncated);
        }
        let name = read_name(bytes, offset);
        let size_us: usize = size as usize;
        proof {
            assert(size <= avail);
            assert(size_us as u64 == size);
        }
        let mut data: Vec<u8> = Vec::new();
        let mut j: usize = 0;
        proof {
            assert(data@ =~= bytes@.subrange(offset as int + 512, offset as int + 512));
        }
        while j < size_us
            invariant
                j <= size_us,
                offset + 512 + size_us <= n,
                data@ == bytes@.subrange(offset as int + 512, offset as int + 512 + j),
            decreases size_us - j,
        {
            data.push(bytes[offset + 512 + j]);
            proof {
                assert(data@ =~= bytes@.subrange(offset as int + 512, offset as int + 512 + j + 1));
            }
            j += 1;
        }
        let ghost gname = name@;
        let ghost gdata = data@;
        let ghost prev = acc@;
        proof {
            assert(gdata =~= s.subrange(512, 512 + size as int));
            assert(gname == header_name(hdr));
        }
        acc.push(Entry { name, data });
        let newoff = offset + (need as usize);
        proof {
            assert(need as usize as u64 == need);
            assert(s.skip(512 + size as int + pad_len(size as nat) as int) =~= bytes@.skip(
                newoff as int,
            ));
            let en = (gname, gdata);
            assert(entries_view(acc@) =~= entries_view(prev) + seq![en]);
            match parse_archive(bytes@.skip(newoff as int)) {
                Option::None => {
                    assert(parse_archive(s) is None);
                },
                Option::Some(r2) => {
                    assert(parse_archive(s) == Option::Some(seq![en] + r2));
                    assert(entries_view(prev) + (seq![en] + r2) =~= (entries_view(prev) + seq![en])
                        + r2);
                },
            }
        }
        offset = newoff;
    }
}

} // verus!
