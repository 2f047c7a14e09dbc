//! Little-endian integers, doubles and text in a sequence of bytes.
use vstd::prelude::*;

use crate::number::Number;
use crate::text;
use crate::text::{decode_lossy, decimal_of_int, trim_end};

verus! {

/// Why a file is not a dataset.
#[derive(Debug, Clone, Copy, PartialEq, Eq, Structural)]
pub enum SavError {
    /// The file ends too early.
    UnexpectedEof,
    /// The file does not start with a known record type.
    InvalidHeader,
    /// The layout code is not 2.
    InvalidLayout(i32),
    /// No record of type 4 follows a record of type 3.
    LabelsWithoutVariables,
    /// A record of this type is not known.
    UnsupportedRecord(i32),
    /// The dictionary has no variable.
    NoColumns,
    /// A row has a value too few for some variable.
    UnevenColumns,
    /// A length, a count or a value that no dataset has.
    Malformed,
}

impl SavError {
    /// The error in words.
    pub open spec fn text(self) -> Seq<char> {
        match self {
            SavError::UnexpectedEof => "failed to fill whole buffer"@,
            SavError::InvalidHeader => "Invalid SPSS header record type"@,
            SavError::InvalidLayout(n) => "Invalid layout code: "@ + text::decimal_int(n as int),
            SavError::LabelsWithoutVariables => "Expected Record Type 4 following Record Type 3"@,
            SavError::UnsupportedRecord(n) => "Unsupported dictionary record type: "@
                + text::decimal_int(n as int),
            SavError::NoColumns =>
                "Invalid argument error: must either specify a row count or at least one column"@,
            SavError::UnevenColumns =>
                "Invalid argument error: all columns in a record batch must have the same length"@,
            SavError::Malformed => "Malformed file"@,
        }
    }

    /// The error in words.
    pub fn message(&self) -> (r: String)
        ensures
            r@ == self.text(),
    {
        match self {
            SavError::UnexpectedEof => "failed to fill whole buffer".to_owned(),
            SavError::InvalidHeader => "Invalid SPSS header record type".to_owned(),
            SavError::InvalidLayout(n) => {
                let d = decimal_of_int(*n as i64);
                text::join_two("Invalid layout code: ", d.as_str())
            },
            SavError::LabelsWithoutVariables =>
                "Expected Record Type 4 following Record Type 3".to_owned(),
            SavError::UnsupportedRecord(n) => {
                let d = decimal_of_int(*n as i64);
                text::join_two("Unsupported dictionary record type: ", d.as_str())
            },
            SavError::NoColumns =>
                "Invalid argument error: must either specify a row count or at least one column".to_owned(),
            SavError::UnevenColumns =>
                "Invalid argument error: all columns in a record batch must have the same length".to_owned(),
            SavError::Malformed => "Malformed file".to_owned(),
        }
    }
}

/// The four bytes of an integer below 2^32, lowest first.
pub open spec fn four_bytes(u: int) -> Seq<u8> {
    seq![
        (u % 256) as u8,
        (u / 256 % 256) as u8,
        (u / 0x1_0000 % 256) as u8,
        (u / 0x100_0000 % 256) as u8,
    ]
}

/// The four bytes of an integer, lowest first. Only its low 32 bits are kept.
pub open spec fn le4(n: int) -> Seq<u8> {
    four_bytes(n % 0x1_0000_0000)
}

/// The eight bytes of a double's pattern, lowest first.
pub open spec fn le8(n: Number) -> Seq<u8> {
    le4(n.bits as int % 0x1_0000_0000) + le4(n.bits as int / 0x1_0000_0000)
}

/// The unsigned integer in the four bytes from `p` on.
pub open spec fn u32_at(s: Seq<u8>, p: int) -> int {
    s[p] + 256 * s[p + 1] + 0x1_0000 * s[p + 2] + 0x100_0000 * s[p + 3]
}

/// The signed integer in the four bytes from `p` on.
pub open spec fn i32_at(s: Seq<u8>, p: int) -> i32 {
    let u = u32_at(s, p);
    (if u < 0x8000_0000 {
        u
    } else {
        u - 0x1_0000_0000
    }) as i32
}

/// The double whose pattern is in the eight bytes from `p` on.
pub open spec fn number_at(s: Seq<u8>, p: int) -> Number {
    Number { bits: (u32_at(s, p) + 0x1_0000_0000 * u32_at(s, p + 4)) as u64 }
}

/// The text in `len` bytes from `p` on, without white space at its end.
pub open spec fn text_at(s: Seq<u8>, p: int, len: int) -> Seq<char> {
    text::trimmed_end(text::lossy_text(s.subrange(p, p + len)))
}

/// `part` stands in `s` from `p` on.
pub open spec fn holds_at(s: Seq<u8>, p: int, part: Seq<u8>) -> bool {
    0 <= p && p + part.len() <= s.len() && s.subrange(p, p + part.len()) == part
}

/// Of two parts that stand one after the other, each stands where it should.
pub proof fn lemma_holds_split(s: Seq<u8>, p: int, a: Seq<u8>, b: Seq<u8>)
    requires
        holds_at(s, p, a + b),
    ensures
        holds_at(s, p, a),
        holds_at(s, p + a.len(), b),
{
    let whole = s.subrange(p, p + (a + b).len());
    assert(s.subrange(p, p + a.len()) =~= whole.subrange(0, a.len() as int));
    assert(whole.subrange(0, a.len() as int) =~= a);
    assert(s.subrange(p + a.len(), p + a.len() + b.len()) =~= whole.subrange(
        a.len() as int,
        whole.len() as int,
    ));
    assert(whole.subrange(a.len() as int, whole.len() as int) =~= b);
}

/// Appending two parts one after the other appends both as one.
pub proof fn lemma_append(x: Seq<u8>, a: Seq<u8>, b: Seq<u8>)
    ensures
        (x + a) + b == x + (a + b),
{
    assert((x + a) + b =~= x + (a + b));
}

/// An unsigned integer that was written is read back.
proof fn lemma_u32_read_back(s: Seq<u8>, p: int, u: int)
    requires
        holds_at(s, p, le4(u)),
        0 <= u < 0x1_0000_0000,
    ensures
        u32_at(s, p) == u,
{
    let w = s.subrange(p, p + 4);
    assert(w == le4(u));
    assert(s[p] == w[0] && s[p + 1] == w[1] && s[p + 2] == w[2] && s[p + 3] == w[3]);
    assert(u % 0x1_0000_0000 == u);
    assert(w[0] == u % 256 && w[1] == u / 256 % 256 && w[2] == u / 0x1_0000 % 256 && w[3] == u
        / 0x100_0000 % 256);
}

/// An integer that was written is read back.
pub proof fn law_integer_read_back(s: Seq<u8>, p: int, n: int)
    requires
        holds_at(s, p, le4(n)),
        i32::MIN <= n <= i32::MAX,
    ensures
        i32_at(s, p) == n,
{
    let u = n % 0x1_0000_0000;
    assert(u == if n < 0 {
        n + 0x1_0000_0000
    } else {
        n
    });
    assert(u % 0x1_0000_0000 == u);
    lemma_u32_read_back(s, p, u);
}

/// A double that was written is read back.
pub proof fn law_double_read_back(s: Seq<u8>, p: int, n: Number)
    requires
        holds_at(s, p, le8(n)),
    ensures
        number_at(s, p) == n,
{
    let low = n.bits as int % 0x1_0000_0000;
    let high = n.bits as int / 0x1_0000_0000;
    lemma_holds_split(s, p, le4(low), le4(high));
    assert(low + 0x1_0000_0000 * high == n.bits);
    lemma_u32_read_back(s, p, low);
    lemma_u32_read_back(s, p + 4, high);
}

/// A position in a sequence of bytes.
pub struct ByteReader {
    pub data: Vec<u8>,
    pub pos: usize,
}

impl ByteReader {
    pub open spec fn wf(&self) -> bool {
        self.pos <= self.data@.len()
    }

    /// Starts at the first byte.
    pub fn new(data: Vec<u8>) -> (r: Self)
        ensures
            r.data@ == data@,
            r.pos == 0,
            r.wf(),
    {
        ByteReader { data, pos: 0 }
    }

    /// Whether `n` bytes are left.
    pub fn can_take(&self, n: usize) -> (r: bool)
        requires
            self.wf(),
        ensures
            r == (self.pos + n <= self.data@.len()),
            r ==> self.pos + n <= usize::MAX,
    {
        n <= self.data.len() - self.pos
    }

    /// Passes over bytes.
    pub fn skip(&mut self, n: usize) -> (r: Result<(), SavError>)
        requires
            old(self).wf(),
        ensures
            final(self).wf(),
            final(self).data@ == old(self).data@,
            match r {
                Ok(_) => old(self).pos + n <= old(self).data@.len() && final(self).pos
                    == old(self).pos + n,
                Err(e) => old(self).pos + n > old(self).data@.len() && e == SavError::UnexpectedEof
                    && final(self).pos == old(self).pos,
            },
    {
        if !self.can_take(n) {
            return Err(SavError::UnexpectedEof);
        }
        self.pos = self.pos + n;
        Ok(())
    }
}

fn u32_from(data: &Vec<u8>, p: usize) -> (r: u32)
    requires
        p + 4 <= data.len(),
    ensures
        r == u32_at(data@, p as int),
{
    (data[p] as u32) + 256 * (data[p + 1] as u32) + 0x1_0000 * (data[p + 2] as u32) + 0x100_0000 * (
    data[p + 3] as u32)
}

/// Reads a signed integer.
pub fn read_i32(reader: &mut ByteReader) -> (r: Result<i32, SavError>)
    requires
        old(reader).wf(),
    ensures
        final(reader).wf(),
        final(reader).data@ == old(reader).data@,
        match r {
            Ok(n) => old(reader).pos + 4 <= old(reader).data@.len() && n == i32_at(
                old(reader).data@,
                old(reader).pos as int,
            ) && final(reader).pos == old(reader).pos + 4,
            Err(e) => old(reader).pos + 4 > old(reader).data@.len() && e == SavError::UnexpectedEof
                && final(reader).pos == old(reader).pos,
        },
{
    if !reader.can_take(4) {
        return Err(SavError::UnexpectedEof);
    }
    let u: u32 = u32_from(&reader.data, reader.pos);
    reader.pos = reader.pos + 4;
    if u < 0x8000_0000 {
        Ok(u as i32)
    } else {
        Ok((u as i64 - 0x1_0000_0000) as i32)
    }
}

/// Reads a double.
pub fn read_f64(reader: &mut ByteReader) -> (r: Result<Number, SavError>)
    requires
        old(reader).wf(),
    ensures
        final(reader).wf(),
        final(reader).data@ == old(reader).data@,
        match r {
            Ok(n) => old(reader).pos + 8 <= old(reader).data@.len() && n == number_at(
                old(reader).data@,
                old(reader).pos as int,
            ) && final(reader).pos == old(reader).pos + 8,
            Err(e) => old(reader).pos + 8 > old(reader).data@.len() && e == SavError::UnexpectedEof
                && final(reader).pos == old(reader).pos,
        },
{
    if !reader.can_take(8) {
        return Err(SavError::UnexpectedEof);
    }
    let low: u32 = u32_from(&reader.data, reader.pos);
    let high: u32 = u32_from(&reader.data, reader.pos + 4);
    reader.pos = reader.pos + 8;
    Ok(Number::from_bits(low as u64 + 0x1_0000_0000 * (high as u64)))
}

/// Decodes a run of bytes as text.
pub fn decode_at(data: &Vec<u8>, from: usize, to: usize) -> (r: String)
    requires
        from <= to <= data@.len(),
    ensures
        r@ == text::lossy_text(data@.subrange(from as int, to as int)),
{
    let mut part: Vec<u8> = Vec::new();
    let mut i: usize = from;
    while i < to
        invariant
            from <= i <= to <= data@.len(),
            part@ =~= data@.subrange(from as int, i as int),
        decreases to - i,
    {
        part.push(data[i]);
        i = i + 1;
    }
    decode_lossy(part.as_slice())
}

/// Reads text of `len` bytes, without white space at its end.
pub fn read_string(reader: &mut ByteReader, len: usize) -> (r: Result<String, SavError>)
    requires
        old(reader).wf(),
    ensures
        final(reader).wf(),
        final(reader).data@ == old(reader).data@,
        match r {
            Ok(t) => old(reader).pos + len <= old(reader).data@.len() && t@ == text_at(
                old(reader).data@,
                old(reader).pos as int,
                len as int,
            ) && final(reader).pos == old(reader).pos + len,
            Err(e) => old(reader).pos + len > old(reader).data@.len() && e
                == SavError::UnexpectedEof && final(reader).pos == old(reader).pos,
        },
{
    if !reader.can_take(len) {
        return Err(SavError::UnexpectedEof);
    }
    let raw = decode_at(&reader.data, reader.pos, reader.pos + len);
    reader.pos = reader.pos + len;
    Ok(trim_end(raw.as_str()))
}

/// Appends the four bytes of an integer's low 32 bits.
pub fn put_u32(out: &mut Vec<u8>, n: u32)
    ensures
        final(out)@ == old(out)@ + le4(n as int),
{
    let ghost before = out@;
    out.push((n % 256) as u8);
    out.push((n / 256 % 256) as u8);
    out.push((n / 0x1_0000 % 256) as u8);
    out.push((n / 0x100_0000 % 256) as u8);
    proof {
        assert(out@ =~= before + le4(n as int));
    }
}

/// Appends the four bytes of a signed integer.
pub fn put_i32(out: &mut Vec<u8>, n: i32)
    ensures
        final(out)@ == old(out)@ + le4(n as int),
{
    let u: u32 = if n < 0 {
        (n as i64 + 0x1_0000_0000) as u32
    } else {
        n as u32
    };
    proof {
        assert(u as int == n as int % 0x1_0000_0000);
        assert(u as int % 0x1_0000_0000 == u);
    }
    put_u32(out, u)
}

/// Appends the low four bytes of a size.
pub fn put_size(out: &mut Vec<u8>, n: usize)
    ensures
        final(out)@ == old(out)@ + le4(n as int),
{
    let low: u32 = (n as u64 % 0x1_0000_0000) as u32;
    proof {
        assert(low as int == n as int % 0x1_0000_0000);
        assert(low as int % 0x1_0000_0000 == low);
    }
    put_u32(out, low)
}

/// Appends the eight bytes of a double's pattern.
pub fn put_number(out: &mut Vec<u8>, n: Number)
    ensures
        final(out)@ == old(out)@ + le8(n),
{
    let low: u32 = (n.bits % 0x1_0000_0000) as u32;
    let high: u32 = (n.bits / 0x1_0000_0000) as u32;
    let ghost before = out@;
    put_u32(out, low);
    put_u32(out, high);
    proof {
        assert(out@ =~= before + le8(n));
    }
}

/// Appends the bytes of `part`.
pub fn put_bytes(out: &mut Vec<u8>, part: &[u8])
    ensures
        final(out)@ == old(out)@ + part@,
{
    let ghost before = out@;
    let mut i: usize = 0;
    while i < part.len()
        invariant
            i <= part@.len(),
            out@ =~= before + part@.take(i as int),
        decreases part@.len() - i,
    {
        out.push(part[i]);
        i = i + 1;
    }
    proof {
        assert(part@.take(part@.len() as int) =~= part@);
    }
}

/// `n` times the same byte.
pub open spec fn run_of(byte: u8, n: nat) -> Seq<u8> {
    Seq::new(n, |i: int| byte)
}

/// Appends one byte `n` times.
pub fn put_run(out: &mut Vec<u8>, byte: u8, n: usize)
    ensures
        final(out)@ == old(out)@ + run_of(byte, n as nat),
{
    let ghost before = out@;
    let mut i: usize = 0;
    while i < n
        invariant
            i <= n,
            out@ =~= before + run_of(byte, i as nat),
        decreases n - i,
    {
        out.push(byte);
        i = i + 1;
    }
}

} // verus!
