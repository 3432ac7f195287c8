//! Framing of the tile push: a write header followed by the raster payload.
use vstd::prelude::*;
use vstd::utf8::*;
use vstd::string::StringSliceAdditionalSpecFns;
use crate::codec::{
    be_bytes, be_value, lemma_be_bytes_of_value, lemma_be_read, lemma_i64_bits, lemma_u64_bits, push_u64,
    read_u64,
};

verus! {

broadcast use {encode_utf8_valid_utf8, encode_utf8_decode_utf8};

/// Operation byte of a write.
pub const OP_WRITE: u8 = 1;

/// The metadata that precedes a tile's raster payload. Coverages are
/// IEEE-754 binary64 bit patterns; a NaN cloud coverage means unknown.
#[derive(Clone, Debug)]
pub struct TransferHeader {
    pub album: String,
    pub platform: String,
    pub geocode: String,
    pub band: String,
    pub source: String,
    pub tile: String,
    pub subdataset_index: u8,
    pub start_timestamp: i64,
    pub end_timestamp: i64,
    pub pixel_coverage: u64,
    pub cloud_coverage: u64,
}

#[derive(Clone, Copy, Debug, PartialEq, Eq, Structural)]
pub enum TransferError {
    /// The stream ended inside the header.
    Truncated,
    /// The operation byte names no supported operation.
    UnsupportedOp(u8),
    /// A text field is not valid UTF-8.
    InvalidText,
    /// A text field is longer than 255 bytes and cannot be framed.
    FieldTooLong,
    /// The tile has no pixel that holds data; such tiles are never stored.
    EmptyTile,
}

/// Bytes of `p` stand in `b` at offset `pos`.
pub open spec fn bytes_at(b: Seq<u8>, pos: int, p: Seq<u8>) -> bool {
    0 <= pos && pos + p.len() <= b.len() && b.subrange(pos, pos + p.len()) == p
}

/// A text field fits its one-byte length prefix.
pub open spec fn text_fits(s: Seq<char>) -> bool {
    encode_utf8(s).len() <= 255
}

/// A length-prefixed text field: its UTF-8 length as one byte, then its bytes.
pub open spec fn field_bytes(s: Seq<char>) -> Seq<u8> {
    seq![encode_utf8(s).len() as u8] + encode_utf8(s)
}

impl TransferHeader {
    /// Every text field fits its length prefix.
    pub open spec fn fits(&self) -> bool {
        text_fits(self.album@) && text_fits(self.platform@) && text_fits(self.geocode@)
            && text_fits(self.band@) && text_fits(self.source@) && text_fits(self.tile@)
    }

    /// The two headers hold the same values.
    pub open spec fn same(&self, o: &TransferHeader) -> bool {
        &&& self.album@ == o.album@
        &&& self.platform@ == o.platform@
        &&& self.geocode@ == o.geocode@
        &&& self.band@ == o.band@
        &&& self.source@ == o.source@
        &&& self.tile@ == o.tile@
        &&& self.subdataset_index == o.subdataset_index
        &&& self.start_timestamp == o.start_timestamp
        &&& self.end_timestamp == o.end_timestamp
        &&& self.pixel_coverage == o.pixel_coverage
        &&& self.cloud_coverage == o.cloud_coverage
    }

    /// Offsets of the text fields after the album, and of the tail.
    pub open spec fn off_platform(&self) -> int {
        1 + field_bytes(self.album@).len() as int
    }

    pub open spec fn off_geocode(&self) -> int {
        self.off_platform() + field_bytes(self.platform@).len()
    }

    pub open spec fn off_band(&self) -> int {
        self.off_geocode() + field_bytes(self.geocode@).len()
    }

    pub open spec fn off_source(&self) -> int {
        self.off_band() + field_bytes(self.band@).len()
    }

    pub open spec fn off_tile(&self) -> int {
        self.off_source() + field_bytes(self.source@).len()
    }

    pub open spec fn off_tail(&self) -> int {
        self.off_tile() + field_bytes(self.tile@).len()
    }

    /// The fixed-width part after the text fields.
    pub open spec fn tail_bytes(&self) -> Seq<u8> {
        seq![self.subdataset_index] + be_bytes(self.start_timestamp as u64) + be_bytes(
            self.end_timestamp as u64,
        ) + be_bytes(self.pixel_coverage) + be_bytes(self.cloud_coverage)
    }

    /// The full encoded header.
    pub open spec fn header_bytes(&self) -> Seq<u8> {
        seq![OP_WRITE] + field_bytes(self.album@) + field_bytes(self.platform@) + field_bytes(
            self.geocode@,
        ) + field_bytes(self.band@) + field_bytes(self.source@) + field_bytes(self.tile@)
            + self.tail_bytes()
    }
}

/// Relies on `std::str::from_utf8`, which accepts exactly the valid UTF-8
/// byte sequences and then returns text whose bytes are the input.
#[verifier::external_body]
pub(crate) fn text_from_utf8(b: &[u8]) -> (r: Option<String>)
    ensures
        r is Some <==> valid_utf8(b@),
        r matches Some(s) ==> encode_utf8(s@) == b@,
{
    match std::str::from_utf8(b) {
        Ok(s) => Some(s.to_owned()),
        Err(_) => None,
    }
}

proof fn lemma_at_part(b: Seq<u8>, base: int, whole: Seq<u8>, pre: Seq<u8>, p: Seq<u8>, post: Seq<u8>)
    requires
        bytes_at(b, base, whole),
        whole == pre + p + post,
    ensures
        bytes_at(b, base + pre.len(), p),
{
    let k = base + pre.len();
    assert(b.subrange(k, k + p.len()) =~= p) by {
        assert forall|i: int| 0 <= i < p.len() implies b.subrange(k, k + p.len())[i] == p[i] by {
            assert(b[k + i] == b.subrange(base, base + whole.len())[pre.len() + i]);
        }
    }
}

proof fn lemma_at_join(b: Seq<u8>, pos: int, x: Seq<u8>, y: Seq<u8>)
    requires
        bytes_at(b, pos, x),
        bytes_at(b, pos + x.len(), y),
    ensures
        bytes_at(b, pos, x + y),
{
    assert forall|i: int| 0 <= i < x.len() + y.len() implies b.subrange(pos, pos + x.len() + y.len())[i] == (x + y)[i] by {
        if i < x.len() {
            assert(b.subrange(pos, pos + x.len())[i] == x[i]);
        } else {
            assert(b.subrange(pos + x.len(), pos + x.len() + y.len())[i - x.len()] == y[i - x.len()]);
        }
    }
    assert(b.subrange(pos, pos + x.len() + y.len()) =~= x + y);
}

/// Where the encoding of `h` stands at the start of `b`, so do each of its
/// parts, at their offsets.
proof fn lemma_header_parts(b: Seq<u8>, h: TransferHeader)
    requires
        bytes_at(b, 0, h.header_bytes()),
    ensures
        b.len() > 0 && b[0] == OP_WRITE,
        bytes_at(b, 1, field_bytes(h.album@)),
        bytes_at(b, h.off_platform(), field_bytes(h.platform@)),
        bytes_at(b, h.off_geocode(), field_bytes(h.geocode@)),
        bytes_at(b, h.off_band(), field_bytes(h.band@)),
        bytes_at(b, h.off_source(), field_bytes(h.source@)),
        bytes_at(b, h.off_tile(), field_bytes(h.tile@)),
        bytes_at(b, h.off_tail(), h.tail_bytes()),
{
    let w = h.header_bytes();
    let op = seq![OP_WRITE];
    let fa = field_bytes(h.album@);
    let fp = field_bytes(h.platform@);
    let fg = field_bytes(h.geocode@);
    let fb = field_bytes(h.band@);
    let fs = field_bytes(h.source@);
    let ft = field_bytes(h.tile@);
    let tl = h.tail_bytes();
    assert(b.subrange(0, w.len() as int)[0] == w[0]);
    assert(w =~= op + fa + (fp + fg + fb + fs + ft + tl));
    lemma_at_part(b, 0, w, op, fa, fp + fg + fb + fs + ft + tl);
    assert(w =~= (op + fa) + fp + (fg + fb + fs + ft + tl));
    lemma_at_part(b, 0, w, op + fa, fp, fg + fb + fs + ft + tl);
    assert(w =~= (op + fa + fp) + fg + (fb + fs + ft + tl));
    lemma_at_part(b, 0, w, op + fa + fp, fg, fb + fs + ft + tl);
    assert(w =~= (op + fa + fp + fg) + fb + (fs + ft + tl));
    lemma_at_part(b, 0, w, op + fa + fp + fg, fb, fs + ft + tl);
    assert(w =~= (op + fa + fp + fg + fb) + fs + (ft + tl));
    lemma_at_part(b, 0, w, op + fa + fp + fg + fb, fs, ft + tl);
    assert(w =~= (op + fa + fp + fg + fb + fs) + ft + tl);
    lemma_at_part(b, 0, w, op + fa + fp + fg + fb + fs, ft, tl);
    assert(w =~= (op + fa + fp + fg + fb + fs + ft) + tl + Seq::<u8>::empty());
    lemma_at_part(b, 0, w, op + fa + fp + fg + fb + fs + ft, tl, Seq::<u8>::empty());
}

/// Where the tail of `h` stands at `base`, its values read back from there.
proof fn lemma_tail_values(b: Seq<u8>, base: int, h: TransferHeader)
    requires
        bytes_at(b, base, h.tail_bytes()),
    ensures
        base + 33 <= b.len(),
        b[base] == h.subdataset_index,
        be_value(b, base + 1) == h.start_timestamp as u64,
        be_value(b, base + 9) == h.end_timestamp as u64,
        be_value(b, base + 17) == h.pixel_coverage,
        be_value(b, base + 25) == h.cloud_coverage,
{
    let w = h.tail_bytes();
    let s0 = seq![h.subdataset_index];
    let b1 = be_bytes(h.start_timestamp as u64);
    let b2 = be_bytes(h.end_timestamp as u64);
    let b3 = be_bytes(h.pixel_coverage);
    let b4 = be_bytes(h.cloud_coverage);
    let e = Seq::<u8>::empty();
    assert(b.subrange(base, base + w.len())[0] == w[0]);
    assert(w =~= s0 + b1 + (b2 + b3 + b4));
    lemma_at_part(b, base, w, s0, b1, b2 + b3 + b4);
    lemma_be_read(b, base + 1, h.start_timestamp as u64);
    assert(w =~= (s0 + b1) + b2 + (b3 + b4));
    lemma_at_part(b, base, w, s0 + b1, b2, b3 + b4);
    lemma_be_read(b, base + 9, h.end_timestamp as u64);
    assert(w =~= (s0 + b1 + b2) + b3 + b4);
    lemma_at_part(b, base, w, s0 + b1 + b2, b3, b4);
    lemma_be_read(b, base + 17, h.pixel_coverage);
    assert(w =~= (s0 + b1 + b2 + b3) + b4 + e);
    lemma_at_part(b, base, w, s0 + b1 + b2 + b3, b4, e);
    lemma_be_read(b, base + 25, h.cloud_coverage);
}

/// Two headers whose encodings both stand at the start of `b` hold the same
/// values: the encoding is unambiguous.
pub proof fn lemma_header_unique(b: Seq<u8>, h1: TransferHeader, h2: TransferHeader)
    requires
        h1.fits(),
        h2.fits(),
        bytes_at(b, 0, h1.header_bytes()),
        bytes_at(b, 0, h2.header_bytes()),
    ensures
        h1.same(&h2),
{
    lemma_header_parts(b, h1);
    lemma_header_parts(b, h2);
    lemma_field_unique(b, 1, h1.album@, h2.album@);
    lemma_field_unique(b, h1.off_platform(), h1.platform@, h2.platform@);
    lemma_field_unique(b, h1.off_geocode(), h1.geocode@, h2.geocode@);
    lemma_field_unique(b, h1.off_band(), h1.band@, h2.band@);
    lemma_field_unique(b, h1.off_source(), h1.source@, h2.source@);
    lemma_field_unique(b, h1.off_tile(), h1.tile@, h2.tile@);
    lemma_tail_values(b, h1.off_tail(), h1);
    lemma_tail_values(b, h1.off_tail(), h2);
    lemma_i64_bits(h1.start_timestamp);
    lemma_i64_bits(h2.start_timestamp);
    lemma_i64_bits(h1.end_timestamp);
    lemma_i64_bits(h2.end_timestamp);
}

proof fn lemma_field_unique(b: Seq<u8>, pos: int, s: Seq<char>, t: Seq<char>)
    requires
        text_fits(s),
        text_fits(t),
        bytes_at(b, pos, field_bytes(s)),
        bytes_at(b, pos, field_bytes(t)),
    ensures
        s == t,
{
    assert(b[pos] == field_bytes(s)[0]);
    assert(b[pos] == field_bytes(t)[0]);
    let n = encode_utf8(s).len();
    assert(encode_utf8(s) =~= b.subrange(pos + 1, pos + 1 + n)) by {
        assert forall|i: int| 0 <= i < n implies encode_utf8(s)[i] == b[pos + 1 + i] by {
            assert(field_bytes(s)[1 + i] == encode_utf8(s)[i]);
        }
    }
    assert(encode_utf8(t) =~= b.subrange(pos + 1, pos + 1 + n)) by {
        assert forall|i: int| 0 <= i < n implies encode_utf8(t)[i] == b[pos + 1 + i] by {
            assert(field_bytes(t)[1 + i] == encode_utf8(t)[i]);
        }
    }
    assert(decode_utf8(encode_utf8(s)) == s);
    assert(decode_utf8(encode_utf8(t)) == t);
}

/// Reads the length-prefixed text field at `pos`.
fn read_field(b: &[u8], pos: usize) -> (r: Result<(String, usize), TransferError>)
    ensures
        r matches Ok((s, p)) ==> text_fits(s@) && p == pos + field_bytes(s@).len() && bytes_at(
            b@,
            pos as int,
            field_bytes(s@),
        ),
        r matches Err(e) ==> (e == TransferError::Truncated || e == TransferError::InvalidText)
            && forall|t: Seq<char>| text_fits(t) ==> !bytes_at(b@, pos as int, #[trigger] field_bytes(t)),
{
    if pos >= b.len() {
        proof {
            assert forall|t: Seq<char>| text_fits(t) implies !bytes_at(b@, pos as int, #[trigger] field_bytes(t)) by {}
        }
        return Err(TransferError::Truncated);
    }
    let n = b[pos] as usize;
    if n > b.len() - pos - 1 {
        proof {
            assert forall|t: Seq<char>| text_fits(t) implies !bytes_at(b@, pos as int, #[trigger] field_bytes(t)) by {
                if bytes_at(b@, pos as int, field_bytes(t)) {
                    assert(b@.subrange(pos as int, pos + field_bytes(t).len())[0] == field_bytes(t)[0]);
                }
            }
        }
        return Err(TransferError::Truncated);
    }
    let text = &b[pos + 1..pos + 1 + n];
    match text_from_utf8(text) {
        Some(s) => {
            proof {
                assert(field_bytes(s@) =~= b@.subrange(pos as int, pos + 1 + n));
            }
            Ok((s, pos + 1 + n))
        },
        None => {
            proof {
                assert forall|t: Seq<char>| text_fits(t) implies !bytes_at(b@, pos as int, #[trigger] field_bytes(t)) by {
                    if bytes_at(b@, pos as int, field_bytes(t)) {
                        assert(b@.subrange(pos as int, pos + field_bytes(t).len())[0] == field_bytes(t)[0]);
                        assert(encode_utf8(t) =~= text@) by {
                            assert forall|i: int| 0 <= i < n implies encode_utf8(t)[i] == text@[i] by {
                                assert(field_bytes(t)[1 + i] == encode_utf8(t)[i]);
                                assert(b@.subrange(pos as int, pos + field_bytes(t).len())[1 + i] == field_bytes(t)[1 + i]);
                            }
                        }
                    }
                }
            }
            Err(TransferError::InvalidText)
        },
    }
}

/// Appends one text field; the caller has checked that it fits.
fn push_field(out: &mut Vec<u8>, s: &String)
    requires
        text_fits(s@),
    ensures
        final(out)@ == old(out)@ + field_bytes(s@),
{
    let bytes = s.as_str().as_bytes();
    out.push(bytes.len() as u8);
    let ghost mid = out@;
    let mut i: usize = 0;
    while i < bytes.len()
        invariant
            bytes@ == encode_utf8(s@),
            i <= bytes@.len(),
            out@ == mid + bytes@.subrange(0, i as int),
        decreases bytes@.len() - i,
    {
        out.push(bytes[i]);
        i += 1;
        assert(out@ =~= mid + bytes@.subrange(0, i as int));
    }
    assert(final(out)@ =~= old(out)@ + field_bytes(s@));
}

fn text_len_fits(s: &String) -> (r: bool)
    ensures
        r == text_fits(s@),
{
    s.as_str().as_bytes().len() <= 255
}

/// Encodes the header of a write; fails where a text field is longer than
/// 255 bytes.
pub fn encode_header(h: &TransferHeader) -> (r: Result<Vec<u8>, TransferError>)
    ensures
        r is Ok <==> h.fits(),
        r matches Ok(v) ==> v@ == h.header_bytes(),
        r matches Err(e) ==> e == TransferError::FieldTooLong,
{
    if !(text_len_fits(&h.album) && text_len_fits(&h.platform) && text_len_fits(&h.geocode)
        && text_len_fits(&h.band) && text_len_fits(&h.source) && text_len_fits(&h.tile)) {
        return Err(TransferError::FieldTooLong);
    }
    let mut out: Vec<u8> = Vec::new();
    out.push(OP_WRITE);
    push_field(&mut out, &h.album);
    push_field(&mut out, &h.platform);
    push_field(&mut out, &h.geocode);
    push_field(&mut out, &h.band);
    push_field(&mut out, &h.source);
    push_field(&mut out, &h.tile);
    out.push(h.subdataset_index);
    push_u64(&mut out, h.start_timestamp as u64);
    push_u64(&mut out, h.end_timestamp as u64);
    push_u64(&mut out, h.pixel_coverage);
    push_u64(&mut out, h.cloud_coverage);
    assert(out@ =~= h.header_bytes());
    Ok(out)
}

/// Where each part of `h` stands at its offset in `b`, so does the whole.
proof fn lemma_header_assembled(bs: Seq<u8>, h: TransferHeader)
    requires
        bs.len() > 0 && bs[0] == OP_WRITE,
        bytes_at(bs, 1, field_bytes(h.album@)),
        bytes_at(bs, h.off_platform(), field_bytes(h.platform@)),
        bytes_at(bs, h.off_geocode(), field_bytes(h.geocode@)),
        bytes_at(bs, h.off_band(), field_bytes(h.band@)),
        bytes_at(bs, h.off_source(), field_bytes(h.source@)),
        bytes_at(bs, h.off_tile(), field_bytes(h.tile@)),
        h.off_tail() + 33 <= bs.len(),
        bs[h.off_tail()] == h.subdataset_index,
        h.start_timestamp as u64 == be_value(bs, h.off_tail() + 1),
        h.end_timestamp as u64 == be_value(bs, h.off_tail() + 9),
        h.pixel_coverage == be_value(bs, h.off_tail() + 17),
        h.cloud_coverage == be_value(bs, h.off_tail() + 25),
    ensures
        bytes_at(bs, 0, h.header_bytes()),
{
    let at_tail = h.off_tail();
    lemma_be_bytes_of_value(bs, at_tail + 1);
    lemma_be_bytes_of_value(bs, at_tail + 9);
    lemma_be_bytes_of_value(bs, at_tail + 17);
    lemma_be_bytes_of_value(bs, at_tail + 25);
    let tl = h.tail_bytes();
    assert(tl =~= bs.subrange(at_tail, at_tail + 33));
    assert(bytes_at(bs, 0, seq![OP_WRITE])) by {
        assert(bs.subrange(0, 1) =~= seq![OP_WRITE]);
    }
    lemma_at_join(bs, 0, seq![OP_WRITE], field_bytes(h.album@));
    let a1 = seq![OP_WRITE] + field_bytes(h.album@);
    lemma_at_join(bs, 0, a1, field_bytes(h.platform@));
    let a2 = a1 + field_bytes(h.platform@);
    lemma_at_join(bs, 0, a2, field_bytes(h.geocode@));
    let a3 = a2 + field_bytes(h.geocode@);
    lemma_at_join(bs, 0, a3, field_bytes(h.band@));
    let a4 = a3 + field_bytes(h.band@);
    lemma_at_join(bs, 0, a4, field_bytes(h.source@));
    let a5 = a4 + field_bytes(h.source@);
    lemma_at_join(bs, 0, a5, field_bytes(h.tile@));
    let a6 = a5 + field_bytes(h.tile@);
    lemma_at_join(bs, 0, a6, tl);
    assert(a6 + tl =~= h.header_bytes());
}

/// Some well-formed header's encoding stands at the start of `b`.
pub open spec fn holds_header(b: Seq<u8>) -> bool {
    exists|h: TransferHeader| h.fits() && bytes_at(b, 0, h.header_bytes())
}

/// Decodes the header at the start of `b` and returns it with the offset at
/// which the raster payload begins.
#[verifier::rlimit(60)]
pub fn decode_header(b: &[u8]) -> (r: Result<(TransferHeader, usize), TransferError>)
    ensures
        r is Ok <==> holds_header(b@),
        r matches Ok((h, n)) ==> h.fits() && n == h.header_bytes().len() && bytes_at(
            b@,
            0,
            h.header_bytes(),
        ),
        forall|g: TransferHeader| #[trigger] g.fits() && bytes_at(b@, 0, g.header_bytes()) ==> (
        r matches Ok((h, n)) && h.same(&g)),
        b@.len() == 0 ==> r matches Err(TransferError::Truncated),
        b@.len() > 0 && b@[0] != OP_WRITE ==> r == Err::<(TransferHeader, usize), TransferError>(
            TransferError::UnsupportedOp(b@[0]),
        ),
        r matches Err(e) ==> e is Truncated || e is InvalidText || e is UnsupportedOp,
{
    let ghost found = holds_header(b@);
    let ghost g: TransferHeader = choose|h: TransferHeader| h.fits() && bytes_at(b@, 0, h.header_bytes());
    proof {
        if found {
            lemma_header_parts(b@, g);
        }
    }
    if b.len() == 0 {
        return Err(TransferError::Truncated);
    }
    if b[0] != OP_WRITE {
        return Err(TransferError::UnsupportedOp(b[0]));
    }
    let (album, at_platform) = match read_field(b, 1) {
        Ok(v) => v,
        Err(e) => { return Err(e); },
    };
    proof { if found { lemma_field_unique(b@, 1, album@, g.album@); } }
    let (platform, at_geocode) = match read_field(b, at_platform) {
        Ok(v) => v,
        Err(e) => { return Err(e); },
    };
    proof { if found { lemma_field_unique(b@, at_platform as int, platform@, g.platform@); } }
    let (geocode, at_band) = match read_field(b, at_geocode) {
        Ok(v) => v,
        Err(e) => { return Err(e); },
    };
    proof { if found { lemma_field_unique(b@, at_geocode as int, geocode@, g.geocode@); } }
    let (band, at_source) = match read_field(b, at_band) {
        Ok(v) => v,
        Err(e) => { return Err(e); },
    };
    proof { if found { lemma_field_unique(b@, at_band as int, band@, g.band@); } }
    let (source, at_tile) = match read_field(b, at_source) {
        Ok(v) => v,
        Err(e) => { return Err(e); },
    };
    proof { if found { lemma_field_unique(b@, at_source as int, source@, g.source@); } }
    let (tile, at_tail) = match read_field(b, at_tile) {
        Ok(v) => v,
        Err(e) => { return Err(e); },
    };
    proof {
        if found {
            lemma_field_unique(b@, at_tile as int, tile@, g.tile@);
            lemma_tail_values(b@, at_tail as int, g);
        }
    }
    if at_tail > b.len() || b.len() - at_tail < 33 {
        return Err(TransferError::Truncated);
    }
    let start = read_u64(b, at_tail + 1);
    let end = read_u64(b, at_tail + 9);
    let h = TransferHeader {
        album,
        platform,
        geocode,
        band,
        source,
        tile,
        subdataset_index: b[at_tail],
        start_timestamp: start as i64,
        end_timestamp: end as i64,
        pixel_coverage: read_u64(b, at_tail + 17),
        cloud_coverage: read_u64(b, at_tail + 25),
    };
    proof {
        lemma_u64_bits(start);
        lemma_u64_bits(end);
        lemma_header_assembled(b@, h);
        assert forall|g2: TransferHeader| #[trigger] g2.fits() && bytes_at(b@, 0, g2.header_bytes()) implies h.same(&g2) by {
            lemma_header_unique(b@, h, g2);
        }
        assert(h.fits());
        assert(h.fits() && bytes_at(b@, 0, h.header_bytes()));
        assert(holds_header(b@));
    }
    Ok((h, at_tail + 33))
}

} // verus!
