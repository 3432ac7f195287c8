//! Reading what a Sentinel-2 archive says of itself: which entry holds its
//! metadata, when it was taken, and which subdatasets it offers.
use vstd::prelude::*;
use vstd::utf8::{encode_utf8, valid_utf8};
use vstd::string::StringSliceAdditionalSpecFns;
use crate::transfer::text_from_utf8;

verus! {

#[derive(Clone, Copy, Debug, PartialEq, Eq, Structural)]
pub enum LoadError {
    /// The archive has no product metadata entry.
    MetadataNotFound,
    /// The product metadata has no start time.
    StartTimeMissing,
    /// The start time is not an RFC 3339 date and time.
    InvalidStartTime,
    /// A subdataset line has no `=`, or its value is not text.
    MalformedSubdataset,
}

/// File name of the product metadata inside an archive.
pub const METADATA_FILE_NAME: &'static str = "MTD_MSIL1C.xml";

/// Seconds since the epoch of a (relaxed) RFC 3339 date and time, as chrono
/// reads it; none where the text is not one.
pub uninterp spec fn rfc3339_seconds(s: Seq<char>) -> Option<i64>;

/// Relies on chrono's `FromStr` for `DateTime<Utc>` and `timestamp`: the
/// result depends on the text alone.
#[verifier::external_body]
fn parse_utc_seconds(s: &str) -> (r: Option<i64>)
    ensures
        r == rfc3339_seconds(s@),
{
    s.parse::<chrono::DateTime<chrono::Utc>>().ok().map(|t| t.timestamp())
}

/// Capture time of an archive from its product start time entry, if any.
pub fn archive_timestamp(start_time: Option<&str>) -> (r: Result<i64, LoadError>)
    ensures
        start_time is None ==> r == Err::<i64, LoadError>(LoadError::StartTimeMissing),
        start_time matches Some(s) ==> r == match rfc3339_seconds(s@) {
            Some(t) => Ok::<i64, LoadError>(t),
            None => Err(LoadError::InvalidStartTime),
        },
{
    match start_time {
        None => Err(LoadError::StartTimeMissing),
        Some(s) => match parse_utc_seconds(s) {
            Some(t) => Ok(t),
            None => Err(LoadError::InvalidStartTime),
        },
    }
}

/// `s` ends with the bytes of `t`.
pub open spec fn ends_with(s: Seq<u8>, t: Seq<u8>) -> bool {
    t.len() <= s.len() && s.subrange(s.len() - t.len(), s.len() as int) == t
}

/// The last `/`-separated component of the entry name is `file`.
pub open spec fn names_file(name: Seq<u8>, file: Seq<u8>) -> bool {
    name == file || ends_with(name, seq![0x2fu8] + file)
}

fn ends_with_bytes(s: &[u8], t: &[u8]) -> (r: bool)
    ensures
        r == ends_with(s@, t@),
{
    if t.len() > s.len() {
        return false;
    }
    let off = s.len() - t.len();
    let mut i: usize = 0;
    while i < t.len()
        invariant
            s@.len() <= usize::MAX,
            t@.len() <= s@.len(),
            off == s@.len() - t@.len(),
            i <= t@.len(),
            forall|j: int| 0 <= j < i ==> s@[off + j] == t@[j],
        decreases t@.len() - i,
    {
        if s[off + i] != t[i] {
            assert(s@.subrange(off as int, s@.len() as int)[i as int] != t@[i as int]);
            return false;
        }
        i += 1;
    }
    assert(s@.subrange(off as int, s@.len() as int) =~= t@);
    true
}

/// Index of the archive entry that holds the product metadata: the last one
/// whose file name is `MTD_MSIL1C.xml`.
pub fn find_metadata_entry(names: &Vec<String>) -> (r: Result<usize, LoadError>)
    ensures
        r is Err <==> forall|i: int| 0 <= i < names@.len() ==> !names_file(
            encode_utf8(names@[i]@),
            METADATA_FILE_NAME.spec_bytes(),
        ),
        r matches Err(e) ==> e == LoadError::MetadataNotFound,
        r matches Ok(i) ==> i < names@.len() && names_file(encode_utf8(names@[i as int]@), METADATA_FILE_NAME.spec_bytes())
            && forall|j: int| i < j < names@.len() ==> !names_file(
            encode_utf8(names@[j]@),
            METADATA_FILE_NAME.spec_bytes(),
        ),
{
    let file = METADATA_FILE_NAME.as_bytes();
    let mut slash_file: Vec<u8> = Vec::new();
    slash_file.push(0x2fu8);
    let mut k: usize = 0;
    while k < file.len()
        invariant
            k <= file@.len(),
            slash_file@ == seq![0x2fu8] + file@.subrange(0, k as int),
        decreases file@.len() - k,
    {
        slash_file.push(file[k]);
        k += 1;
        assert(slash_file@ =~= seq![0x2fu8] + file@.subrange(0, k as int));
    }
    assert(file@.subrange(0, file@.len() as int) =~= file@);
    let mut i: usize = names.len();
    while i > 0
        invariant
            i <= names@.len(),
            file@ == METADATA_FILE_NAME.spec_bytes(),
            slash_file@ == seq![0x2fu8] + file@,
            forall|j: int| i <= j < names@.len() ==> !names_file(encode_utf8(names@[j]@), file@),
        decreases i,
    {
        i -= 1;
        let name = names[i].as_str().as_bytes();
        let exact = name.len() == file.len() && ends_with_bytes(name, file);
        proof {
            if name@.len() == file@.len() {
                assert(name@.subrange(0, name@.len() as int) =~= name@);
            }
        }
        if exact || ends_with_bytes(name, slash_file.as_slice()) {
            return Ok(i);
        }
    }
    Err(LoadError::MetadataNotFound)
}

/// Index of the first `c` in `s`, or its length where there is none.
pub open spec fn index_of(s: Seq<u8>, c: u8) -> int
    decreases s.len(),
{
    if s.len() == 0 {
        0
    } else if s[0] == c {
        0
    } else {
        1 + index_of(s.drop_first(), c)
    }
}

proof fn lemma_index_of(s: Seq<u8>, c: u8, r: int)
    requires
        0 <= r <= s.len(),
        forall|j: int| 0 <= j < r ==> s[j] != c,
        r < s.len() ==> s[r] == c,
    ensures
        index_of(s, c) == r,
    decreases s.len(),
{
    if s.len() > 0 && r > 0 {
        lemma_index_of(s.drop_first(), c, r - 1);
    }
}

/// The value of a `KEY=VALUE` line: the bytes after the first `=` up to the
/// next `=` or the end; none where the line has no `=`.
pub open spec fn line_value(s: Seq<u8>) -> Option<Seq<u8>> {
    let a = index_of(s, 0x3du8);
    if a >= s.len() {
        None
    } else {
        let rest = s.subrange(a + 1, s.len() as int);
        Some(rest.subrange(0, index_of(rest, 0x3du8)))
    }
}

fn find_byte(b: &[u8], c: u8, from: usize) -> (r: usize)
    requires
        from <= b@.len(),
    ensures
        from <= r <= b@.len(),
        forall|j: int| from <= j < r ==> b@[j] != c,
        r < b@.len() ==> b@[r as int] == c,
{
    let mut i = from;
    while i < b.len()
        invariant
            from <= i <= b@.len(),
            forall|j: int| from <= j < i ==> b@[j] != c,
        decreases b@.len() - i,
    {
        if b[i] == c {
            return i;
        }
        i += 1;
    }
    i
}

/// The text value of a `KEY=VALUE` line.
fn value_text(line: &str) -> (r: Option<String>)
    ensures
        r is Some <==> (line_value(line.spec_bytes()) matches Some(v) && valid_utf8(v)),
        r matches Some(t) ==> line_value(line.spec_bytes()) == Some(encode_utf8(t@)),
{
    let b = line.as_bytes();
    let a = find_byte(b, 0x3du8, 0);
    proof {
        lemma_index_of(b@, 0x3du8, a as int);
    }
    if a >= b.len() {
        return None;
    }
    let e = find_byte(b, 0x3du8, a + 1);
    let v = &b[a + 1..e];
    proof {
        let rest = b@.subrange(a + 1, b@.len() as int);
        lemma_index_of(rest, 0x3du8, e - (a + 1));
        assert(v@ =~= rest.subrange(0, e - (a + 1)));
    }
    text_from_utf8(v)
}

/// One subdataset of an archive.
pub struct Subdataset {
    pub name: String,
    pub description: String,
}

/// The subdataset list of an archive's metadata: lines alternate between a
/// subdataset's name and its description, each a `KEY=VALUE` line; a last
/// line without a partner is ignored.
pub fn parse_subdatasets(metadata: &Vec<String>) -> (r: Result<Vec<Subdataset>, LoadError>)
    ensures
        r is Ok <==> forall|j: int| 0 <= j < 2 * (metadata@.len() / 2) ==> (line_value(
            encode_utf8(#[trigger] metadata@[j]@),
        ) matches Some(v) && valid_utf8(v)),
        r matches Err(e) ==> e == LoadError::MalformedSubdataset,
        r matches Ok(v) ==> v@.len() == metadata@.len() / 2 && forall|i: int| 0 <= i < v@.len() ==> (
        line_value(encode_utf8(metadata@[2 * i]@)) == Some(encode_utf8(#[trigger] v@[i].name@))
            && line_value(encode_utf8(metadata@[2 * i + 1]@)) == Some(encode_utf8(v@[i].description@))),
{
    let mut out: Vec<Subdataset> = Vec::new();
    let mut count: usize = 0;
    let n = metadata.len();
    while count + 1 < n
        invariant
            n == metadata@.len(),
            count % 2 == 0,
            count <= n,
            out@.len() == count / 2,
            forall|j: int| 0 <= j < count ==> (line_value(encode_utf8(#[trigger] metadata@[j]@)) matches Some(
                v,
            ) && valid_utf8(v)),
            forall|i: int| 0 <= i < out@.len() ==> (line_value(encode_utf8(metadata@[2 * i]@)) == Some(
                encode_utf8(#[trigger] out@[i].name@),
            ) && line_value(encode_utf8(metadata@[2 * i + 1]@)) == Some(encode_utf8(out@[i].description@))),
        decreases n - count,
    {
        let name = match value_text(metadata[count].as_str()) {
            Some(t) => t,
            None => {
                return Err(LoadError::MalformedSubdataset);
            },
        };
        let description = match value_text(metadata[count + 1].as_str()) {
            Some(t) => t,
            None => {
                return Err(LoadError::MalformedSubdataset);
            },
        };
        out.push(Subdataset { name, description });
        count += 2;
    }
    assert(count == 2 * (n / 2));
    Ok(out)
}

} // verus!
