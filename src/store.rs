//! The on-disk image store: where the files of each tile live, and which stored
//! tiles a search admits.
use vstd::prelude::*;
use vstd::string::StringExecFns;
use vstd::utf8::encode_utf8;
use crate::geocode::{float_ge, is_prefix, is_zero, is_zero_bits, coverage_ge, starts_with};
use crate::sidecar::{SidecarRecord, encode_sidecar, sidecar_bytes};
use crate::transfer::{OP_WRITE, TransferError, TransferHeader, decode_header, holds_header, bytes_at};

verus! {

/// One stored tile as a search reports it. Coverages are IEEE-754 binary64
/// bit patterns; a NaN cloud coverage means unknown.
#[derive(Clone, Debug)]
pub struct ImageMetadata {
    pub band: String,
    pub coverage: u64,
    pub cloud_coverage: u64,
    pub dataset: String,
    pub end_date: i64,
    pub geohash: String,
    pub path: String,
    pub platform: String,
    pub start_date: i64,
}

/// Constraints of a search; `None` constrains nothing.
#[derive(Clone, Debug)]
pub struct SearchFilter {
    pub band: Option<String>,
    pub end_timestamp: Option<i64>,
    pub geocode: Option<String>,
    pub max_cloud_coverage: Option<u64>,
    pub min_pixel_coverage: Option<u64>,
    pub platform: Option<String>,
    /// Whether `geocode` admits every geocode that it is a prefix of, rather
    /// than only itself.
    pub recurse: bool,
    pub source: Option<String>,
    pub start_timestamp: Option<i64>,
}

/// An optional text constraint admits `v`.
pub open spec fn text_admits(f: Option<String>, v: Seq<char>) -> bool {
    match f {
        None => true,
        Some(x) => x@ == v,
    }
}

fn text_matches(f: &Option<String>, v: &String) -> (r: bool)
    ensures
        r == text_admits(*f, v@),
{
    match f {
        None => true,
        Some(x) => x.eq(v),
    }
}

impl SearchFilter {
    /// The geocode constraint admits `g`.
    pub open spec fn geocode_admits(&self, g: Seq<char>) -> bool {
        match self.geocode {
            None => true,
            Some(x) => if self.recurse {
                is_prefix(encode_utf8(x@), encode_utf8(g))
            } else {
                x@ == g
            },
        }
    }

    /// Every constraint of the filter admits `m`.
    pub open spec fn admits(&self, m: &ImageMetadata) -> bool {
        &&& text_admits(self.platform, m.platform@)
        &&& self.geocode_admits(m.geohash@)
        &&& text_admits(self.band, m.band@)
        &&& text_admits(self.source, m.dataset@)
        &&& (self.start_timestamp matches Some(t) ==> m.start_date >= t)
        &&& (self.end_timestamp matches Some(t) ==> m.end_date <= t)
        &&& (self.min_pixel_coverage matches Some(c) ==> float_ge(m.coverage, c))
        &&& (self.max_cloud_coverage matches Some(c) ==> float_ge(c, m.cloud_coverage))
    }

    /// Whether every constraint of the filter admits `m`.
    pub fn matches(&self, m: &ImageMetadata) -> (r: bool)
        ensures
            r == self.admits(m),
    {
        if !text_matches(&self.platform, &m.platform) || !text_matches(&self.band, &m.band)
            || !text_matches(&self.source, &m.dataset) {
            return false;
        }
        let geocode_ok = match &self.geocode {
            None => true,
            Some(x) => if self.recurse {
                starts_with(m.geohash.as_str(), x.as_str())
            } else {
                x.eq(&m.geohash)
            },
        };
        if !geocode_ok {
            return false;
        }
        let start_ok = match self.start_timestamp {
            None => true,
            Some(t) => m.start_date >= t,
        };
        let end_ok = match self.end_timestamp {
            None => true,
            Some(t) => m.end_date <= t,
        };
        let pixel_ok = match self.min_pixel_coverage {
            None => true,
            Some(c) => coverage_ge(m.coverage, c),
        };
        let cloud_ok = match self.max_cloud_coverage {
            None => true,
            Some(c) => coverage_ge(c, m.cloud_coverage),
        };
        start_ok && end_ok && pixel_ok && cloud_ok
    }
}

/// The store rooted at a directory.
pub struct ImageManager {
    pub directory: String,
}

impl ImageManager {
    pub fn new(directory: String) -> (r: ImageManager)
        ensures
            r.directory@ == directory@,
    {
        ImageManager { directory }
    }

    /// The raster file of a tile: `<dir>/<tile>-<subdataset>.tif`.
    pub open spec fn raster_path_of(&self, h: &TransferHeader) -> Seq<char> {
        self.tile_dir_of(h.album@, h.platform@, h.geocode@, h.band@, h.source@) + seq!['/'] + h.tile@
            + seq!['-'] + decimal_chars(h.subdataset_index as nat) + seq!['.', 't', 'i', 'f']
    }

    /// The sidecar file of a tile: `<dir>/<tile>-<subdataset>.meta`.
    pub open spec fn sidecar_path_of(&self, h: &TransferHeader) -> Seq<char> {
        self.tile_dir_of(h.album@, h.platform@, h.geocode@, h.band@, h.source@) + seq!['/'] + h.tile@
            + seq!['-'] + decimal_chars(h.subdataset_index as nat) + seq!['.', 'm', 'e', 't', 'a']
    }

    /// Path of the files of a tile, without extension.
    fn tile_stem(&self, h: &TransferHeader) -> (r: String)
        ensures
            r@ == self.tile_dir_of(h.album@, h.platform@, h.geocode@, h.band@, h.source@) + seq!['/']
                + h.tile@ + seq!['-'] + decimal_chars(h.subdataset_index as nat),
    {
        let mut p = self.tile_dir(
            h.album.as_str(),
            h.platform.as_str(),
            h.geocode.as_str(),
            h.band.as_str(),
            h.source.as_str(),
        );
        let d = decimal(h.subdataset_index);
        p.append("/");
        p.append(h.tile.as_str());
        p.append("-");
        p.append(d.as_str());
        proof {
            reveal_strlit("/");
            reveal_strlit("-");
        }
        assert(p@ =~= self.tile_dir_of(h.album@, h.platform@, h.geocode@, h.band@, h.source@) + seq!['/']
            + h.tile@ + seq!['-'] + decimal_chars(h.subdataset_index as nat));
        p
    }

    /// The raster file of a tile.
    pub fn raster_path(&self, h: &TransferHeader) -> (r: String)
        ensures
            r@ == self.raster_path_of(h),
    {
        let mut p = self.tile_stem(h);
        p.append(".tif");
        proof {
            reveal_strlit(".tif");
        }
        assert(p@ =~= self.raster_path_of(h));
        p
    }

    /// The sidecar file of a tile.
    pub fn sidecar_path(&self, h: &TransferHeader) -> (r: String)
        ensures
            r@ == self.sidecar_path_of(h),
    {
        let mut p = self.tile_stem(h);
        p.append(".meta");
        proof {
            reveal_strlit(".meta");
        }
        assert(p@ =~= self.sidecar_path_of(h));
        p
    }

    /// A path component that matches `f`'s value, or anything where it is
    /// unset.
    pub open spec fn component_pattern(f: Option<String>) -> Seq<char> {
        match f {
            None => seq!['*'],
            Some(x) => x@,
        }
    }

    /// The glob pattern of the sidecars that a search of `album` reads: each
    /// set text constraint fixes its directory level, an unset one matches
    /// any, and a recursive geocode constraint matches any longer geocode.
    pub open spec fn search_pattern_of(&self, album: Seq<char>, f: &SearchFilter) -> Seq<char> {
        let sep = seq!['/'];
        let geocode = match f.geocode {
            None => seq!['*'],
            Some(g) => if f.recurse {
                g@ + seq!['*']
            } else {
                g@
            },
        };
        self.directory@ + sep + album + sep + Self::component_pattern(f.platform) + sep + geocode + sep
            + Self::component_pattern(f.band) + sep + Self::component_pattern(f.source) + sep + seq![
            '*',
            '.',
            'm',
            'e',
            't',
            'a',
        ]
    }

    fn push_component(p: &mut String, f: &Option<String>)
        ensures
            final(p)@ == old(p)@ + Self::component_pattern(*f),
    {
        match f {
            None => {
                p.append("*");
                proof {
                    reveal_strlit("*");
                }
            },
            Some(x) => p.append(x.as_str()),
        }
    }

    /// The glob pattern of the sidecars that a search of `album` reads.
    pub fn search_pattern(&self, album: &str, f: &SearchFilter) -> (r: String)
        ensures
            r@ == self.search_pattern_of(album@, f),
    {
        let mut p = self.directory.clone();
        p.append("/");
        p.append(album);
        p.append("/");
        Self::push_component(&mut p, &f.platform);
        p.append("/");
        match &f.geocode {
            None => p.append("*"),
            Some(g) => {
                p.append(g.as_str());
                if f.recurse {
                    p.append("*");
                }
            },
        }
        p.append("/");
        Self::push_component(&mut p, &f.band);
        p.append("/");
        Self::push_component(&mut p, &f.source);
        p.append("/*.meta");
        proof {
            reveal_strlit("/");
            reveal_strlit("*");
            reveal_strlit("/*.meta");
        }
        assert(p@ =~= self.search_pattern_of(album@, f));
        p
    }

    /// The directory that holds the tiles of one
    /// `(album, platform, geocode, band, source)`.
    pub open spec fn tile_dir_of(
        &self,
        album: Seq<char>,
        platform: Seq<char>,
        geocode: Seq<char>,
        band: Seq<char>,
        source: Seq<char>,
    ) -> Seq<char> {
        let sep = seq!['/'];
        self.directory@ + sep + album + sep + platform + sep + geocode + sep + band + sep + source
    }

    /// `<root>/<album>/<platform>/<geocode>/<band>/<source>`.
    pub fn tile_dir(
        &self,
        album: &str,
        platform: &str,
        geocode: &str,
        band: &str,
        source: &str,
    ) -> (r: String)
        ensures
            r@ == self.tile_dir_of(album@, platform@, geocode@, band@, source@),
    {
        let mut p = self.directory.clone();
        p.append("/");
        p.append(album);
        p.append("/");
        p.append(platform);
        p.append("/");
        p.append(geocode);
        p.append("/");
        p.append(band);
        p.append("/");
        p.append(source);
        proof {
            reveal_strlit("/");
        }
        assert(p@ =~= self.tile_dir_of(album@, platform@, geocode@, band@, source@));
        p
    }
}

/// The character of a decimal digit below ten.
pub open spec fn digit_char(d: nat) -> char {
    seq!['0', '1', '2', '3', '4', '5', '6', '7', '8', '9'][d as int]
}

/// The decimal digits of `n`, without leading zeros.
pub open spec fn decimal_chars(n: nat) -> Seq<char>
    decreases n,
{
    if n < 10 {
        seq![digit_char(n)]
    } else {
        decimal_chars(n / 10) + seq![digit_char(n % 10)]
    }
}

fn digit_str(d: u8) -> (r: String)
    requires
        d < 10,
    ensures
        r@ == seq![digit_char(d as nat)],
{
    proof {
        reveal_strlit("0");
        reveal_strlit("1");
        reveal_strlit("2");
        reveal_strlit("3");
        reveal_strlit("4");
        reveal_strlit("5");
        reveal_strlit("6");
        reveal_strlit("7");
        reveal_strlit("8");
        reveal_strlit("9");
    }
    let t = match d {
        0 => "0",
        1 => "1",
        2 => "2",
        3 => "3",
        4 => "4",
        5 => "5",
        6 => "6",
        7 => "7",
        8 => "8",
        _ => "9",
    };
    String::from_str(t)
}

/// The decimal text of `n`.
pub fn decimal(n: u8) -> (r: String)
    ensures
        r@ == decimal_chars(n as nat),
{
    let mut s = String::new();
    if n >= 100 {
        s.append(digit_str(n / 100).as_str());
        s.append(digit_str((n / 10) % 10).as_str());
        assert(decimal_chars((n / 100) as nat) == seq![digit_char((n / 100) as nat)]);
        assert((n / 10) / 10 == n / 100);
        assert(decimal_chars((n / 10) as nat) == decimal_chars((n / 100) as nat) + seq![digit_char(((n / 10) % 10) as nat)]);
    } else if n >= 10 {
        s.append(digit_str(n / 10).as_str());
        assert(decimal_chars((n / 10) as nat) == seq![digit_char((n / 10) as nat)]);
    }
    s.append(digit_str(n % 10).as_str());
    assert(s@ =~= decimal_chars(n as nat));
    s
}

/// What the receiver of a pushed tile writes: the raster from `payload_start`
/// on goes to `raster_path`, `sidecar` to `sidecar_path`.
pub struct WritePlan {
    pub header: TransferHeader,
    pub raster_path: String,
    pub sidecar_path: String,
    pub sidecar: Vec<u8>,
    pub payload_start: usize,
}

/// The sidecar record that a header carries.
pub open spec fn record_of(h: &TransferHeader) -> SidecarRecord {
    SidecarRecord {
        start_timestamp: h.start_timestamp,
        end_timestamp: h.end_timestamp,
        pixel_coverage: h.pixel_coverage,
        cloud_coverage: h.cloud_coverage,
    }
}

/// Receives pushed tiles into an image store.
pub struct TransferStreamHandler {
    pub image_manager: ImageManager,
}

impl TransferStreamHandler {
    pub fn new(image_manager: ImageManager) -> (r: TransferStreamHandler)
        ensures
            r.image_manager == image_manager,
    {
        TransferStreamHandler { image_manager }
    }

    /// Decodes the header at the start of `stream` and says which files the
    /// tile goes to and what its sidecar holds. A tile without data is refused.
    pub fn process(&self, stream: &[u8]) -> (r: Result<WritePlan, TransferError>)
        ensures
            !holds_header(stream@) ==> r is Err,
            forall|g: TransferHeader| #[trigger] g.fits() && bytes_at(stream@, 0, g.header_bytes()) ==> (
            r is Ok <==> !is_zero_bits(g.pixel_coverage)),
            r matches Ok(p) ==> !is_zero_bits(p.header.pixel_coverage),
            r matches Err(e) ==> holds_header(stream@) ==> e == TransferError::EmptyTile,
            r matches Ok(p) ==> p.header.fits() && bytes_at(stream@, 0, p.header.header_bytes())
                && p.payload_start == p.header.header_bytes().len()
                && p.raster_path@ == self.image_manager.raster_path_of(&p.header)
                && p.sidecar_path@ == self.image_manager.sidecar_path_of(&p.header)
                && p.sidecar@ == sidecar_bytes(record_of(&p.header)),
            stream@.len() == 0 ==> r matches Err(TransferError::Truncated),
            stream@.len() > 0 && stream@[0] != OP_WRITE ==> (r matches Err(
                TransferError::UnsupportedOp(op),
            ) && op == stream@[0]),
    {
        match decode_header(stream) {
            Err(e) => Err(e),
            Ok((h, n)) => {
                if is_zero(h.pixel_coverage) {
                    return Err(TransferError::EmptyTile);
                }
                let rec = SidecarRecord {
                    start_timestamp: h.start_timestamp,
                    end_timestamp: h.end_timestamp,
                    pixel_coverage: h.pixel_coverage,
                    cloud_coverage: h.cloud_coverage,
                };
                let sidecar = encode_sidecar(&rec);
                let raster_path = self.image_manager.raster_path(&h);
                let sidecar_path = self.image_manager.sidecar_path(&h);
                Ok(WritePlan { header: h, raster_path, sidecar_path, sidecar, payload_start: n })
            },
        }
    }
}

/// The two headers name the same tile of the same album.
pub open spec fn same_tile(a: &TransferHeader, b: &TransferHeader) -> bool {
    &&& a.album@ == b.album@
    &&& a.platform@ == b.platform@
    &&& a.geocode@ == b.geocode@
    &&& a.band@ == b.band@
    &&& a.source@ == b.source@
    &&& a.tile@ == b.tile@
    &&& a.subdataset_index == b.subdataset_index
}

/// Files of a store, by path, after a tile with header `h` and raster bytes
/// `raster` has been received: both of its files are written over.
pub open spec fn stored_after(
    files: Map<Seq<char>, Seq<u8>>,
    m: ImageManager,
    h: TransferHeader,
    raster: Seq<u8>,
) -> Map<Seq<char>, Seq<u8>> {
    files.insert(m.raster_path_of(&h), raster).insert(m.sidecar_path_of(&h), sidecar_bytes(record_of(&h)))
}

/// Receiving the same tile twice leaves the files that receiving only the
/// second copy leaves: one raster and one sidecar, holding the second copy.
pub proof fn lemma_repeat_transfer(
    files: Map<Seq<char>, Seq<u8>>,
    m: ImageManager,
    h1: TransferHeader,
    r1: Seq<u8>,
    h2: TransferHeader,
    r2: Seq<u8>,
)
    requires
        same_tile(&h1, &h2),
    ensures
        m.raster_path_of(&h1) == m.raster_path_of(&h2),
        m.sidecar_path_of(&h1) == m.sidecar_path_of(&h2),
        stored_after(stored_after(files, m, h1, r1), m, h2, r2) == stored_after(files, m, h2, r2),
{
    let a = stored_after(stored_after(files, m, h1, r1), m, h2, r2);
    let b = stored_after(files, m, h2, r2);
    assert(a =~= b);
}

} // verus!
