//! What the load and split workers do with each raster window: drop it, skip
//! it, or push it to the node that owns its geocode.
use vstd::prelude::*;
use vstd::string::StringSliceAdditionalSpecFns;
use vstd::utf8::encode_utf8;
use crate::dht::{Dht, is_owner, placement_key, placement_key_of};
use crate::geocode::{is_prefix, is_zero, is_zero_bits, starts_with};
use crate::store::{ImageMetadata, text_admits};

verus! {

/// The fate of one window.
pub enum TileRoute {
    /// The window lies outside the geocode of the image it was split from.
    OutsideSource,
    /// No pixel of the window holds data.
    Empty,
    /// The ring is empty: nobody owns the window.
    Unrouted,
    /// The owner has no transfer address.
    NoTransferAddress { node_id: u16 },
    /// Push the window to entry `owner` of the ring.
    Send { owner: usize, node_id: u16, xfer_addr: String },
}

/// Where a window with geocode `geocode` and pixel coverage `coverage` (an
/// IEEE-754 bit pattern) goes. Windows without data are dropped; otherwise the
/// owner of the geocode's ring position receives it.
pub fn route_tile(dht: &Dht, key_length: usize, geocode: &str, coverage: u64) -> (r: TileRoute)
    ensures
        is_zero_bits(coverage) <==> r is Empty,
        !(r is OutsideSource),
        r is Send ==> !is_zero_bits(coverage),
        r is Unrouted <==> !is_zero_bits(coverage) && dht.entries@.len() == 0,
        r matches TileRoute::NoTransferAddress { node_id } ==> exists|i: int|
            is_owner(dht.entries@, placement_key_of(geocode.spec_bytes(), key_length as nat), i)
                && dht.entries@[i].node_id == node_id && dht.entries@[i].xfer_addr is None,
        r matches TileRoute::Send { owner, node_id, xfer_addr } ==> is_owner(
            dht.entries@,
            placement_key_of(geocode.spec_bytes(), key_length as nat),
            owner as int,
        ) && dht.entries@[owner as int].node_id == node_id && dht.entries@[owner as int].xfer_addr
            == Some(xfer_addr),
        !is_zero_bits(coverage) && dht.entries@.len() > 0 ==> (r is Send || r is NoTransferAddress),
{
    if is_zero(coverage) {
        return TileRoute::Empty;
    }
    let key = placement_key(geocode, key_length);
    match dht.locate(key) {
        None => TileRoute::Unrouted,
        Some(i) => {
            let e = &dht.entries[i];
            match &e.xfer_addr {
                None => TileRoute::NoTransferAddress { node_id: e.node_id },
                Some(a) => TileRoute::Send { owner: i, node_id: e.node_id, xfer_addr: a.clone() },
            }
        },
    }
}

/// Where a window split out of an image with geocode `source_geocode` goes: a
/// window whose geocode does not begin with the image's is discarded, the rest
/// are routed as `route_tile` routes them.
pub fn route_split_window(
    dht: &Dht,
    key_length: usize,
    source_geocode: &str,
    geocode: &str,
    coverage: u64,
) -> (r: TileRoute)
    ensures
        !is_prefix(source_geocode.spec_bytes(), geocode.spec_bytes()) <==> r is OutsideSource,
        r is Send ==> is_prefix(source_geocode.spec_bytes(), geocode.spec_bytes()) && !is_zero_bits(
            coverage,
        ),
        r is Empty <==> is_prefix(source_geocode.spec_bytes(), geocode.spec_bytes())
            && is_zero_bits(coverage),
        r is Unrouted <==> is_prefix(source_geocode.spec_bytes(), geocode.spec_bytes())
            && !is_zero_bits(coverage) && dht.entries@.len() == 0,
        r matches TileRoute::NoTransferAddress { node_id } ==> exists|i: int|
            is_owner(dht.entries@, placement_key_of(geocode.spec_bytes(), key_length as nat), i)
                && dht.entries@[i].node_id == node_id && dht.entries@[i].xfer_addr is None,
        r matches TileRoute::Send { owner, node_id, xfer_addr } ==> is_owner(
            dht.entries@,
            placement_key_of(geocode.spec_bytes(), key_length as nat),
            owner as int,
        ) && dht.entries@[owner as int].node_id == node_id && dht.entries@[owner as int].xfer_addr
            == Some(xfer_addr),
        is_prefix(source_geocode.spec_bytes(), geocode.spec_bytes()) && !is_zero_bits(coverage)
            && dht.entries@.len() > 0 ==> (r is Send || r is NoTransferAddress),
{
    if !starts_with(geocode, source_geocode) {
        return TileRoute::OutsideSource;
    }
    route_tile(dht, key_length, geocode, coverage)
}

/// The geocode scheme of an album.
#[derive(Clone, Copy, Debug, PartialEq, Eq, Structural)]
pub enum Geocode {
    Geohash,
    QuadTile,
}

/// Provenance tag of raw images.
pub const RAW_SOURCE: &'static str = "raw";
/// Provenance tag of split images.
pub const SPLIT_SOURCE: &'static str = "split";
/// Provenance tag of filled images.
pub const FILLED_SOURCE: &'static str = "filled";

/// A job that splits local raw images into finer geocodes.
pub struct SplitTask {
    pub album: String,
    pub dht_key_length: i8,
    pub end_timestamp: Option<i64>,
    pub geocode: Option<String>,
    pub geocode_algorithm: Geocode,
    pub geocode_bound: Option<String>,
    pub platform: Option<String>,
    pub precision: usize,
    pub recurse: bool,
    pub start_timestamp: Option<i64>,
    pub thread_count: u8,
}

impl SplitTask {
    pub fn new(
        album: String,
        dht_key_length: i8,
        end_timestamp: Option<i64>,
        geocode: Option<String>,
        geocode_algorithm: Geocode,
        geocode_bound: Option<String>,
        platform: Option<String>,
        precision: usize,
        recurse: bool,
        start_timestamp: Option<i64>,
        thread_count: u8,
    ) -> (r: SplitTask)
        ensures
            r.album == album,
            r.dht_key_length == dht_key_length,
            r.end_timestamp == end_timestamp,
            r.geocode == geocode,
            r.geocode_algorithm == geocode_algorithm,
            r.geocode_bound == geocode_bound,
            r.platform == platform,
            r.precision == precision,
            r.recurse == recurse,
            r.start_timestamp == start_timestamp,
            r.thread_count == thread_count,
    {
        SplitTask {
            album,
            dht_key_length,
            end_timestamp,
            geocode,
            geocode_algorithm,
            geocode_bound,
            platform,
            precision,
            recurse,
            start_timestamp,
            thread_count,
        }
    }

    /// Number of leading geocode bytes that route a tile; a negative album
    /// setting routes on none.
    pub open spec fn key_length_of(&self) -> nat {
        if self.dht_key_length < 0 {
            0
        } else {
            self.dht_key_length as nat
        }
    }

    pub fn key_length(&self) -> (r: usize)
        ensures
            r == self.key_length_of(),
    {
        if self.dht_key_length < 0 {
            0
        } else {
            self.dht_key_length as usize
        }
    }

    /// The task takes `m` as input: a raw image coarser than the target
    /// precision that meets the task's filters and overlaps its bound.
    pub open spec fn selects_spec(&self, m: &ImageMetadata) -> bool {
        let g = encode_utf8(m.geohash@);
        &&& m.dataset@ == seq!['r', 'a', 'w']
        &&& g.len() < self.precision
        &&& text_admits(self.platform, m.platform@)
        &&& (self.geocode matches Some(x) ==> if self.recurse {
            is_prefix(encode_utf8(x@), g)
        } else {
            x@ == m.geohash@
        })
        &&& (self.start_timestamp matches Some(t) ==> m.start_date >= t)
        &&& (self.end_timestamp matches Some(t) ==> m.end_date <= t)
        &&& (self.geocode_bound matches Some(b) ==> is_prefix(encode_utf8(b@), g) || is_prefix(
            g,
            encode_utf8(b@),
        ))
    }

    /// Whether the task takes `m` as input.
    pub fn selects(&self, m: &ImageMetadata) -> (r: bool)
        ensures
            r == self.selects_spec(m),
    {
        let raw = String::from_str("raw");
        proof {
            reveal_strlit("raw");
            assert(raw@ =~= seq!['r', 'a', 'w']);
        }
        if !m.dataset.eq(&raw) || m.geohash.as_str().as_bytes().len() >= self.precision {
            return false;
        }
        let platform_ok = match &self.platform {
            None => true,
            Some(p) => p.eq(&m.platform),
        };
        let geocode_ok = match &self.geocode {
            None => true,
            Some(x) => if self.recurse {
                starts_with(m.geohash.as_str(), x.as_str())
            } else {
                x.eq(&m.geohash)
            },
        };
        let start_ok = match self.start_timestamp {
            None => true,
            Some(t) => m.start_date >= t,
        };
        let end_ok = match self.end_timestamp {
            None => true,
            Some(t) => m.end_date <= t,
        };
        let bound_ok = match &self.geocode_bound {
            None => true,
            Some(b) => starts_with(m.geohash.as_str(), b.as_str()) || starts_with(
                b.as_str(),
                m.geohash.as_str(),
            ),
        };
        platform_ok && geocode_ok && start_ok && end_ok && bound_ok
    }
}

} // verus!
