//! Search extents: per-key counts of stored tiles, summed across the cluster.
use vstd::prelude::*;
use vstd::utf8::*;
use crate::store::{ImageMetadata, SearchFilter};

verus! {

broadcast use {encode_utf8_decode_utf8};

/// Number of tiles that share `(platform, geocode, band, source, precision)`;
/// the precision is the byte length of the geocode.
#[derive(Clone, Debug)]
pub struct Extent {
    pub platform: String,
    pub geocode: String,
    pub band: String,
    pub source: String,
    pub precision: usize,
    pub count: u64,
}

/// The key of an extent, over the texts' characters.
pub type ExtentKey = (Seq<char>, Seq<char>, Seq<char>, Seq<char>, nat);

pub open spec fn key_of(e: Extent) -> ExtentKey {
    (e.platform@, e.geocode@, e.band@, e.source@, e.precision as nat)
}

/// The key under which a stored tile is counted.
pub open spec fn image_key(m: ImageMetadata) -> ExtentKey {
    (m.platform@, m.geohash@, m.band@, m.dataset@, encode_utf8(m.geohash@).len())
}

/// Sum of the counts of the extents of `s` with key `k`.
pub open spec fn total(s: Seq<Extent>, k: ExtentKey) -> int
    decreases s.len(),
{
    if s.len() == 0 {
        0
    } else {
        total(s.drop_last(), k) + if key_of(s.last()) == k {
            s.last().count as int
        } else {
            0
        }
    }
}

/// No two extents of `s` share a key.
pub open spec fn keys_unique(s: Seq<Extent>) -> bool {
    forall|i: int, j: int| 0 <= i < s.len() && 0 <= j < s.len() && i != j ==> key_of(s[i]) != key_of(s[j])
}

/// Number of tiles of `s` that `f` admits with key `k`.
pub open spec fn admitted_count(s: Seq<ImageMetadata>, f: SearchFilter, k: ExtentKey) -> int
    decreases s.len(),
{
    if s.len() == 0 {
        0
    } else {
        admitted_count(s.drop_last(), f, k) + if f.admits(&s.last()) && image_key(s.last()) == k {
            1int
        } else {
            0
        }
    }
}

/// Sum over the nodes' extent lists of their totals for `k`.
pub open spec fn cluster_total(parts: Seq<Vec<Extent>>, k: ExtentKey) -> int
    decreases parts.len(),
{
    if parts.len() == 0 {
        0
    } else {
        cluster_total(parts.drop_last(), k) + total(parts.last()@, k)
    }
}

proof fn lemma_total_nonneg(s: Seq<Extent>, k: ExtentKey)
    ensures
        total(s, k) >= 0,
    decreases s.len(),
{
    if s.len() > 0 {
        lemma_total_nonneg(s.drop_last(), k);
    }
}

proof fn lemma_total_update(s: Seq<Extent>, i: int, x: Extent, k: ExtentKey)
    requires
        0 <= i < s.len(),
    ensures
        total(s.update(i, x), k) == total(s, k) - (if key_of(s[i]) == k { s[i].count as int } else { 0 })
            + (if key_of(x) == k { x.count as int } else { 0 }),
    decreases s.len(),
{
    let u = s.update(i, x);
    if i == s.len() - 1 {
        assert(u.drop_last() =~= s.drop_last());
    } else {
        assert(u.drop_last() =~= s.drop_last().update(i, x));
        lemma_total_update(s.drop_last(), i, x, k);
    }
}

proof fn lemma_total_unique(s: Seq<Extent>, i: int, k: ExtentKey)
    requires
        keys_unique(s),
        0 <= i < s.len(),
        key_of(s[i]) == k,
    ensures
        total(s, k) == s[i].count,
    decreases s.len(),
{
    if i == s.len() - 1 {
        lemma_total_absent(s.drop_last(), k);
    } else {
        lemma_total_unique(s.drop_last(), i, k);
    }
}

proof fn lemma_total_absent(s: Seq<Extent>, k: ExtentKey)
    requires
        forall|j: int| 0 <= j < s.len() ==> key_of(s[j]) != k,
    ensures
        total(s, k) == 0,
    decreases s.len(),
{
    if s.len() > 0 {
        lemma_total_absent(s.drop_last(), k);
    }
}

proof fn lemma_cluster_prefix(parts: Seq<Vec<Extent>>, i: int, k: ExtentKey)
    requires
        0 <= i <= parts.len(),
    ensures
        cluster_total(parts.take(i), k) <= cluster_total(parts, k),
    decreases parts.len(),
{
    if i < parts.len() {
        assert(parts.drop_last().take(i) =~= parts.take(i));
        lemma_cluster_prefix(parts.drop_last(), i, k);
        lemma_total_nonneg(parts.last()@, k);
    } else {
        assert(parts.take(i) =~= parts);
    }
}

proof fn lemma_total_prefix(s: Seq<Extent>, j: int, k: ExtentKey)
    requires
        0 <= j <= s.len(),
    ensures
        total(s.take(j), k) <= total(s, k),
    decreases s.len(),
{
    if j < s.len() {
        assert(s.drop_last().take(j) =~= s.take(j));
        lemma_total_prefix(s.drop_last(), j, k);
    } else {
        assert(s.take(j) =~= s);
    }
}

fn same_key(e: &Extent, platform: &String, geocode: &String, band: &String, source: &String, precision: usize) -> (r: bool)
    ensures
        r == (key_of(*e) == (platform@, geocode@, band@, source@, precision as nat)),
{
    e.platform.eq(platform) && e.geocode.eq(geocode) && e.band.eq(band) && e.source.eq(source)
        && e.precision == precision
}

/// Adds `n` to the count of one key, appending an extent for it where there
/// is none.
fn add_count(
    acc: &mut Vec<Extent>,
    platform: &String,
    geocode: &String,
    band: &String,
    source: &String,
    precision: usize,
    n: u64,
)
    requires
        keys_unique(old(acc)@),
        total(old(acc)@, (platform@, geocode@, band@, source@, precision as nat)) + n <= u64::MAX,
    ensures
        keys_unique(final(acc)@),
        forall|k: ExtentKey| #[trigger] total(final(acc)@, k) == total(old(acc)@, k) + if k == (
            platform@,
            geocode@,
            band@,
            source@,
            precision as nat,
        ) {
            n as int
        } else {
            0
        },
{
    let ghost key = (platform@, geocode@, band@, source@, precision as nat);
    let mut i: usize = 0;
    while i < acc.len()
        invariant
            key == (platform@, geocode@, band@, source@, precision as nat),
            total(old(acc)@, key) + n <= u64::MAX,
            acc@ == old(acc)@,
            keys_unique(acc@),
            i <= acc@.len(),
            forall|j: int| 0 <= j < i ==> key_of(acc@[j]) != key,
        decreases acc@.len() - i,
    {
        let e = &acc[i];
        let same = same_key(e, platform, geocode, band, source, precision);
        if same {
            proof {
                lemma_total_unique(acc@, i as int, key);
            }
            let ghost before = acc@;
            let c = acc[i].count;
            acc[i].count = c + n;
            proof {
                assert(acc@ =~= before.update(i as int, acc@[i as int]));
                assert forall|k: ExtentKey| #[trigger] total(acc@, k) == total(before, k) + if k == key {
                    n as int
                } else {
                    0
                } by {
                    lemma_total_update(before, i as int, acc@[i as int], k);
                }
            }
            return;
        }
        i += 1;
    }
    let e = Extent {
        platform: platform.clone(),
        geocode: geocode.clone(),
        band: band.clone(),
        source: source.clone(),
        precision,
        count: n,
    };
    let ghost before = acc@;
    acc.push(e);
    proof {
        assert(acc@.drop_last() =~= before);
        assert(key_of(acc@.last()) == key);
        assert forall|k: ExtentKey| #[trigger] total(acc@, k) == total(before, k) + if k == key {
            n as int
        } else {
            0
        } by {}
    }
}

/// Counts the tiles that `filter` admits, one extent per key.
pub fn summarize(images: &Vec<ImageMetadata>, filter: &SearchFilter) -> (r: Vec<Extent>)
    ensures
        keys_unique(r@),
        forall|k: ExtentKey| #[trigger] total(r@, k) == admitted_count(images@, *filter, k),
{
    let mut acc: Vec<Extent> = Vec::new();
    let mut i: usize = 0;
    while i < images.len()
        invariant
            i <= images@.len(),
            keys_unique(acc@),
            forall|k: ExtentKey| #[trigger] total(acc@, k) == admitted_count(images@.take(i as int), *filter, k),
            forall|k: ExtentKey| admitted_count(images@.take(i as int), *filter, k) <= i,
        decreases images@.len() - i,
    {
        let m = &images[i];
        proof {
            assert(images@.take(i + 1).drop_last() =~= images@.take(i as int));
            assert(images@.take(i + 1).last() == images@[i as int]);
            assert forall|k: ExtentKey| #[trigger] admitted_count(images@.take(i + 1), *filter, k) <= i + 1 by {
                assert(admitted_count(images@.take(i as int), *filter, k) <= i);
            }
        }
        if filter.matches(m) {
            let precision = m.geohash.as_str().as_bytes().len();
            add_count(&mut acc, &m.platform, &m.geohash, &m.band, &m.dataset, precision, 1);
        }
        i += 1;
    }
    assert(images@.take(i as int) =~= images@);
    acc
}

/// Sums the extents that the nodes reported, one extent per key, in the
/// lexicographic order of the keys.
pub fn merge_extents(parts: &Vec<Vec<Extent>>) -> (r: Vec<Extent>)
    requires
        forall|k: ExtentKey| #[trigger] cluster_total(parts@, k) <= u64::MAX,
    ensures
        keys_unique(r@),
        sorted_by_key(r@),
        forall|k: ExtentKey| #[trigger] total(r@, k) == cluster_total(parts@, k),
{
    let mut acc: Vec<Extent> = Vec::new();
    let mut i: usize = 0;
    while i < parts.len()
        invariant
            i <= parts@.len(),
            forall|k: ExtentKey| #[trigger] cluster_total(parts@, k) <= u64::MAX,
            keys_unique(acc@),
            forall|k: ExtentKey| #[trigger] total(acc@, k) == cluster_total(parts@.take(i as int), k),
        decreases parts@.len() - i,
    {
        let part = &parts[i];
        let mut j: usize = 0;
        proof {
            assert(parts@.take(i + 1).drop_last() =~= parts@.take(i as int));
        }
        while j < part.len()
            invariant
                i < parts@.len(),
                part == parts@[i as int],
                j <= part@.len(),
                forall|k: ExtentKey| #[trigger] cluster_total(parts@, k) <= u64::MAX,
                keys_unique(acc@),
                forall|k: ExtentKey| #[trigger] total(acc@, k) == cluster_total(parts@.take(i as int), k) + total(part@.take(j as int), k),
            decreases part@.len() - j,
        {
            let e = &part[j];
            proof {
                let k = key_of(*e);
                assert(part@.take(j + 1).drop_last() =~= part@.take(j as int));
                lemma_total_prefix(part@, j + 1, k);
                lemma_cluster_prefix(parts@, i + 1, k);
                assert(parts@.take(i + 1).drop_last() =~= parts@.take(i as int));
                assert(parts@.take(i + 1).last() == parts@[i as int]);
                assert(cluster_total(parts@.take(i + 1), k) == cluster_total(parts@.take(i as int), k) + total(part@, k));
            }
            add_count(&mut acc, &e.platform, &e.geocode, &e.band, &e.source, e.precision, e.count);
            j += 1;
        }
        proof {
            assert(part@.take(j as int) =~= part@);
        }
        i += 1;
    }
    assert(parts@.take(i as int) =~= parts@);
    sort_extents(&acc)
}

/// Counting over a whole set of tiles gives the sum of the counts over any
/// split of it into two (one node's tiles and the rest's).
pub proof fn lemma_search_additive(a: Seq<ImageMetadata>, b: Seq<ImageMetadata>, f: SearchFilter, k: ExtentKey)
    ensures
        admitted_count(a + b, f, k) == admitted_count(a, f, k) + admitted_count(b, f, k),
    decreases b.len(),
{
    if b.len() == 0 {
        assert(a + b =~= a);
    } else {
        assert((a + b).drop_last() =~= a + b.drop_last());
        lemma_search_additive(a, b.drop_last(), f, k);
    }
}

/// The tiles of all nodes, node after node.
pub open spec fn all_images(parts: Seq<Seq<ImageMetadata>>) -> Seq<ImageMetadata>
    decreases parts.len(),
{
    if parts.len() == 0 {
        Seq::empty()
    } else {
        all_images(parts.drop_last()) + parts.last()
    }
}

/// However the tiles are spread over the nodes, summing the nodes' search
/// summaries gives the counts of a search over all tiles at once.
pub proof fn lemma_cluster_search(
    parts: Seq<Seq<ImageMetadata>>,
    summaries: Seq<Vec<Extent>>,
    f: SearchFilter,
    k: ExtentKey,
)
    requires
        summaries.len() == parts.len(),
        forall|i: int, k2: ExtentKey| 0 <= i < parts.len() ==> #[trigger] total(summaries[i]@, k2)
            == admitted_count(parts[i], f, k2),
    ensures
        cluster_total(summaries, k) == admitted_count(all_images(parts), f, k),
    decreases parts.len(),
{
    if parts.len() > 0 {
        let n = parts.len() - 1;
        lemma_cluster_search(parts.drop_last(), summaries.drop_last(), f, k);
        lemma_search_additive(all_images(parts.drop_last()), parts.last(), f, k);
        assert(total(summaries[n]@, k) == admitted_count(parts[n], f, k));
    }
}

/// `a` sorts strictly before `b`, byte by byte, a proper prefix first.
pub open spec fn bytes_lt(a: Seq<u8>, b: Seq<u8>) -> bool
    decreases a.len(),
{
    if b.len() == 0 {
        false
    } else if a.len() == 0 {
        true
    } else if a[0] != b[0] {
        a[0] < b[0]
    } else {
        bytes_lt(a.drop_first(), b.drop_first())
    }
}

proof fn lemma_bytes_lt_trans(a: Seq<u8>, b: Seq<u8>, c: Seq<u8>)
    requires
        bytes_lt(a, b),
        bytes_lt(b, c),
    ensures
        bytes_lt(a, c),
    decreases a.len(),
{
    if a.len() > 0 && a[0] == b[0] && b[0] == c[0] {
        lemma_bytes_lt_trans(a.drop_first(), b.drop_first(), c.drop_first());
    }
}

proof fn lemma_bytes_lt_total(a: Seq<u8>, b: Seq<u8>)
    ensures
        a != b ==> bytes_lt(a, b) || bytes_lt(b, a),
        !(bytes_lt(a, b) && bytes_lt(b, a)),
        !bytes_lt(a, a),
    decreases a.len(),
{
    if a.len() > 0 && b.len() > 0 {
        lemma_bytes_lt_total(a.drop_first(), b.drop_first());
        if a[0] == b[0] && a != b {
            assert(a =~= seq![a[0]] + a.drop_first());
            assert(b =~= seq![b[0]] + b.drop_first());
        }
    } else if a.len() == 0 && b.len() == 0 {
        assert(a =~= b);
    }
    lemma_bytes_lt_irreflexive(a);
}

proof fn lemma_bytes_lt_irreflexive(a: Seq<u8>)
    ensures
        !bytes_lt(a, a),
    decreases a.len(),
{
    if a.len() > 0 {
        lemma_bytes_lt_irreflexive(a.drop_first());
    }
}

/// Order of texts: by their UTF-8 bytes.
pub open spec fn text_lt(a: Seq<char>, b: Seq<char>) -> bool {
    bytes_lt(encode_utf8(a), encode_utf8(b))
}

/// Lexicographic order of extent keys: platform, geocode, band, source, then
/// precision.
pub open spec fn key_lt(a: ExtentKey, b: ExtentKey) -> bool {
    if a.0 != b.0 {
        text_lt(a.0, b.0)
    } else if a.1 != b.1 {
        text_lt(a.1, b.1)
    } else if a.2 != b.2 {
        text_lt(a.2, b.2)
    } else if a.3 != b.3 {
        text_lt(a.3, b.3)
    } else {
        a.4 < b.4
    }
}

proof fn lemma_text_lt(a: Seq<char>, b: Seq<char>, c: Seq<char>)
    ensures
        a != b ==> text_lt(a, b) || text_lt(b, a),
        !(text_lt(a, b) && text_lt(b, a)),
        !text_lt(a, a),
        text_lt(a, b) && text_lt(b, c) ==> text_lt(a, c),
{
    lemma_bytes_lt_total(encode_utf8(a), encode_utf8(b));
    lemma_bytes_lt_total(encode_utf8(a), encode_utf8(a));
    if a != b {
        assert(decode_utf8(encode_utf8(a)) == a);
        assert(decode_utf8(encode_utf8(b)) == b);
    }
    if text_lt(a, b) && text_lt(b, c) {
        lemma_bytes_lt_trans(encode_utf8(a), encode_utf8(b), encode_utf8(c));
    }
}

proof fn lemma_key_lt(a: ExtentKey, b: ExtentKey, c: ExtentKey)
    ensures
        a != b ==> key_lt(a, b) || key_lt(b, a),
        !(key_lt(a, b) && key_lt(b, a)),
        key_lt(a, b) && key_lt(b, c) ==> key_lt(a, c),
{
    lemma_text_lt(a.0, b.0, c.0);
    lemma_text_lt(a.1, b.1, c.1);
    lemma_text_lt(a.2, b.2, c.2);
    lemma_text_lt(a.3, b.3, c.3);
    lemma_text_lt(a.0, c.0, c.0);
    lemma_text_lt(a.1, c.1, c.1);
    lemma_text_lt(a.2, c.2, c.2);
    lemma_text_lt(a.3, c.3, c.3);
    lemma_text_lt(b.0, c.0, c.0);
    lemma_text_lt(b.1, c.1, c.1);
    lemma_text_lt(b.2, c.2, c.2);
    lemma_text_lt(b.3, c.3, c.3);
}

proof fn lemma_bytes_lt_from(a: Seq<u8>, b: Seq<u8>, i: int)
    requires
        0 <= i <= a.len(),
        i <= b.len(),
        a.subrange(0, i) == b.subrange(0, i),
    ensures
        bytes_lt(a, b) == bytes_lt(a.subrange(i, a.len() as int), b.subrange(i, b.len() as int)),
    decreases i,
{
    if i > 0 {
        assert(a[0] == a.subrange(0, i)[0]);
        assert(b[0] == b.subrange(0, i)[0]);
        assert(a.drop_first().subrange(0, i - 1) =~= a.subrange(0, i).drop_first());
        assert(b.drop_first().subrange(0, i - 1) =~= b.subrange(0, i).drop_first());
        lemma_bytes_lt_from(a.drop_first(), b.drop_first(), i - 1);
        assert(a.drop_first().subrange(i - 1, a.len() - 1) =~= a.subrange(i, a.len() as int));
        assert(b.drop_first().subrange(i - 1, b.len() - 1) =~= b.subrange(i, b.len() as int));
    } else {
        assert(a.subrange(0, a.len() as int) =~= a);
        assert(b.subrange(0, b.len() as int) =~= b);
    }
}

/// Compares two texts by their bytes: negative, zero or positive.
fn compare_text(a: &String, b: &String) -> (r: i8)
    ensures
        (r < 0) == text_lt(a@, b@),
        (r == 0) == (a@ == b@),
        (r > 0) == text_lt(b@, a@),
{
    let x = a.as_str().as_bytes();
    let y = b.as_str().as_bytes();
    proof {
        lemma_text_lt(a@, b@, b@);
        lemma_text_lt(b@, a@, a@);
    }
    let mut i: usize = 0;
    while i < x.len() && i < y.len()
        invariant
            x@ == encode_utf8(a@),
            y@ == encode_utf8(b@),
            i <= x@.len(),
            i <= y@.len(),
            x@.subrange(0, i as int) == y@.subrange(0, i as int),
        decreases x@.len() - i,
    {
        if x[i] != y[i] {
            proof {
                lemma_bytes_lt_from(x@, y@, i as int);
                lemma_bytes_lt_from(y@, x@, i as int);
                assert(x@.subrange(i as int, x@.len() as int)[0] == x@[i as int]);
                assert(y@.subrange(i as int, y@.len() as int)[0] == y@[i as int]);
                if a@ == b@ {
                    assert(x@[i as int] == y@[i as int]);
                }
            }
            if x[i] < y[i] {
                return -1;
            } else {
                return 1;
            }
        }
        proof {
            assert(x@.subrange(0, i + 1) =~= x@.subrange(0, i as int).push(x@[i as int]));
            assert(y@.subrange(0, i + 1) =~= y@.subrange(0, i as int).push(y@[i as int]));
        }
        i += 1;
    }
    proof {
        lemma_bytes_lt_from(x@, y@, i as int);
        lemma_bytes_lt_from(y@, x@, i as int);
        if x@.len() == y@.len() {
            assert(x@ =~= x@.subrange(0, i as int));
            assert(y@ =~= y@.subrange(0, i as int));
            assert(decode_utf8(x@) == a@);
            assert(decode_utf8(y@) == b@);
        }
    }
    if x.len() < y.len() {
        -1
    } else if x.len() == y.len() {
        0
    } else {
        1
    }
}

/// Whether the key of `a` sorts strictly before the key of `b`.
fn key_less(a: &Extent, b: &Extent) -> (r: bool)
    ensures
        r == key_lt(key_of(*a), key_of(*b)),
{
    let c = compare_text(&a.platform, &b.platform);
    if c != 0 {
        return c < 0;
    }
    let c = compare_text(&a.geocode, &b.geocode);
    if c != 0 {
        return c < 0;
    }
    let c = compare_text(&a.band, &b.band);
    if c != 0 {
        return c < 0;
    }
    let c = compare_text(&a.source, &b.source);
    if c != 0 {
        return c < 0;
    }
    a.precision < b.precision
}

/// The keys of `s` increase strictly.
pub open spec fn sorted_by_key(s: Seq<Extent>) -> bool {
    forall|i: int, j: int| 0 <= i < j < s.len() ==> key_lt(key_of(s[i]), key_of(s[j]))
}

proof fn lemma_total_concat(a: Seq<Extent>, b: Seq<Extent>, k: ExtentKey)
    ensures
        total(a + b, k) == total(a, k) + total(b, k),
    decreases b.len(),
{
    if b.len() == 0 {
        assert(a + b =~= a);
    } else {
        assert((a + b).drop_last() =~= a + b.drop_last());
        lemma_total_concat(a, b.drop_last(), k);
    }
}

/// The same extents, ordered by key.
fn sort_extents(v: &Vec<Extent>) -> (r: Vec<Extent>)
    requires
        keys_unique(v@),
    ensures
        sorted_by_key(r@),
        keys_unique(r@),
        forall|k: ExtentKey| #[trigger] total(r@, k) == total(v@, k),
{
    let mut out: Vec<Extent> = Vec::new();
    let mut i: usize = 0;
    while i < v.len()
        invariant
            i <= v@.len(),
            keys_unique(v@),
            sorted_by_key(out@),
            forall|j: int| 0 <= j < out@.len() ==> exists|m: int| 0 <= m < i && key_of(#[trigger] out@[j]) == key_of(v@[m]),
            forall|k: ExtentKey| #[trigger] total(out@, k) == total(v@.take(i as int), k),
        decreases v@.len() - i,
    {
        let e = &v[i];
        let x = Extent {
            platform: e.platform.clone(),
            geocode: e.geocode.clone(),
            band: e.band.clone(),
            source: e.source.clone(),
            precision: e.precision,
            count: e.count,
        };
        let mut p: usize = 0;
        while p < out.len() && key_less(&out[p], &x)
            invariant
                p <= out@.len(),
                forall|j: int| 0 <= j < p ==> key_lt(key_of(#[trigger] out@[j]), key_of(x)),
            decreases out@.len() - p,
        {
            p += 1;
        }
        let ghost before = out@;
        proof {
            assert(key_of(x) == key_of(v@[i as int]));
            assert forall|j: int| p <= j < before.len() implies key_lt(key_of(x), key_of(#[trigger] before[j])) by {
                let m = choose|m: int| 0 <= m < i && key_of(before[p as int]) == key_of(v@[m]);
                assert(key_of(before[p as int]) != key_of(x));
                lemma_key_lt(key_of(x), key_of(before[p as int]), key_of(before[j]));
                lemma_key_lt(key_of(before[p as int]), key_of(x), key_of(before[j]));
            }
        }
        out.insert(p, x);
        proof {
            let y = out@[p as int];
            assert(out@ =~= before.take(p as int) + seq![y] + before.skip(p as int));
            assert(before =~= before.take(p as int) + before.skip(p as int));
            assert(v@.take(i + 1).drop_last() =~= v@.take(i as int));
            assert(v@.take(i + 1).last() == v@[i as int]);
            assert(y.count == v@[i as int].count);
            assert(key_of(y) == key_of(v@[i as int]));
            assert forall|k: ExtentKey| #[trigger] total(out@, k) == total(v@.take(i + 1), k) by {
                lemma_total_concat(before.take(p as int) + seq![y], before.skip(p as int), k);
                lemma_total_concat(before.take(p as int), seq![y], k);
                lemma_total_concat(before.take(p as int), before.skip(p as int), k);
                assert(seq![y].drop_last() =~= Seq::<Extent>::empty());
                assert(total(seq![y], k) == total(Seq::<Extent>::empty(), k) + if key_of(y) == k {
                    y.count as int
                } else {
                    0
                });
                assert(total(before, k) == total(v@.take(i as int), k));
                assert(total(v@.take(i + 1), k) == total(v@.take(i as int), k) + if key_of(v@[i as int]) == k {
                    v@[i as int].count as int
                } else {
                    0
                });
            }
            assert forall|a: int, b: int| 0 <= a < b < out@.len() implies key_lt(key_of(out@[a]), key_of(out@[b])) by {
                if a < p && b > p {
                    lemma_key_lt(key_of(out@[a]), key_of(x), key_of(out@[b]));
                }
            }
            assert forall|j: int| 0 <= j < out@.len() implies exists|m: int| 0 <= m < i + 1 && key_of(#[trigger] out@[j]) == key_of(v@[m]) by {
                if j < p {
                    assert(out@[j] == before[j]);
                } else if j > p {
                    assert(out@[j] == before[j - 1]);
                } else {
                    assert(key_of(out@[j]) == key_of(v@[i as int]));
                }
            }
        }
        i += 1;
    }
    proof {
        assert(v@.take(i as int) =~= v@);
        assert forall|a: int, b: int| 0 <= a < out@.len() && 0 <= b < out@.len() && a != b implies key_of(out@[a]) != key_of(out@[b]) by {
            if a < b {
                lemma_key_lt(key_of(out@[a]), key_of(out@[b]), key_of(out@[b]));
            } else {
                lemma_key_lt(key_of(out@[b]), key_of(out@[a]), key_of(out@[a]));
            }
        }
    }
    out
}

} // verus!
