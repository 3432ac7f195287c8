//! Geocode-keyed placement on a 64-bit consistent-hashing ring.
use vstd::prelude::*;
use std::collections::hash_map::DefaultHasher;
use std::hash::Hasher;
use vstd::std_specs::hash::DefaultHasherAdditionalSpecFns;
use vstd::string::StringSliceAdditionalSpecFns;

verus! {

/// One ring position: a token owned by a node, with the node's addresses.
#[derive(Clone, Debug)]
pub struct DhtEntry {
    pub token: u64,
    pub node_id: u16,
    pub rpc_addr: String,
    pub xfer_addr: Option<String>,
}

/// A membership snapshot: every token that some node owns.
pub struct Dht {
    pub entries: Vec<DhtEntry>,
}

/// No two entries share a token.
pub open spec fn tokens_unique(s: Seq<DhtEntry>) -> bool {
    forall|i: int, j: int| 0 <= i < s.len() && 0 <= j < s.len() && i != j ==> s[i].token != s[j].token
}

/// Some entry has a token at or below `key`.
pub open spec fn has_token_at_or_below(s: Seq<DhtEntry>, key: u64) -> bool {
    exists|j: int| 0 <= j < s.len() && s[j].token <= key
}

/// Entry `i` owns `key`: its token is the largest one at or below `key`, or,
/// where every token lies above `key`, the largest of all (the ring wraps).
pub open spec fn is_owner(s: Seq<DhtEntry>, key: u64, i: int) -> bool {
    &&& 0 <= i < s.len()
    &&& if has_token_at_or_below(s, key) {
        &&& s[i].token <= key
        &&& forall|j: int| 0 <= j < s.len() && s[j].token <= key ==> s[j].token <= s[i].token
    } else {
        forall|j: int| 0 <= j < s.len() ==> s[j].token <= s[i].token
    }
}

/// The routing bytes of a geocode: its first `k` bytes, right-padded with
/// zero bytes where it is shorter.
pub open spec fn key_bytes(g: Seq<u8>, k: nat) -> Seq<u8> {
    Seq::new(k, |i: int| if i < g.len() { g[i] } else { 0u8 })
}

/// The ring position of a geocode: the hash of its routing bytes, written once
/// into a fresh `DefaultHasher` (fixed keys, so the same on every node).
pub open spec fn placement_key_of(g: Seq<u8>, k: nat) -> u64 {
    DefaultHasher::spec_finish(seq![key_bytes(g, k)])
}

impl Dht {
    pub open spec fn wf(&self) -> bool {
        tokens_unique(self.entries@)
    }

    /// Builds a snapshot from its entries; fails where two share a token.
    pub fn from_entries(entries: Vec<DhtEntry>) -> (r: Option<Dht>)
        ensures
            r is Some <==> tokens_unique(entries@),
            r matches Some(d) ==> d.entries@ == entries@ && d.wf(),
    {
        let n = entries.len();
        let mut i: usize = 0;
        while i < n
            invariant
                n == entries@.len(),
                i <= n,
                forall|a: int, b: int| 0 <= a < i && 0 <= b < n && a != b ==> entries@[a].token != entries@[b].token,
            decreases n - i,
        {
            let mut j: usize = 0;
            while j < n
                invariant
                    n == entries@.len(),
                    i < n,
                    j <= n,
                    forall|a: int, b: int| 0 <= a < i && 0 <= b < n && a != b ==> entries@[a].token != entries@[b].token,
                    forall|b: int| 0 <= b < j && b != i ==> entries@[i as int].token != entries@[b].token,
                decreases n - j,
            {
                if j != i && entries[i].token == entries[j].token {
                    return None;
                }
                j += 1;
            }
            i += 1;
        }
        Some(Dht { entries })
    }

    /// Index of the entry that owns `key`; `None` only on an empty ring.
    pub fn locate(&self, key: u64) -> (r: Option<usize>)
        ensures
            r is None <==> self.entries@.len() == 0,
            r matches Some(i) ==> is_owner(self.entries@, key, i as int),
    {
        let s = Ghost(self.entries@);
        let n = self.entries.len();
        if n == 0 {
            return None;
        }
        let mut best_le: Option<usize> = None;
        let mut best_max: usize = 0;
        let mut i: usize = 1;
        if self.entries[0].token <= key {
            best_le = Some(0);
        }
        while i < n
            invariant
                s@ == self.entries@,
                n == s@.len(),
                1 <= i <= n,
                best_max < i,
                forall|j: int| 0 <= j < i ==> s@[j].token <= s@[best_max as int].token,
                best_le is None ==> forall|j: int| 0 <= j < i ==> s@[j].token > key,
                best_le matches Some(b) ==> b < i && s@[b as int].token <= key && forall|j: int|
                    0 <= j < i && s@[j].token <= key ==> s@[j].token <= s@[b as int].token,
            decreases n - i,
        {
            let t = self.entries[i].token;
            if t > self.entries[best_max].token {
                best_max = i;
            }
            if t <= key {
                match best_le {
                    None => {
                        best_le = Some(i);
                    },
                    Some(b) => {
                        if t > self.entries[b].token {
                            best_le = Some(i);
                        }
                    },
                }
            }
            i += 1;
        }
        match best_le {
            Some(b) => Some(b),
            None => {
                assert(!has_token_at_or_below(s@, key));
                Some(best_max)
            },
        }
    }

    /// The ids of the member nodes, each once, in the order of their first
    /// entry (a node may own several tokens).
    pub fn members(&self) -> (r: Vec<u16>)
        ensures
            r@.no_duplicates(),
            forall|id: u16| r@.contains(id) <==> is_member(self.entries@, id),
    {
        let mut r: Vec<u16> = Vec::new();
        let mut i: usize = 0;
        while i < self.entries.len()
            invariant
                i <= self.entries@.len(),
                r@.no_duplicates(),
                forall|id: u16| r@.contains(id) <==> is_member(self.entries@.take(i as int), id),
            decreases self.entries@.len() - i,
        {
            let id = self.entries[i].node_id;
            let mut seen = false;
            let mut j: usize = 0;
            while j < r.len()
                invariant
                    j <= r@.len(),
                    seen <==> exists|k: int| 0 <= k < j && r@[k] == id,
                decreases r@.len() - j,
            {
                if r[j] == id {
                    seen = true;
                }
                j += 1;
            }
            let ghost head = self.entries@.take(i as int);
            proof {
                let t = self.entries@.take(i + 1);
                assert(t[i as int].node_id == id);
                assert forall|x: u16| is_member(t, x) <==> is_member(self.entries@.take(i as int), x) || x == id by {
                    if is_member(t, x) {
                        let k = choose|k: int| 0 <= k < t.len() && t[k].node_id == x;
                        if k < i {
                            assert(self.entries@.take(i as int)[k].node_id == x);
                        }
                    }
                    if is_member(self.entries@.take(i as int), x) {
                        let k = choose|k: int| 0 <= k < i && self.entries@.take(i as int)[k].node_id == x;
                        assert(t[k].node_id == x);
                    }
                }
            }
            let ghost before = r@;
            if !seen {
                r.push(id);
            }
            proof {
                assert forall|x: u16| r@.contains(x) <==> before.contains(x) || x == id by {
                    if !seen {
                        if before.contains(x) {
                            let k = choose|k: int| 0 <= k < before.len() && before[k] == x;
                            assert(r@[k] == x);
                        }
                        assert(r@[before.len() as int] == id);
                    } else {
                        let k = choose|k: int| 0 <= k < before.len() && before[k] == id;
                        assert(before[k] == id);
                    }
                }
            }
            i += 1;
            proof {
                assert forall|x: u16| r@.contains(x) <==> is_member(self.entries@.take(i as int), x) by {
                    assert(before.contains(x) <==> is_member(head, x));
                }
            }
        }
        assert(self.entries@.take(i as int) =~= self.entries@);
        r
    }
}

/// Some entry of `s` belongs to node `id`.
pub open spec fn is_member(s: Seq<DhtEntry>, id: u16) -> bool {
    exists|k: int| 0 <= k < s.len() && s[k].node_id == id
}

/// The routing bytes of `geocode` for a key length of `key_length` bytes.
pub fn routing_bytes(geocode: &str, key_length: usize) -> (r: Vec<u8>)
    ensures
        r@ == key_bytes(geocode.spec_bytes(), key_length as nat),
{
    let g = geocode.as_bytes();
    let mut r: Vec<u8> = Vec::new();
    let mut i: usize = 0;
    while i < key_length
        invariant
            g@ == geocode.spec_bytes(),
            i <= key_length,
            r@ =~= key_bytes(g@, key_length as nat).subrange(0, i as int),
        decreases key_length - i,
    {
        if i < g.len() {
            r.push(g[i]);
        } else {
            r.push(0u8);
        }
        i += 1;
    }
    assert(r@ =~= key_bytes(g@, key_length as nat));
    r
}

/// The ring position of `geocode` for a key length of `key_length` bytes.
pub fn placement_key(geocode: &str, key_length: usize) -> (r: u64)
    ensures
        r == placement_key_of(geocode.spec_bytes(), key_length as nat),
{
    let b = routing_bytes(geocode, key_length);
    let mut h = DefaultHasher::new();
    h.write(b.as_slice());
    let r = h.finish();
    assert(h@ =~= seq![b@]);
    r
}

/// Two nodes whose snapshots hold the same entries, listed in any order, name
/// the same owner for every key.
pub proof fn lemma_placement_determinism(a: Seq<DhtEntry>, b: Seq<DhtEntry>, key: u64, i: int, j: int)
    requires
        tokens_unique(a),
        tokens_unique(b),
        a.to_set() == b.to_set(),
        is_owner(a, key, i),
        is_owner(b, key, j),
    ensures
        a[i] == b[j],
{
    assert(a.to_set().contains(a[i]));
    assert(b.to_set().contains(b[j]));
    let k = choose|k: int| 0 <= k < b.len() && b[k] == a[i];
    let m = choose|m: int| 0 <= m < a.len() && a[m] == b[j];
    if has_token_at_or_below(a, key) {
        let w = choose|w: int| 0 <= w < a.len() && a[w].token <= key;
        assert(b.to_set().contains(a[w]));
        assert(has_token_at_or_below(b, key));
    } else {
        if has_token_at_or_below(b, key) {
            let w = choose|w: int| 0 <= w < b.len() && b[w].token <= key;
            assert(a.to_set().contains(b[w]));
            let w2 = choose|w2: int| 0 <= w2 < a.len() && a[w2] == b[w];
            assert(has_token_at_or_below(a, key));
        }
    }
    assert(a[i].token == b[j].token);
    assert(k == j);
}

} // verus!
