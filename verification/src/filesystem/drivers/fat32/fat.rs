use vstd::prelude::*;

use crate::device::Device;
use crate::error::Status;

verus! {

/// A cluster number.
pub type Cluster = u32;

/// What the table says follows a cluster.
#[derive(Clone, Copy, PartialEq, Eq, Structural)]
pub enum ClusterState {
    Free,
    Next(Cluster),
    End,
}

/// The sector number that stands for "no sector cached".
pub const NO_SECTOR: u64 = 0xFFFFFFFF;

/// The cluster number that stands for "no search for a free cluster made yet".
pub const NO_CLUSTER: u32 = 0xFFFFFFFF;

/// The value of a table entry that ends a chain.
pub const END_OF_CHAIN: u32 = 0x0FFFFFFF;

/// The file allocation table of a FAT32 volume, read and written one sector at a time
/// through a one-sector cache.
pub struct FAT<D: Device> {
    drive: D,
    sectors_per_cluster: u32,
    bytes_per_cluster: usize,
    num_fats: u64,
    fat_size: u64,
    first_fat_sector: u64,
    first_data_sector: u32,
    bytes_per_sector: u64,
    buffer: Vec<u8>,
    buffer_modified: bool,
    buffer_sector_offset: u64,
    next_free_cluster: u32,
}

/// The first free cluster in `[from, top)`, if any.
pub open spec fn first_free(t: Map<u32, u32>, from: int, top: int) -> Option<u32>
    decreases top - from,
{
    if from >= top {
        None
    } else if t[from as u32] == 0 {
        Some(from as u32)
    } else {
        first_free(t, from + 1, top)
    }
}

pub proof fn lemma_first_free(t: Map<u32, u32>, from: int, top: int)
    requires
        0 <= from,
        top <= u32::MAX,
    ensures
        first_free(t, from, top) matches Some(c) ==> from <= c < top && t[c] == 0 && forall|d: u32|
            from <= d < c ==> #[trigger] t[d] != 0,
        first_free(t, from, top) is None ==> forall|d: u32| from <= d < top ==> #[trigger] t[d] != 0,
    decreases top - from,
{
    if from < top && t[from as u32] != 0 {
        lemma_first_free(t, from + 1, top);
    }
}

/// Up to `n` clusters of the chain that starts at `c`: each cluster is followed by the
/// one its entry names, until a cluster whose entry names none.
pub open spec fn follow(t: Map<u32, u32>, c: u32, n: nat) -> Seq<u32>
    decreases n,
{
    if n == 0 {
        Seq::empty()
    } else {
        match state_of(t[c]) {
            ClusterState::Next(d) => seq![c] + follow(t, d, (n - 1) as nat),
            _ => seq![c],
        }
    }
}

/// The chain from `c` stops within `n` clusters, all of them described by the table.
pub open spec fn stops_within(t: Map<u32, u32>, c: u32, n: nat) -> bool {
    &&& follow(t, c, n).len() < n
    &&& forall|i: int| 0 <= i < follow(t, c, n).len() ==> t.contains_key(#[trigger] follow(t, c, n)[i])
}

/// The chain from `c` comes to an end, and the table describes each of its clusters.
pub open spec fn chain_in_table(t: Map<u32, u32>, c: u32) -> bool {
    exists|n: nat| stops_within(t, c, n)
}

/// The chain that starts at `c`.
pub open spec fn chain(t: Map<u32, u32>, c: u32) -> Seq<u32> {
    follow(t, c, choose|n: nat| stops_within(t, c, n))
}

/// `s` is a chain in `t`: each cluster but the last is followed by the next one, and the
/// last names no next cluster.
pub open spec fn is_chain(t: Map<u32, u32>, s: Seq<u32>) -> bool {
    &&& s.len() > 0
    &&& forall|i: int| 0 <= i < s.len() ==> t.contains_key(#[trigger] s[i])
    &&& forall|i: int| 0 <= i < s.len() - 1 ==> state_of(t[#[trigger] s[i]]) == ClusterState::Next(s[i + 1])
    &&& !(state_of(t[s.last()]) is Next)
}

/// `t` with the entries of the clusters in `s` replaced by `v`.
pub open spec fn with_value(t: Map<u32, u32>, s: Seq<u32>, v: u32) -> Map<u32, u32> {
    Map::new(|c: u32| t.contains_key(c), |c: u32| if s.contains(c) { v } else { t[c] })
}

/// The table after the chain `l` is cut after its cluster number `n`: that cluster ends the
/// chain, and the clusters after it are free but the last one, which keeps its entry.
pub open spec fn shrunk(t: Map<u32, u32>, l: Seq<u32>, n: int) -> Map<u32, u32> {
    if n + 1 < l.len() {
        with_value(t, l.subrange(n + 1, l.len() - 1), 0).insert(l[n], END_OF_CHAIN)
    } else {
        t
    }
}

/// The table after the clusters `news` are appended, in order, to a chain whose last cluster
/// is `last`: each new cluster ends the chain, and the cluster before it names it.
pub open spec fn extended(t: Map<u32, u32>, last: u32, news: Seq<u32>) -> Map<u32, u32>
    decreases news.len(),
{
    if news.len() == 0 {
        t
    } else {
        let prev = if news.len() == 1 {
            last
        } else {
            news[news.len() - 2]
        };
        extended(t, last, news.drop_last()).insert(news.last(), END_OF_CHAIN).insert(
            prev,
            value_of(ClusterState::Next(news.last())),
        )
    }
}

/// `news` are the clusters that appending to a chain whose last cluster is `last` takes, one
/// at a time: each is the first free cluster in the table as it then stands, searching from
/// `start` for the first and from the one taken before it for the others.
#[verifier::opaque]
pub open spec fn allocated(t: Map<u32, u32>, start: u32, top: u32, last: u32, news: Seq<u32>) -> bool {
    forall|m: int|
        0 <= m < news.len() ==> Some(#[trigger] news[m]) == first_free(
            extended(t, last, news.take(m)),
            (if m == 0 {
                start
            } else {
                news[m - 1]
            }) as int,
            top as int,
        )
}

/// A chain is no longer than the number of clusters that the table describes.
pub proof fn lemma_chain_len_bound(t: Map<u32, u32>, c: u32, top: u32)
    requires
        chain_in_table(t, c),
        forall|d: u32| t.contains_key(d) ==> d < top,
    ensures
        chain(t, c).len() <= top,
{
    lemma_chain_is_chain(t, c);
    lemma_chain_distinct(t, c);
    let l = chain(t, c);
    let li = l.map_values(|x: u32| x as int);
    assert forall|i: int, j: int| 0 <= i < li.len() && 0 <= j < li.len() && i != j implies li[i] != li[j] by {
        assert(l[i] != l[j]);
    }
    assert(li.no_duplicates());
    li.unique_seq_to_set();
    let range = vstd::set_lib::set_int_range(0, top as int);
    vstd::set_lib::lemma_int_range(0, top as int);
    assert forall|x: int| li.to_set().contains(x) implies range.contains(x) by {
        let i = choose|i: int| 0 <= i < li.len() && li[i] == x;
        assert(t.contains_key(l[i]));
    }
    vstd::set_lib::lemma_len_subset(li.to_set(), range);
}

/// Appending one more cluster, taken as the first free one from where the last search
/// ended, keeps `allocated`.
pub proof fn lemma_allocated_push(t: Map<u32, u32>, start: u32, top: u32, last: u32, news: Seq<u32>, c: u32)
    requires
        allocated(t, start, top, last, news),
        Some(c) == first_free(
            extended(t, last, news),
            (if news.len() == 0 {
                start
            } else {
                news.last()
            }) as int,
            top as int,
        ),
    ensures
        allocated(t, start, top, last, news.push(c)),
        extended(t, last, news.push(c)) == extended(t, last, news).insert(c, END_OF_CHAIN).insert(
            if news.len() == 0 {
                last
            } else {
                news.last()
            },
            value_of(ClusterState::Next(c)),
        ),
{
    reveal(allocated);
    let grown = news.push(c);
    assert(grown.drop_last() =~= news);
    assert forall|m: int| 0 <= m < grown.len() implies Some(#[trigger] grown[m]) == first_free(
        extended(t, last, grown.take(m)),
        (if m == 0 {
            start
        } else {
            grown[m - 1]
        }) as int,
        top as int,
    ) by {
        if m < news.len() {
            assert(grown.take(m) =~= news.take(m));
            assert(grown[m] == news[m]);
            assert(Some(news[m]) == first_free(
                extended(t, last, news.take(m)),
                (if m == 0 {
                    start
                } else {
                    news[m - 1]
                }) as int,
                top as int,
            ));
            if m > 0 {
                assert(grown[m - 1] == news[m - 1]);
            }
        } else {
            assert(grown.take(m) =~= news);
        }
    }
}

/// No cluster taken is an allocation of nothing, and extends nothing.
pub proof fn lemma_allocated_empty(t: Map<u32, u32>, start: u32, top: u32, last: u32)
    ensures
        allocated(t, start, top, last, Seq::empty()),
        extended(t, last, Seq::empty()) == t,
{
    reveal(allocated);
}

/// When the search starts at a cluster that is not free, the cluster taken `m`-th lies
/// above it.
proof fn lemma_allocated_above_at(t: Map<u32, u32>, start: u32, top: u32, last: u32, news: Seq<u32>, m: int)
    requires
        allocated(t, start, top, last, news),
        t[start] != 0,
        0 <= m < news.len(),
    ensures
        news[m] > start,
    decreases m,
{
    reveal(allocated);
    let from = (if m == 0 {
        start
    } else {
        news[m - 1]
    }) as int;
    assert(Some(news[m]) == first_free(extended(t, last, news.take(m)), from, top as int));
    lemma_first_free(extended(t, last, news.take(m)), from, top as int);
    if m == 0 {
        assert(news.take(0) =~= Seq::<u32>::empty());
    } else {
        lemma_allocated_above_at(t, start, top, last, news, m - 1);
    }
}

/// When the search starts at a cluster that is not free, every cluster taken lies above
/// it.
pub proof fn lemma_allocated_above(t: Map<u32, u32>, start: u32, top: u32, last: u32, news: Seq<u32>)
    requires
        allocated(t, start, top, last, news),
        t[start] != 0,
    ensures
        forall|m: int| 0 <= m < news.len() ==> #[trigger] news[m] > start,
{
    assert forall|m: int| 0 <= m < news.len() implies #[trigger] news[m] > start by {
        lemma_allocated_above_at(t, start, top, last, news, m);
    }
}

/// Appending the clusters that `allocated` describes to a chain `l` gives a chain `l + news`,
/// when the table describes no cluster at or above the first end mark and the search starts
/// at cluster 2 or later.
proof fn lemma_extended_is_chain(t: Map<u32, u32>, start: u32, top: u32, l: Seq<u32>, news: Seq<u32>)
    requires
        is_chain(t, l),
        l.no_duplicates(),
        state_of(t[l.last()]) is End,
        allocated(t, start, top, l.last(), news),
        forall|d: u32| #[trigger] t.contains_key(d) <==> d < top,
        top <= 0x0FFFFFF8,
        start >= 2,
    ensures
        is_chain(extended(t, l.last(), news), l + news),
        (l + news).no_duplicates(),
        state_of(extended(t, l.last(), news)[(l + news).last()]) is End,
        forall|i: int| 0 <= i < news.len() ==> #[trigger] news[i] >= 2,
        forall|d: u32| #[trigger] extended(t, l.last(), news).contains_key(d) <==> d < top,
    decreases news.len(),
{
    if news.len() == 0 {
        assert(l + news =~= l);
    } else {
        let p = news.drop_last();
        let c = news.last();
        let from = if p.len() == 0 {
            start
        } else {
            p.last()
        };
        assert(allocated(t, start, top, l.last(), p)) by {
            reveal(allocated);
            assert forall|m: int| 0 <= m < p.len() implies Some(#[trigger] p[m]) == first_free(
                extended(t, l.last(), p.take(m)),
                (if m == 0 {
                    start
                } else {
                    p[m - 1]
                }) as int,
                top as int,
            ) by {
                assert(p.take(m) =~= news.take(m));
                assert(news[m] == p[m]);
                if m > 0 {
                    assert(news[m - 1] == p[m - 1]);
                }
            }
        }
        assert(Some(c) == first_free(extended(t, l.last(), p), from as int, top as int)) by {
            reveal(allocated);
            let m = news.len() - 1;
            assert(news.take(m) =~= p);
            assert(Some(news[m]) == first_free(
                extended(t, l.last(), news.take(m)),
                (if m == 0 {
                    start
                } else {
                    news[m - 1]
                }) as int,
                top as int,
            ));
        }
        lemma_extended_is_chain(t, start, top, l, p);
        let ep = extended(t, l.last(), p);
        let lp = l + p;
        lemma_first_free(ep, from as int, top as int);
        assert(from >= 2);
        assert(2 <= c < 0x0FFFFFF8);
        assert(c & 0x0FFFFFFFu32 == c) by (bit_vector)
            requires
                c < 0x0FFFFFF8u32,
        ;
        assert(value_of(ClusterState::Next(c)) == c);
        assert(!lp.contains(c)) by {
            if lp.contains(c) {
                let i = choose|i: int| 0 <= i < lp.len() && lp[i] == c;
                if i < lp.len() - 1 {
                    assert(state_of(ep[lp[i]]) == ClusterState::Next(lp[i + 1]));
                }
            }
        }
        let prev = lp.last();
        assert(prev == if p.len() == 0 {
            l.last()
        } else {
            p.last()
        });
        assert(news.drop_last() =~= p);
        let en = extended(t, l.last(), news);
        assert(en == ep.insert(c, END_OF_CHAIN).insert(prev, c));
        let ln = l + news;
        assert(ln =~= lp.push(c));
        assert forall|i: int| 0 <= i < ln.len() implies en.contains_key(#[trigger] ln[i]) by {
            if i < lp.len() {
                assert(ln[i] == lp[i]);
            }
        }
        assert forall|i: int| 0 <= i < ln.len() - 1 implies state_of(en[#[trigger] ln[i]]) == ClusterState::Next(
            ln[i + 1],
        ) by {
            assert(ln[i] == lp[i]);
            if i < lp.len() - 1 {
                assert(ln[i + 1] == lp[i + 1]);
                assert(lp[i] != prev);
                assert(lp[i] != c);
            }
        }
        assert(ln.last() == c);
        assert(ln.no_duplicates()) by {
            assert forall|i: int, j: int| 0 <= i < ln.len() && 0 <= j < ln.len() && i != j implies ln[i] != ln[j] by {
                if i < lp.len() && j < lp.len() {
                    assert(ln[i] == lp[i] && ln[j] == lp[j]);
                } else if i < lp.len() {
                    assert(ln[i] == lp[i]);
                } else if j < lp.len() {
                    assert(ln[j] == lp[j]);
                }
            }
        }
        assert forall|i: int| 0 <= i < news.len() implies #[trigger] news[i] >= 2 by {
            if i < p.len() {
                assert(news[i] == p[i]);
            }
        }
    }
}

proof fn lemma_follow_stable(t: Map<u32, u32>, c: u32, n: nat, m: nat)
    requires
        stops_within(t, c, n),
        m >= n,
    ensures
        follow(t, c, m) == follow(t, c, n),
    decreases n,
{
    if let ClusterState::Next(d) = state_of(t[c]) {
        let f = follow(t, d, (n - 1) as nat);
        assert(follow(t, c, n) == seq![c] + f);
        assert forall|i: int| 0 <= i < f.len() implies t.contains_key(#[trigger] f[i]) by {
            assert(f[i] == follow(t, c, n)[i + 1]);
        }
        lemma_follow_stable(t, d, (n - 1) as nat, (m - 1) as nat);
    }
}

/// One step along a chain.
pub proof fn lemma_chain_step(t: Map<u32, u32>, c: u32)
    requires
        chain_in_table(t, c),
    ensures
        t.contains_key(c),
        chain(t, c).len() > 0,
        chain(t, c)[0] == c,
        state_of(t[c]) matches ClusterState::Next(d) ==> chain_in_table(t, d) && chain(t, c) == seq![c] + chain(t, d),
        !(state_of(t[c]) is Next) ==> chain(t, c) == seq![c],
{
    let n = choose|n: nat| stops_within(t, c, n);
    assert(stops_within(t, c, n));
    assert(n > 0);
    assert(follow(t, c, n)[0] == c);
    if let ClusterState::Next(d) = state_of(t[c]) {
        let f = follow(t, d, (n - 1) as nat);
        assert(follow(t, c, n) == seq![c] + f);
        assert forall|i: int| 0 <= i < f.len() implies t.contains_key(#[trigger] f[i]) by {
            assert(f[i] == follow(t, c, n)[i + 1]);
        }
        assert(stops_within(t, d, (n - 1) as nat));
        let k = choose|k: nat| stops_within(t, d, k);
        assert(stops_within(t, d, k));
        if k >= (n - 1) as nat {
            lemma_follow_stable(t, d, (n - 1) as nat, k);
        } else {
            lemma_follow_stable(t, d, k, (n - 1) as nat);
        }
    }
}

/// The chain from `c` is a chain in the table, and the only one that starts at `c`.
pub proof fn lemma_chain_is_chain(t: Map<u32, u32>, c: u32)
    requires
        chain_in_table(t, c),
    ensures
        is_chain(t, chain(t, c)),
        forall|i: int| 0 <= i < chain(t, c).len() ==> chain_in_table(t, #[trigger] chain(t, c)[i]) && chain(t, chain(t, c)[i])
            == chain(t, c).skip(i),
    decreases chain(t, c).len(),
{
    lemma_chain_step(t, c);
    let l = chain(t, c);
    if let ClusterState::Next(d) = state_of(t[c]) {
        lemma_chain_is_chain(t, d);
        let r = chain(t, d);
        assert(l == seq![c] + r);
        assert forall|i: int| 0 <= i < l.len() implies chain_in_table(t, #[trigger] l[i]) && chain(t, l[i]) == l.skip(i) by {
            if i == 0 {
                assert(l.skip(0) =~= l);
            } else {
                assert(l[i] == r[i - 1]);
                assert(l.skip(i) =~= r.skip(i - 1));
            }
        }
        assert forall|i: int| 0 <= i < l.len() - 1 implies state_of(t[#[trigger] l[i]]) == ClusterState::Next(l[i + 1]) by {
            if i > 0 {
                assert(l[i] == r[i - 1]);
                assert(l[i + 1] == r[i]);
            }
        }
        assert(l.last() == r.last());
    } else {
        assert(l.skip(0) =~= l);
    }
}

/// The clusters of a chain are distinct.
pub proof fn lemma_chain_distinct(t: Map<u32, u32>, c: u32)
    requires
        chain_in_table(t, c),
    ensures
        chain(t, c).no_duplicates(),
    decreases chain(t, c).len(),
{
    lemma_chain_step(t, c);
    lemma_chain_is_chain(t, c);
    let l = chain(t, c);
    if let ClusterState::Next(d) = state_of(t[c]) {
        lemma_chain_distinct(t, d);
        let r = chain(t, d);
        lemma_chain_is_chain(t, d);
        assert forall|i: int, j: int| 0 <= i < l.len() && 0 <= j < l.len() && i != j implies l[i] != l[j] by {
            if i > 0 && j > 0 {
                assert(l[i] == r[i - 1] && l[j] == r[j - 1]);
            } else {
                let k = if i == 0 { j } else { i };
                if l[k] == c {
                    assert(chain(t, l[k]) == l.skip(k));
                    assert(l.skip(k).len() < l.len());
                }
            }
        }
    }
}

/// A chain in the table is the chain from its first cluster.
pub proof fn lemma_is_chain_unique(t: Map<u32, u32>, s: Seq<u32>)
    requires
        is_chain(t, s),
    ensures
        chain_in_table(t, s[0]),
        chain(t, s[0]) == s,
    decreases s.len(),
{
    if s.len() == 1 {
        assert(follow(t, s[0], 2) == seq![s[0]]);
        assert(stops_within(t, s[0], 2));
        lemma_chain_step(t, s[0]);
        assert(chain(t, s[0]) =~= s);
    } else {
        let r = s.drop_first();
        assert forall|i: int| 0 <= i < r.len() - 1 implies state_of(t[#[trigger] r[i]]) == ClusterState::Next(r[i + 1]) by {
            assert(r[i] == s[i + 1]);
        }
        assert(r.last() == s.last());
        lemma_is_chain_unique(t, r);
        let n = choose|n: nat| stops_within(t, r[0], n);
        assert(stops_within(t, r[0], n));
        let f = follow(t, r[0], n);
        assert(follow(t, s[0], n + 1) == seq![s[0]] + f);
        assert forall|i: int| 0 <= i < follow(t, s[0], n + 1).len() implies t.contains_key(#[trigger] follow(t, s[0], n + 1)[i]) by {
            if i > 0 {
                assert(follow(t, s[0], n + 1)[i] == f[i - 1]);
            }
        }
        assert(stops_within(t, s[0], n + 1));
        lemma_chain_step(t, s[0]);
        assert(chain(t, s[0]) =~= s);
    }
}

/// The state that a raw table value stands for.
pub open spec fn state_of(v: u32) -> ClusterState {
    if v >= 0x0FFFFFF8 {
        ClusterState::End
    } else if v == 0 {
        ClusterState::Free
    } else {
        ClusterState::Next(v)
    }
}

/// The raw value that `set_next_cluster` stores for a state, as the table reads it back.
pub open spec fn value_of(state: ClusterState) -> u32 {
    match state {
        ClusterState::Free => 0,
        ClusterState::Next(c) => c & 0x0FFFFFFF,
        ClusterState::End => END_OF_CHAIN,
    }
}

/// The table entry stored little-endian at `o` in `s`, without its top four bits.
pub open spec fn decode_entry(s: Seq<u8>, o: int) -> u32 {
    ((s[o] as u32) | ((s[o + 1] as u32) << 8u32) | ((s[o + 2] as u32) << 16u32) | ((s[o + 3] as u32)
        << 24u32)) & 0x0FFFFFFFu32
}

proof fn lemma_decode_encode(v: u32, b0: u8, b1: u8, b2: u8, b3: u8)
    requires
        b0 == (v & 0xFF) as u8,
        b1 == ((v >> 8u32) & 0xFF) as u8,
        b2 == ((v >> 16u32) & 0xFF) as u8,
        b3 == ((v >> 24u32) & 0xFF) as u8,
    ensures
        ((b0 as u32) | ((b1 as u32) << 8u32) | ((b2 as u32) << 16u32) | ((b3 as u32) << 24u32)) & 0x0FFFFFFFu32
            == v & 0x0FFFFFFF,
{
    assert(((b0 as u32) | ((b1 as u32) << 8u32) | ((b2 as u32) << 16u32) | ((b3 as u32) << 24u32)) & 0x0FFFFFFFu32
        == v & 0x0FFFFFFF) by (bit_vector)
        requires
            b0 == (v & 0xFF) as u8,
            b1 == ((v >> 8u32) & 0xFF) as u8,
            b2 == ((v >> 16u32) & 0xFF) as u8,
            b3 == ((v >> 24u32) & 0xFF) as u8,
    ;
}

impl<D: Device> FAT<D> {
    /// The number of clusters that the table describes.
    pub closed spec fn top(&self) -> u32 {
        (self.fat_size * self.bytes_per_sector / 4) as u32
    }

    pub closed spec fn spec_bytes_per_sector(&self) -> u64 {
        self.bytes_per_sector
    }

    /// The drive being read and written.
    pub closed spec fn spec_drive(&self) -> D {
        self.drive
    }

    /// Where the search for a free cluster starts.
    pub closed spec fn search_start(&self) -> u32 {
        if self.next_free_cluster == NO_CLUSTER {
            2
        } else {
            self.next_free_cluster
        }
    }

    /// Sector `s` of the first copy of the table, as the cache presents it.
    spec fn sector_view(&self, s: int) -> Seq<u8> {
        if s == self.buffer_sector_offset {
            self.buffer@
        } else {
            self.drive.block(self.first_fat_sector + s)
        }
    }

    /// The table sector that holds the entry of cluster `c` is the cached one, so reading or
    /// changing that entry needs no drive access.
    pub closed spec fn caches_entry_of(&self, c: u32) -> bool {
        self.buffer_sector_offset == self.sector_of(c as int)
    }

    /// The table entries of the clusters from `lo` up to `hi` lie in the cached table sector.
    pub open spec fn range_cached(&self, lo: int, hi: int) -> bool {
        forall|c: u32| lo <= c < hi ==> #[trigger] self.caches_entry_of(c)
    }

    /// `self` caches the same table sector as `other`, over the same drive.
    pub closed spec fn same_cache(&self, other: Self) -> bool {
        &&& self.buffer_sector_offset == other.buffer_sector_offset
        &&& self.bytes_per_sector == other.bytes_per_sector
        &&& self.drive == other.drive
    }

    /// Tables that cache the same sector cache the same entries, and read the same drive.
    pub proof fn lemma_same_cache(&self, other: Self)
        requires
            self.same_cache(other),
        ensures
            forall|c: u32| #[trigger] self.caches_entry_of(c) == other.caches_entry_of(c),
            self.spec_drive() == other.spec_drive(),
    {
    }

    /// The table entries of all the clusters `l` lie in the cached table sector.
    pub open spec fn chain_cached(&self, l: Seq<u32>) -> bool {
        forall|i: int| 0 <= i < l.len() ==> #[trigger] self.caches_entry_of(l[i])
    }

    /// The sector of the table that holds the entry of cluster `c`.
    spec fn sector_of(&self, c: int) -> int {
        (c * 4) / (self.bytes_per_sector as int)
    }

    /// Where in its sector the entry of cluster `c` starts.
    spec fn offset_of(&self, c: int) -> int {
        (c * 4) % (self.bytes_per_sector as int)
    }

    /// The table: the entry of each cluster below `top`, as the cache presents it.
    pub closed spec fn table(&self) -> Map<u32, u32> {
        Map::new(
            |c: u32| c < self.top(),
            |c: u32| decode_entry(self.sector_view(self.sector_of(c as int)), self.offset_of(c as int)),
        )
    }

    /// The sectors of the first copy of the table hold a sector's worth of bytes each.
    pub open spec fn drive_sized(&self) -> bool {
        forall|s: int|
            0 <= s < self.spec_fat_size() ==> #[trigger] self.spec_drive().block(self.spec_first_fat_sector() + s).len()
                == self.spec_bytes_per_sector()
    }

    pub closed spec fn spec_fat_size(&self) -> u64 {
        self.fat_size
    }

    pub closed spec fn spec_first_fat_sector(&self) -> u64 {
        self.first_fat_sector
    }

    pub closed spec fn wf(&self) -> bool {
        &&& 0 < self.bytes_per_sector <= 0xFFFF
        &&& self.bytes_per_sector % 4 == 0
        &&& self.buffer@.len() == self.bytes_per_sector
        &&& 1 <= self.num_fats <= 0xFF
        &&& self.fat_size <= 0xFFFF_FFFF
        &&& self.first_fat_sector <= 0xFFFF
        &&& self.buffer_sector_offset == NO_SECTOR || self.buffer_sector_offset < self.fat_size
        &&& self.buffer_sector_offset == NO_SECTOR ==> !self.buffer_modified
        &&& (self.buffer_sector_offset != NO_SECTOR && !self.buffer_modified) ==> self.buffer@
            == self.drive.block(self.first_fat_sector + self.buffer_sector_offset)
        &&& forall|s: int|
            0 <= s < self.fat_size && s != self.buffer_sector_offset ==> #[trigger] self.drive.block(
                self.first_fat_sector + s,
            ).len() == self.bytes_per_sector
        &&& self.first_data_sector == self.first_fat_sector + self.num_fats * self.fat_size
        &&& self.bytes_per_cluster == self.sectors_per_cluster * self.bytes_per_sector
        &&& self.sectors_per_cluster <= 0xFF
    }

    proof fn lemma_sector_in_range(&self, c: u32)
        requires
            self.wf(),
            c < self.top(),
        ensures
            0 <= self.sector_of(c as int) < self.fat_size,
            0 <= self.offset_of(c as int),
            self.offset_of(c as int) + 3 < self.bytes_per_sector,
            self.offset_of(c as int) % 4 == 0,
            self.sector_of(c as int) * (self.bytes_per_sector as int) + self.offset_of(c as int) == c * 4,
    {
        let bps = self.bytes_per_sector as int;
        assert(c * 4 < self.fat_size * bps) by (nonlinear_arith)
            requires
                c < (self.fat_size * bps / 4) as u32,
                (self.fat_size * bps / 4) as u32 <= self.fat_size * bps / 4,
        ;
        assert(self.sector_of(c as int) < self.fat_size) by (nonlinear_arith)
            requires
                c * 4 < self.fat_size * bps,
                bps > 0,
                self.sector_of(c as int) == (c * 4) / bps,
        ;
        let q = (c * 4) / bps;
        let r = (c * 4) % bps;
        vstd::arithmetic::div_mod::lemma_fundamental_div_mod(c * 4, bps);
        vstd::arithmetic::div_mod::lemma_mod_bound(c * 4, bps);
        let m = bps / 4;
        assert(bps == 4 * m);
        assert(r == 4 * (c - m * q)) by (nonlinear_arith)
            requires
                c * 4 == bps * q + r,
                bps == 4 * m,
        ;
        assert(r + 3 < bps);
        assert(r % 4 == 0);
    }

    /// Writes the cached sector to every copy of the table, if it was changed.
    fn flush_buffer(&mut self) -> (r: Result<(), Status>)
        requires
            old(self).wf(),
        ensures
            final(self).same_layout(*old(self)),
            r is Ok ==> final(self).wf() && final(self).table() == old(self).table()
                && !final(self).buffer_modified && final(self).buffer_sector_offset == old(self).buffer_sector_offset
                && final(self).buffer == old(self).buffer
                && final(self).next_free_cluster == old(self).next_free_cluster,
            !old(self).buffer_modified ==> r is Ok && *final(self) == *old(self),
            final(self).data_unchanged(*old(self)),
    {
        if self.buffer_modified {
            let ghost old_self = *self;
            let mut sector = self.buffer_sector_offset + self.first_fat_sector;
            let mut k: u64 = 0;
            while k < self.num_fats
                invariant
                    old_self.wf(),
                    old_self.buffer_modified,
                    self.same_layout(old_self),
                    self.buffer == old_self.buffer,
                    self.buffer_modified,
                    self.buffer_sector_offset == old_self.buffer_sector_offset,
                    self.next_free_cluster == old_self.next_free_cluster,
                    k <= self.num_fats,
                    sector == self.first_fat_sector + self.buffer_sector_offset + k * self.fat_size,
                    k > 0 ==> self.drive.block(self.first_fat_sector + self.buffer_sector_offset) == self.buffer@,
                    forall|a: int|
                        a < self.first_fat_sector + self.fat_size && a != self.first_fat_sector
                            + self.buffer_sector_offset ==> #[trigger] self.drive.block(a) == old_self.drive.block(a),
                    self.data_unchanged(old_self),
                    old_self == *old(self),
                decreases self.num_fats - k,
            {
                proof {
                    assert(sector + self.fat_size <= 0xFFFF + 0xFFFF_FFFF * 0x100) by (nonlinear_arith)
                        requires
                            sector == self.first_fat_sector + self.buffer_sector_offset + k * self.fat_size,
                            self.first_fat_sector <= 0xFFFF,
                            self.buffer_sector_offset < self.fat_size,
                            self.fat_size <= 0xFFFF_FFFF,
                            k < self.num_fats,
                            self.num_fats <= 0xFF,
                    ;
                    assert(k > 0 ==> sector >= self.first_fat_sector + self.fat_size) by (nonlinear_arith)
                        requires
                            sector == self.first_fat_sector + self.buffer_sector_offset + k * self.fat_size,
                    ;
                    assert(sector < self.first_fat_sector + self.num_fats * self.fat_size) by (nonlinear_arith)
                        requires
                            sector == self.first_fat_sector + self.buffer_sector_offset + k * self.fat_size,
                            self.buffer_sector_offset < self.fat_size,
                            k < self.num_fats,
                    ;
                }
                let ghost before_write = *self;
                let r = self.drive.write(sector, &self.buffer);
                proof {
                    assert forall|a: int| a >= old_self.spec_first_data_sector() implies #[trigger] self.spec_drive().block(a)
                        == old_self.spec_drive().block(a) by {
                        assert(a != sector);
                        assert(self.spec_drive().block(a) == before_write.spec_drive().block(a));
                    }
                }
                if r.is_err() {
                    return r;
                }
                proof {
                    assert(sector + self.fat_size == self.first_fat_sector + self.buffer_sector_offset + (k + 1) * self.fat_size)
                        by (nonlinear_arith)
                        requires
                            sector == self.first_fat_sector + self.buffer_sector_offset + k * self.fat_size,
                    ;
                }
                sector = sector + self.fat_size;
                k = k + 1;
            }
            assert(self.data_unchanged(old_self));
            let ghost before_clear = *self;
            self.buffer_modified = false;
            assert(self.drive == before_clear.drive);
            assert(old_self == *old(self));
            assert forall|a: int| a >= old(self).spec_first_data_sector() implies #[trigger] self.spec_drive().block(a)
                == old(self).spec_drive().block(a) by {
                assert(before_clear.spec_drive().block(a) == old_self.spec_drive().block(a));
            }
            proof {
                assert forall|s: int| 0 <= s < self.fat_size && s != self.buffer_sector_offset implies #[trigger] self.drive.block(
                    self.first_fat_sector + s,
                ) == old_self.drive.block(self.first_fat_sector + s) by {}
                assert forall|c: u32| #[trigger] self.table().contains_key(c) implies self.table()[c] == old_self.table()[c] by {
                    old_self.lemma_sector_in_range(c);
                }
                assert(self.table() =~= old_self.table());
            }
        }
        Ok(())
    }

    /// Makes sector `new_sector_offset` of the table the cached one, writing back the
    /// cached sector first if it was changed.
    fn set_buffer_sector(&mut self, new_sector_offset: u64) -> (r: Result<(), Status>)
        requires
            old(self).wf(),
            new_sector_offset < old(self).fat_size,
        ensures
            final(self).same_layout(*old(self)),
            r is Ok ==> final(self).wf() && final(self).table() == old(self).table()
                && final(self).buffer_sector_offset == new_sector_offset
                && final(self).next_free_cluster == old(self).next_free_cluster,
            old(self).buffer_sector_offset == new_sector_offset ==> r is Ok && *final(self) == *old(self),
            final(self).data_unchanged(*old(self)),
    {
        if self.buffer_sector_offset == new_sector_offset {
            return Ok(());
        }
        let ghost old_self = *self;
        match self.flush_buffer() {
            Ok(()) => {},
            Err(e) => {
                return Err(e);
            },
        }
        let ghost flushed = *self;
        self.buffer_sector_offset = new_sector_offset;
        let r = self.drive.read(new_sector_offset + self.first_fat_sector, &mut self.buffer);
        proof {
            assert forall|a: int| a >= old_self.spec_first_data_sector() implies #[trigger] self.spec_drive().block(a)
                == old_self.spec_drive().block(a) by {
                assert(self.spec_drive().block(a) == flushed.spec_drive().block(a));
            }
            if r is Ok {
                assert(self.buffer@ == flushed.drive.block(self.first_fat_sector + new_sector_offset));
                assert forall|s: int|
                    0 <= s < self.fat_size && s != self.buffer_sector_offset implies #[trigger] self.drive.block(
                        self.first_fat_sector + s,
                    ).len() == self.bytes_per_sector by {
                    if s == flushed.buffer_sector_offset {
                        assert(flushed.buffer@ == flushed.drive.block(self.first_fat_sector + s));
                    }
                }
                assert forall|c: u32| #[trigger] self.table().contains_key(c) implies self.table()[c] == old_self.table()[c] by {
                    old_self.lemma_sector_in_range(c);
                    let sc = self.sector_of(c as int);
                    if sc == flushed.buffer_sector_offset {
                        assert(flushed.buffer@ == flushed.drive.block(self.first_fat_sector + sc));
                    }
                }
                assert(self.table() =~= old_self.table());
            }
        }
        r
    }

    /// What the table says follows cluster `cluster`.
    fn get_next_cluster(&mut self, cluster: Cluster) -> (r: Result<ClusterState, Status>)
        requires
            old(self).wf(),
            cluster < old(self).top(),
        ensures
            final(self).same_layout(*old(self)),
            r is Ok ==> final(self).wf() && final(self).table() == old(self).table()
                && final(self).next_free_cluster == old(self).next_free_cluster,
            r matches Ok(state) ==> state == state_of(old(self).table()[cluster]),
            old(self).caches_entry_of(cluster) ==> r is Ok && *final(self) == *old(self),
            final(self).data_unchanged(*old(self)),
    {
        proof {
            self.lemma_sector_in_range(cluster);
        }
        let sector_offset = (cluster as u64 * 4) / self.bytes_per_sector;
        let offset = ((cluster as u64 * 4) % self.bytes_per_sector) as usize;
        match self.set_buffer_sector(sector_offset) {
            Ok(()) => {},
            Err(e) => {
                return Err(e);
            },
        }
        let next_cluster = ((self.buffer[offset] as u32) | ((self.buffer[offset + 1] as u32) << 8u32)
            | ((self.buffer[offset + 2] as u32) << 16u32) | ((self.buffer[offset + 3] as u32) << 24u32))
            & 0x0FFFFFFFu32;
        proof {
            assert(next_cluster == self.table()[cluster]);
        }
        Ok(
            if next_cluster >= 0x0FFFFFF8 {
                ClusterState::End
            } else if next_cluster == 0 {
                ClusterState::Free
            } else {
                ClusterState::Next(next_cluster)
            },
        )
    }

    /// Records in the table what follows cluster `cluster`.
    pub(crate) fn set_next_cluster(&mut self, cluster: Cluster, next_cluster: ClusterState) -> (r: Result<(), Status>)
        requires
            old(self).wf(),
            cluster < old(self).top(),
        ensures
            final(self).same_layout(*old(self)),
            r is Ok ==> final(self).wf() && final(self).table() == old(self).table().insert(cluster, value_of(next_cluster))
                && final(self).spec_next_free_cluster() == old(self).spec_next_free_cluster(),
            old(self).caches_entry_of(cluster) ==> r is Ok && final(self).caches_entry_of(cluster)
                && final(self).spec_drive() == old(self).spec_drive(),
            final(self).data_unchanged(*old(self)),
    {
        let ghost requested = next_cluster;
        let next_cluster = match next_cluster {
            ClusterState::Free => 0,
            ClusterState::Next(next_cluster) => next_cluster,
            ClusterState::End => 0x0FFFFFFF,
        };
        proof {
            self.lemma_sector_in_range(cluster);
        }
        let sector_offset = (cluster as u64 * 4) / self.bytes_per_sector;
        let offset = ((cluster as u64 * 4) % self.bytes_per_sector) as usize;
        let ghost old_self = *self;
        match self.set_buffer_sector(sector_offset) {
            Ok(()) => {},
            Err(e) => {
                return Err(e);
            },
        }
        let ghost cached = *self;
        let b0 = (next_cluster & 0xFF) as u8;
        let b1 = ((next_cluster >> 8u32) & 0xFF) as u8;
        let b2 = ((next_cluster >> 16u32) & 0xFF) as u8;
        let b3 = ((next_cluster >> 24u32) & 0xFF) as u8;
        self.buffer.set(offset, b0);
        self.buffer.set(offset + 1, b1);
        self.buffer.set(offset + 2, b2);
        self.buffer.set(offset + 3, b3);
        self.buffer_modified = true;
        proof {
            lemma_decode_encode(next_cluster, b0, b1, b2, b3);
            assert(0u32 & 0x0FFFFFFFu32 == 0u32) by (bit_vector);
            assert(0x0FFFFFFFu32 & 0x0FFFFFFFu32 == 0x0FFFFFFFu32) by (bit_vector);
            assert(next_cluster & 0x0FFFFFFF == value_of(requested));
            let expected = old_self.table().insert(cluster, value_of(requested));
            assert forall|c: u32| #[trigger] self.table().contains_key(c) implies self.table()[c] == expected[c] by {
                old_self.lemma_sector_in_range(c);
                assert(cached.table().contains_key(c));
                assert(expected[c] == (if c == cluster { value_of(requested) } else { cached.table()[c] }));
                if c != cluster && self.sector_of(c as int) != sector_offset {
                    assert(self.sector_view(self.sector_of(c as int)) == cached.sector_view(self.sector_of(c as int)));
                } else if c != cluster && self.sector_of(c as int) == sector_offset {
                    let o = self.offset_of(c as int);
                    assert(o != offset) by (nonlinear_arith)
                        requires
                            self.sector_of(c as int) * (self.bytes_per_sector as int) + o == c * 4,
                            self.sector_of(cluster as int) * (self.bytes_per_sector as int) + offset == cluster * 4,
                            self.sector_of(c as int) == self.sector_of(cluster as int),
                            c != cluster,
                    ;
                    assert(o + 4 <= offset || offset + 4 <= o);
                    assert(self.buffer@[o] == cached.buffer@[o]);
                    assert(self.buffer@[o + 1] == cached.buffer@[o + 1]);
                    assert(self.buffer@[o + 2] == cached.buffer@[o + 2]);
                    assert(self.buffer@[o + 3] == cached.buffer@[o + 3]);
                } else if c == cluster {
                    assert(self.offset_of(c as int) == offset);
                    assert(self.buffer@[offset as int] == b0);
                    assert(self.buffer@[offset + 1] == b1);
                    assert(self.buffer@[offset + 2] == b2);
                    assert(self.buffer@[offset + 3] == b3);
                }
            }
            assert(self.table() =~= expected);
            assert(self.drive == cached.drive);
            assert forall|a: int| a >= old(self).spec_first_data_sector() implies #[trigger] self.spec_drive().block(a)
                == old(self).spec_drive().block(a) by {
                assert(cached.spec_drive().block(a) == old(self).spec_drive().block(a));
            }
        }
        Ok(())
    }

    /// The cluster where the next search for a free cluster starts, or `NO_CLUSTER`.
    pub closed spec fn spec_next_free_cluster(&self) -> u32 {
        self.next_free_cluster
    }

    /// A table over `drive` with the given geometry, nothing cached yet.
    pub fn new(
        drive: D,
        sectors_per_cluster: u8,
        reserved_sector_count: u16,
        num_fats: u8,
        fat_size: u32,
        bytes_per_sector: u16,
    ) -> (r: Self)
        requires
            reserved_sector_count + num_fats * fat_size <= u32::MAX,
        ensures
            r.spec_drive() == drive,
            r.spec_bytes_per_cluster() == sectors_per_cluster * bytes_per_sector,
            r.spec_bytes_per_sector() == bytes_per_sector,
            r.spec_fat_size() == fat_size,
            r.spec_first_fat_sector() == reserved_sector_count,
            r.spec_next_free_cluster() == NO_CLUSTER,
            r.spec_first_data_sector() == reserved_sector_count + num_fats * fat_size,
            r.spec_sectors_per_cluster() == sectors_per_cluster,
            (num_fats >= 1 && bytes_per_sector > 0 && bytes_per_sector % 4 == 0 && r.drive_sized()) ==> r.wf(),
    {
        let mut buffer: Vec<u8> = Vec::with_capacity(bytes_per_sector as usize);
        let mut i: usize = 0;
        while i < bytes_per_sector as usize
            invariant
                buffer@.len() == i,
                i <= bytes_per_sector,
            decreases bytes_per_sector - i,
        {
            buffer.push(0);
            i = i + 1;
        }
        proof {
            assert((sectors_per_cluster as usize) * (bytes_per_sector as usize) <= 255 * 65535) by (nonlinear_arith)
                requires
                    sectors_per_cluster <= 255,
                    bytes_per_sector <= 65535,
            ;
        }
        let r = FAT {
            drive,
            sectors_per_cluster: sectors_per_cluster as u32,
            bytes_per_cluster: (sectors_per_cluster as usize) * (bytes_per_sector as usize),
            first_fat_sector: reserved_sector_count as u64,
            num_fats: num_fats as u64,
            fat_size: fat_size as u64,
            bytes_per_sector: bytes_per_sector as u64,
            first_data_sector: reserved_sector_count as u32 + (num_fats as u32) * fat_size,
            buffer,
            buffer_modified: false,
            buffer_sector_offset: NO_SECTOR,
            next_free_cluster: NO_CLUSTER,
        };
        proof {
            if num_fats >= 1 && bytes_per_sector > 0 && bytes_per_sector % 4 == 0 && r.drive_sized() {
                assert(r.first_data_sector == r.first_fat_sector + r.num_fats * r.fat_size);
                assert(r.bytes_per_cluster == r.sectors_per_cluster * r.bytes_per_sector);
                assert forall|s: int|
                    0 <= s < r.fat_size && s != r.buffer_sector_offset implies #[trigger] r.drive.block(
                        r.first_fat_sector + s,
                    ).len() == r.bytes_per_sector by {
                    assert(r.spec_drive().block(r.spec_first_fat_sector() + s).len() == r.spec_bytes_per_sector());
                }
            }
        }
        r
    }

    pub closed spec fn spec_bytes_per_cluster(&self) -> usize {
        self.bytes_per_cluster
    }

    pub closed spec fn spec_first_data_sector(&self) -> u32 {
        self.first_data_sector
    }

    pub closed spec fn spec_sectors_per_cluster(&self) -> u32 {
        self.sectors_per_cluster
    }

    /// The size of a cluster, in bytes.
    pub fn bytes_per_cluster(&self) -> (r: usize)
        ensures
            r == self.spec_bytes_per_cluster(),
    {
        self.bytes_per_cluster
    }

    /// No change to the cached table sector waits to be written back: the drive holds the
    /// table as the cache presents it.
    pub closed spec fn synced(&self) -> bool {
        !self.buffer_modified
    }

    /// Writes the cached table sector back to every copy of the table, if it was changed.
    pub fn flush(&mut self) -> (r: Result<(), Status>)
        requires
            old(self).wf(),
        ensures
            final(self).same_layout(*old(self)),
            r is Ok ==> final(self).wf() && final(self).table() == old(self).table() && final(self).synced()
                && final(self).search_start() == old(self).search_start(),
            old(self).synced() ==> r is Ok && *final(self) == *old(self),
            final(self).data_unchanged(*old(self)),
    {
        self.flush_buffer()
    }

    /// Gives up the table and hands back the drive.
    pub fn into_drive(self) -> (r: D)
        ensures
            r == self.spec_drive(),
    {
        self.drive
    }

    /// The first sector of the data of cluster `cluster`.
    pub open spec fn sector_of_cluster(&self, cluster: u32) -> int {
        (cluster - 2) * self.spec_sectors_per_cluster() + self.spec_first_data_sector()
    }

    fn cluster_to_sector(&self, cluster: u32) -> (r: u64)
        requires
            cluster >= 2,
            self.sector_of_cluster(cluster) <= u32::MAX,
        ensures
            r == self.sector_of_cluster(cluster),
    {
        (((cluster - 2) * self.sectors_per_cluster) + self.first_data_sector) as u64
    }

    /// Reads the data of cluster `cluster` into `buffer`.
    pub fn read_cluster(&mut self, cluster: u32, buffer: &mut Vec<u8>) -> (r: Result<(), Status>)
        requires
            old(self).wf(),
            cluster >= 2,
            old(self).sector_of_cluster(cluster) <= u32::MAX,
        ensures
            final(self).wf(),
            final(self).table() == old(self).table(),
            final(self).spec_next_free_cluster() == old(self).spec_next_free_cluster(),
            final(self).same_layout(*old(self)),
            final(buffer)@.len() == old(buffer)@.len(),
            r is Ok && old(self).spec_drive().block(old(self).sector_of_cluster(cluster)).len() == old(buffer)@.len()
                ==> final(buffer)@ == old(self).spec_drive().block(old(self).sector_of_cluster(cluster)),
            forall|a: int| #[trigger] final(self).spec_drive().block(a) == old(self).spec_drive().block(a),
    {
        let sector = self.cluster_to_sector(cluster);
        let ghost old_self = *self;
        let r = self.drive.read(sector, buffer);
        proof {
            assert forall|c: u32| #[trigger] self.table().contains_key(c) implies self.table()[c] == old_self.table()[c] by {
                old_self.lemma_sector_in_range(c);
            }
            assert(self.table() =~= old_self.table());
        }
        r
    }

    /// Writes `buffer` as the data of cluster `cluster`.
    pub fn write_cluster(&mut self, cluster: u32, buffer: &Vec<u8>) -> (r: Result<(), Status>)
        requires
            old(self).wf(),
            cluster >= 2,
            old(self).sector_of_cluster(cluster) <= u32::MAX,
        ensures
            final(self).wf(),
            final(self).table() == old(self).table(),
            final(self).spec_next_free_cluster() == old(self).spec_next_free_cluster(),
            final(self).same_layout(*old(self)),
            forall|a: int| a != old(self).sector_of_cluster(cluster) ==> #[trigger] final(self).spec_drive().block(a)
                == old(self).spec_drive().block(a),
            r is Ok ==> final(self).spec_drive().block(old(self).sector_of_cluster(cluster)) == buffer@,
    {
        let sector = self.cluster_to_sector(cluster);
        let ghost old_self = *self;
        proof {
            assert(sector >= self.first_fat_sector + self.fat_size) by (nonlinear_arith)
                requires
                    sector == (cluster - 2) * self.sectors_per_cluster + self.first_data_sector,
                    cluster >= 2,
                    self.first_data_sector == self.first_fat_sector + self.num_fats * self.fat_size,
                    self.num_fats >= 1,
            ;
        }
        let r = self.drive.write(sector, buffer);
        proof {
            assert forall|c: u32| #[trigger] self.table().contains_key(c) implies self.table()[c] == old_self.table()[c] by {
                old_self.lemma_sector_in_range(c);
            }
            assert(self.table() =~= old_self.table());
        }
        r
    }

    /// Finds the first free cluster from where the last search left off.
    fn find_next_free_cluster(&mut self) -> (r: Result<Cluster, Status>)
        requires
            old(self).wf(),
        ensures
            final(self).same_layout(*old(self)),
            r is Ok ==> final(self).wf() && final(self).table() == old(self).table(),
            r matches Ok(c) ==> first_free(old(self).table(), old(self).search_start() as int, old(self).top() as int)
                == Some(c) && final(self).spec_next_free_cluster() == c,
            first_free(old(self).table(), old(self).search_start() as int, old(self).top() as int) is None
                ==> r is Err,
            old(self).range_cached(old(self).search_start() as int, old(self).top() as int) && first_free(
                old(self).table(),
                old(self).search_start() as int,
                old(self).top() as int,
            ) is None ==> r == Err::<Cluster, Status>(Status::OutOfResource),
            first_free(old(self).table(), old(self).search_start() as int, old(self).top() as int) matches Some(c)
                ==> (old(self).range_cached(old(self).search_start() as int, c + 1) ==> r == Ok::<Cluster, Status>(c)
                && final(self).same_cache(*old(self))),
            final(self).data_unchanged(*old(self)),
    {
        let ghost t = self.table();
        let ghost start = self.search_start() as int;
        let ghost cached = match first_free(t, start, old(self).top() as int) {
            Some(c) => old(self).range_cached(start, c + 1),
            None => old(self).range_cached(start, old(self).top() as int),
        };
        if self.next_free_cluster == 0xFFFFFFFF {
            self.next_free_cluster = 2;
        }
        proof {
            assert(self.fat_size * self.bytes_per_sector <= 0xFFFF_FFFF * 0xFFFF) by (nonlinear_arith)
                requires
                    self.fat_size <= 0xFFFF_FFFF,
                    self.bytes_per_sector <= 0xFFFF,
            ;
        }
        let top = #[verifier::truncate] (((self.fat_size * self.bytes_per_sector) / 4) as u32);
        proof {
            assert(self.table() =~= t);
            assert(top == self.top());
            lemma_first_free(t, start, top as int);
        }
        while self.next_free_cluster < top
            invariant
                self.wf(),
                self.table() == t,
                t == old(self).table(),
                start == old(self).search_start(),
                top == old(self).top(),
                top == self.top(),
                start <= self.next_free_cluster,
                first_free(t, start, top as int) == first_free(t, self.next_free_cluster as int, top as int),
                self.same_layout(*old(self)),
                self.data_unchanged(*old(self)),
                cached == match first_free(t, start, top as int) {
                    Some(c) => old(self).range_cached(start, c + 1),
                    None => old(self).range_cached(start, top as int),
                },
                cached ==> self.buffer_sector_offset == old(self).buffer_sector_offset && self.drive == old(self).drive,
            decreases top - self.next_free_cluster,
        {
            proof {
                if cached {
                    lemma_first_free(t, self.next_free_cluster as int, top as int);
                    assert(old(self).caches_entry_of(self.next_free_cluster));
                }
            }
            match self.get_next_cluster(self.next_free_cluster) {
                Ok(ClusterState::Free) => {
                    return Ok(self.next_free_cluster);
                },
                Ok(_) => {
                    let ghost prev = *self;
                    self.next_free_cluster = self.next_free_cluster + 1;
                    proof {
                        assert(self.drive == prev.drive);
                        assert forall|a: int| a >= old(self).spec_first_data_sector() implies #[trigger] self.spec_drive().block(
                            a,
                        ) == old(self).spec_drive().block(a) by {
                            assert(prev.spec_drive().block(a) == old(self).spec_drive().block(a));
                        }
                    }
                },
                Err(e) => {
                    return Err(e);
                },
            }
        }
        Err(Status::OutOfResource)
    }

    /// Takes the first free cluster from where the last search left off, and makes it a
    /// chain of its own.
    pub(crate) fn allocate_cluster(&mut self) -> (r: Result<u32, Status>)
        requires
            old(self).wf(),
        ensures
            final(self).same_layout(*old(self)),
            r is Ok ==> final(self).wf(),
            r matches Ok(c) ==> c < old(self).top(),
            final(self).data_unchanged(*old(self)),
            r matches Ok(c) ==> first_free(old(self).table(), old(self).search_start() as int, old(self).top() as int)
                == Some(c) && final(self).spec_next_free_cluster() == c && final(self).table()
                == old(self).table().insert(c, END_OF_CHAIN),
            first_free(old(self).table(), old(self).search_start() as int, old(self).top() as int) is None
                ==> r is Err,
            old(self).range_cached(old(self).search_start() as int, old(self).top() as int) && first_free(
                old(self).table(),
                old(self).search_start() as int,
                old(self).top() as int,
            ) is None ==> r == Err::<u32, Status>(Status::OutOfResource),
            first_free(old(self).table(), old(self).search_start() as int, old(self).top() as int) matches Some(c)
                ==> (old(self).range_cached(old(self).search_start() as int, c + 1) ==> r == Ok::<u32, Status>(c)
                && final(self).same_cache(*old(self))),
    {
        let cluster = match self.find_next_free_cluster() {
            Ok(c) => c,
            Err(e) => {
                return Err(e);
            },
        };
        proof {
            lemma_first_free(old(self).table(), old(self).search_start() as int, old(self).top() as int);
            if old(self).range_cached(old(self).search_start() as int, cluster + 1) {
                self.lemma_same_cache(*old(self));
                assert(old(self).caches_entry_of(cluster));
            }
        }
        let ghost f1 = *self;
        match self.set_next_cluster(cluster, ClusterState::End) {
            Ok(()) => {},
            Err(e) => {
                return Err(e);
            },
        }
        proof {
            if old(self).range_cached(old(self).search_start() as int, cluster + 1) {
                self.lemma_same_layout(f1);
            }
        }
        Ok(cluster)
    }

    /// Marks cluster `cluster` free.
    fn free_cluster(&mut self, cluster: u32) -> (r: Result<(), Status>)
        requires
            old(self).wf(),
            cluster < old(self).top(),
        ensures
            final(self).same_layout(*old(self)),
            r is Ok ==> final(self).wf() && final(self).table()
                == old(self).table().insert(cluster, 0),
            r is Ok && old(self).spec_next_free_cluster() != NO_CLUSTER ==> final(self).spec_next_free_cluster()
                == if cluster < old(self).spec_next_free_cluster() {
                cluster
            } else {
                old(self).spec_next_free_cluster()
            },
            r is Ok && old(self).search_start() >= 2 && cluster >= 2 ==> final(self).search_start() >= 2,
            old(self).spec_next_free_cluster() != NO_CLUSTER && old(self).caches_entry_of(cluster) ==> r is Ok
                && final(self).spec_drive() == old(self).spec_drive() && final(self).caches_entry_of(cluster),
            final(self).data_unchanged(*old(self)),
    {
        let ghost f0 = *self;
        proof {
            f0.lemma_same_layout_refl_trans(f0, f0);
        }
        if self.next_free_cluster == 0xFFFFFFFF {
            match self.find_next_free_cluster() {
                Ok(_) => {},
                Err(e) => {
                    return Err(e);
                },
            }
            proof {
                lemma_first_free(f0.table(), f0.search_start() as int, f0.top() as int);
            }
        }
        let ghost f1 = *self;
        proof {
            f1.lemma_same_layout(f0);
        }
        match self.set_next_cluster(cluster, ClusterState::Free) {
            Ok(()) => {},
            Err(e) => {
                return Err(e);
            },
        }
        proof {
            assert(self.data_unchanged(f0));
        }
        let ghost f2 = *self;
        if cluster < self.next_free_cluster {
            self.next_free_cluster = cluster;
        }
        proof {
            assert(self.drive == f2.drive);
            assert(f2.data_unchanged(f0));
            assert forall|a: int| a >= f0.spec_first_data_sector() implies #[trigger] self.spec_drive().block(a)
                == f0.spec_drive().block(a) by {
                assert(f2.spec_drive().block(a) == f0.spec_drive().block(a));
            }
        }
        Ok(())
    }

    /// The data of cluster `c`: the drive's block at the cluster's first sector.
    pub open spec fn cluster_data(&self, c: u32) -> Seq<u8> {
        self.spec_drive().block(self.sector_of_cluster(c))
    }

    /// Byte `i` of the data that the chain `l` holds, cluster after cluster.
    pub open spec fn chain_byte(&self, l: Seq<u32>, i: int) -> u8 {
        self.cluster_data(l[i / (self.spec_bytes_per_cluster() as int)])[i % (self.spec_bytes_per_cluster() as int)]
    }

    /// Each cluster of `l` is a data cluster whose first sector has a sector number that
    /// fits 32 bits and whose block holds one cluster's worth of bytes.
    pub open spec fn chain_readable(&self, l: Seq<u32>) -> bool {
        forall|i: int|
            0 <= i < l.len() ==> 2 <= #[trigger] l[i] && self.sector_of_cluster(l[i]) <= u32::MAX && self.cluster_data(
                l[i],
            ).len() == self.spec_bytes_per_cluster()
    }

    /// Two tables with the same layout agree on the geometry that contracts speak of.
    pub proof fn lemma_same_layout(&self, other: Self)
        requires
            self.same_layout(other),
        ensures
            self.spec_bytes_per_cluster() == other.spec_bytes_per_cluster(),
            self.spec_sectors_per_cluster() == other.spec_sectors_per_cluster(),
            self.spec_first_data_sector() == other.spec_first_data_sector(),
            self.spec_bytes_per_sector() == other.spec_bytes_per_sector(),
            self.top() == other.top(),
    {
    }

    /// Every table has its own layout, and having the same layout is transitive.
    pub proof fn lemma_same_layout_refl_trans(&self, b: Self, c: Self)
        ensures
            self.same_layout(*self),
            self.same_layout(b) && b.same_layout(c) ==> self.same_layout(c),
            self.same_layout(b) ==> b.same_layout(*self),
    {
    }

    /// Distinct data clusters start at distinct sectors.
    pub proof fn lemma_sector_injective(&self, c: u32, d: u32)
        requires
            c >= 2,
            d >= 2,
            c != d,
            self.spec_sectors_per_cluster() > 0,
        ensures
            self.sector_of_cluster(c) != self.sector_of_cluster(d),
    {
        let spc = self.spec_sectors_per_cluster() as int;
        assert((c - 2) * spc != (d - 2) * spc) by (nonlinear_arith)
            requires
                c != d,
                spc > 0,
        ;
    }

    /// A cluster of a table whose clusters are bytes long is made of sectors.
    pub proof fn lemma_sectors_per_cluster(&self)
        requires
            self.wf(),
            self.spec_bytes_per_cluster() > 0,
        ensures
            self.spec_sectors_per_cluster() > 0,
    {
        if self.sectors_per_cluster == 0 {
            assert(self.bytes_per_cluster == 0 * self.bytes_per_sector);
        }
    }

    /// A data cluster's first sector lies in the data region.
    pub proof fn lemma_data_sector(&self, c: u32)
        requires
            c >= 2,
        ensures
            self.sector_of_cluster(c) >= self.spec_first_data_sector(),
    {
        assert((c - 2) * self.spec_sectors_per_cluster() >= 0) by (nonlinear_arith)
            requires
                c >= 2,
        ;
    }

    /// The drive's sectors from the first data sector on are as in `other`.
    pub open spec fn data_unchanged(&self, other: Self) -> bool {
        forall|a: int|
            a >= other.spec_first_data_sector() ==> #[trigger] self.spec_drive().block(a) == other.spec_drive().block(a)
    }

    /// The fixed geometry of the table: sectors and bytes per cluster, number and size of
    /// the table copies, where the table and the data begin, and bytes per sector.
    pub closed spec fn layout(&self) -> (u32, usize, u64, u64, u64, u32, u64) {
        (
            self.sectors_per_cluster,
            self.bytes_per_cluster,
            self.num_fats,
            self.fat_size,
            self.first_fat_sector,
            self.first_data_sector,
            self.bytes_per_sector,
        )
    }

    /// The fixed geometry of two tables agrees.
    pub open spec fn same_layout(&self, other: Self) -> bool {
        self.layout() == other.layout()
    }
}


impl<D: Device> FAT<D> {
    /// The clusters of the chain that starts at `first_cluster`, in order.
    pub fn get_cluster_chain(&mut self, first_cluster: Cluster) -> (r: Result<Vec<Cluster>, Status>)
        requires
            old(self).wf(),
            chain_in_table(old(self).table(), first_cluster),
        ensures
            final(self).same_layout(*old(self)),
            r is Ok ==> final(self).wf() && final(self).table() == old(self).table()
                && final(self).spec_next_free_cluster() == old(self).spec_next_free_cluster(),
            r matches Ok(v) ==> v@ == chain(old(self).table(), first_cluster) && state_of(
                old(self).table()[v@.last()],
            ) is End,
            state_of(old(self).table()[chain(old(self).table(), first_cluster).last()]) is Free ==> r is Err,
            old(self).chain_cached(chain(old(self).table(), first_cluster)) ==> *final(self) == *old(self) && (
            state_of(old(self).table()[chain(old(self).table(), first_cluster).last()]) is End ==> r is Ok) && (state_of(
                old(self).table()[chain(old(self).table(), first_cluster).last()],
            ) is Free ==> r == Err::<Vec<Cluster>, Status>(Status::CorruptFilesystem)),
            final(self).data_unchanged(*old(self)),
    {
        let ghost t = self.table();
        let ghost l = chain(t, first_cluster);
        proof {
            lemma_chain_is_chain(t, first_cluster);
            lemma_chain_step(t, first_cluster);
        }
        let mut cluster_chain: Vec<Cluster> = Vec::new();
        let mut cluster = first_cluster;
        let ghost mut k: int = 0;
        loop
            invariant
                self.wf(),
                self.table() == t,
                self.same_layout(*old(self)),
                self.next_free_cluster == old(self).next_free_cluster,
                t == old(self).table(),
                l == chain(t, first_cluster),
                is_chain(t, l),
                forall|i: int| 0 <= i < l.len() ==> chain_in_table(t, #[trigger] l[i]) && chain(t, l[i]) == l.skip(i),
                0 <= k < l.len(),
                l[k] == cluster,
                cluster_chain@ == l.take(k),
                self.data_unchanged(*old(self)),
                old(self).chain_cached(l) ==> *self == *old(self),
            decreases l.len() - k,
        {
            cluster_chain.push(cluster);
            proof {
                assert(l.take(k + 1) =~= l.take(k).push(cluster));
            }
            let state = match self.get_next_cluster(cluster) {
                Ok(s) => s,
                Err(e) => {
                    return Err(e);
                },
            };
            match state {
                ClusterState::Free => {
                    proof {
                        assert(k == l.len() - 1);
                    }
                    return Err(Status::CorruptFilesystem);
                },
                ClusterState::End => {
                    proof {
                        assert(k == l.len() - 1);
                        assert(l.take(k + 1) =~= l);
                    }
                    return Ok(cluster_chain);
                },
                ClusterState::Next(next_cluster) => {
                    proof {
                        assert(k < l.len() - 1);
                    }
                    cluster = next_cluster;
                    proof {
                        k = k + 1;
                    }
                },
            }
        }
    }

    /// Marks every cluster of the chain that starts at `first_cluster` free. A chain that
    /// ends in a free entry is corrupt: its clusters are freed all the same, and the
    /// answer is `CorruptFilesystem`.
    ///
    /// The table after an error is stated where no drive access is needed (every entry of
    /// the chain lies in the cached sector, and the next free cluster is known). Otherwise
    /// the contract leaves the table after an error open: a drive that fails a read leaves
    /// the cached sector holding whatever the read left in it, and a drive may answer any
    /// status, `CorruptFilesystem` among them.
    pub fn free_cluster_chain(&mut self, first_cluster: Cluster) -> (r: Result<(), Status>)
        requires
            old(self).wf(),
            chain_in_table(old(self).table(), first_cluster),
        ensures
            final(self).same_layout(*old(self)),
            r is Ok ==> final(self).wf() && final(self).table() == with_value(
                old(self).table(),
                chain(old(self).table(), first_cluster),
                0,
            ),
            r is Ok ==> state_of(old(self).table()[chain(old(self).table(), first_cluster).last()]) is End,
            state_of(old(self).table()[chain(old(self).table(), first_cluster).last()]) is Free ==> r is Err,
            r is Ok && old(self).search_start() >= 2 && (forall|i: int|
                0 <= i < chain(old(self).table(), first_cluster).len() ==> 2 <= #[trigger] chain(
                    old(self).table(),
                    first_cluster,
                )[i]) ==> final(self).search_start() >= 2,
            old(self).spec_next_free_cluster() != NO_CLUSTER && old(self).chain_cached(
                chain(old(self).table(), first_cluster),
            ) ==> final(self).spec_drive() == old(self).spec_drive() && (state_of(
                old(self).table()[chain(old(self).table(), first_cluster).last()],
            ) is End ==> r is Ok) && (state_of(old(self).table()[chain(old(self).table(), first_cluster).last()]) is Free
                ==> r == Err::<(), Status>(Status::CorruptFilesystem) && final(self).table() == with_value(
                old(self).table(),
                chain(old(self).table(), first_cluster),
                0,
            )),
            final(self).data_unchanged(*old(self)),
    {
        let ghost t = self.table();
        let ghost l = chain(t, first_cluster);
        let ghost cached = old(self).spec_next_free_cluster() != NO_CLUSTER && old(self).chain_cached(l);
        let ghost low_ok = old(self).search_start() >= 2 && (forall|i: int| 0 <= i < l.len() ==> 2 <= #[trigger] l[i]);
        proof {
            self.lemma_same_layout_refl_trans(*self, *self);
        }
        proof {
            lemma_chain_is_chain(t, first_cluster);
            lemma_chain_distinct(t, first_cluster);
            lemma_chain_step(t, first_cluster);
            assert(with_value(t, l.take(0), 0) =~= t);
        }
        let mut cluster = first_cluster;
        let ghost mut k: int = 0;
        loop
            invariant
                self.wf(),
                self.same_layout(*old(self)),
                t == old(self).table(),
                l == chain(t, first_cluster),
                is_chain(t, l),
                l.no_duplicates(),
                0 <= k < l.len(),
                l[k] == cluster,
                self.table() == with_value(t, l.take(k), 0),
                self.data_unchanged(*old(self)),
                low_ok == (old(self).search_start() >= 2 && (forall|i: int| 0 <= i < l.len() ==> 2 <= #[trigger] l[i])),
                low_ok ==> self.search_start() >= 2,
                cached == (old(self).spec_next_free_cluster() != NO_CLUSTER && old(self).chain_cached(l)),
                cached ==> self.buffer_sector_offset == old(self).buffer_sector_offset && self.drive == old(self).drive
                    && self.next_free_cluster != NO_CLUSTER,
            decreases l.len() - k,
        {
            proof {
                if cached {
                    assert(old(self).caches_entry_of(l[k]));
                }
                assert(!l.take(k).contains(cluster)) by {
                    if l.take(k).contains(cluster) {
                        let j = choose|j: int| 0 <= j < l.take(k).len() && l.take(k)[j] == cluster;
                        assert(l[j] == l[k]);
                    }
                }
                assert(self.table()[cluster] == t[cluster]);
            }
            let ghost g0 = *self;
            let next_cluster = match self.get_next_cluster(cluster) {
                Ok(s) => s,
                Err(e) => {
                    proof {
                        g0.lemma_same_layout(*old(self));
                    }
                    return Err(e);
                },
            };
            let ghost before = self.table();
            let ghost g1 = *self;
            proof {
                g1.lemma_same_layout(g0);
                g0.lemma_same_layout(*old(self));
                g1.lemma_search_start();
                g0.lemma_search_start();
            }
            match self.free_cluster(cluster) {
                Ok(()) => {},
                Err(e) => {
                    return Err(e);
                },
            }
            proof {
                self.lemma_same_layout(g1);
                self.lemma_same_layout_refl_trans(g1, *old(self));
                g1.lemma_same_layout_refl_trans(g0, *old(self));
            }
            proof {
                let pre = l.take(k);
                let ext = l.take(k + 1);
                assert(ext =~= pre.push(cluster));
                assert forall|c: u32| ext.contains(c) <==> (pre.contains(c) || c == cluster) by {
                    if ext.contains(c) && c != cluster {
                        let j = choose|j: int| 0 <= j < ext.len() && ext[j] == c;
                        assert(pre[j] == c);
                    }
                    if pre.contains(c) {
                        let j = choose|j: int| 0 <= j < pre.len() && pre[j] == c;
                        assert(ext[j] == c);
                    }
                    if c == cluster {
                        assert(ext[k] == c);
                    }
                }
                assert(self.table() =~= with_value(t, ext, 0));
            }
            match next_cluster {
                ClusterState::Next(c) => {
                    proof {
                        assert(k < l.len() - 1);
                    }
                    cluster = c;
                    proof {
                        k = k + 1;
                    }
                },
                ClusterState::End => {
                    proof {
                        assert(k == l.len() - 1);
                        assert(l.take(k + 1) =~= l);
                    }
                    return Ok(());
                },
                ClusterState::Free => {
                    proof {
                        assert(k == l.len() - 1);
                        assert(l.take(k + 1) =~= l);
                    }
                    return Err(Status::CorruptFilesystem);
                },
            }
        }
    }

    /// Cuts the chain that starts at `first_cluster` after its cluster number
    /// `num_clusters` (counting from 0), which becomes its end. Each cluster after the cut is
    /// marked free but the chain's former last cluster, which keeps its end mark: that
    /// cluster is left out of every chain and is not free either, so it is lost to the
    /// volume until the table is repaired.
    #[verifier::spinoff_prover]
    #[verifier::rlimit(60)]
    pub fn shrink_cluster_chain(&mut self, first_cluster: u32, num_clusters: usize) -> (r: Result<(), Status>)
        requires
            old(self).wf(),
            chain_in_table(old(self).table(), first_cluster),
        ensures
            final(self).same_layout(*old(self)),
            r is Ok ==> final(self).wf() && final(self).table()
                == shrunk(old(self).table(), chain(old(self).table(), first_cluster), num_clusters as int),
            r is Ok ==> num_clusters < chain(old(self).table(), first_cluster).len() && state_of(
                old(self).table()[chain(old(self).table(), first_cluster).last()],
            ) is End,
            num_clusters >= chain(old(self).table(), first_cluster).len() ==> r is Err,
            state_of(old(self).table()[chain(old(self).table(), first_cluster).last()]) is Free ==> r is Err,
            old(self).spec_next_free_cluster() != NO_CLUSTER && old(self).chain_cached(
                chain(old(self).table(), first_cluster),
            ) ==> final(self).spec_drive() == old(self).spec_drive() && (state_of(
                old(self).table()[chain(old(self).table(), first_cluster).last()],
            ) is End ==> r == if num_clusters < chain(old(self).table(), first_cluster).len() {
                Ok::<(), Status>(())
            } else {
                Err::<(), Status>(Status::InvalidArgument)
            }) && (num_clusters >= chain(old(self).table(), first_cluster).len() ==> *final(self) == *old(self)) && (state_of(old(self).table()[chain(old(self).table(), first_cluster).last()]) is Free ==> r
                == Err::<(), Status>(Status::CorruptFilesystem)),
    {
        let ghost t = self.table();
        let ghost l = chain(t, first_cluster);
        let ghost cached = old(self).spec_next_free_cluster() != NO_CLUSTER && old(self).chain_cached(l);
        proof {
            lemma_chain_is_chain(t, first_cluster);
            lemma_chain_distinct(t, first_cluster);
            lemma_chain_step(t, first_cluster);
        }
        let mut cluster = first_cluster;
        let mut i: usize = 0;
        while i < num_clusters
            invariant
                self.wf(),
                self.table() == t,
                self.same_layout(*old(self)),
                t == old(self).table(),
                l == chain(t, first_cluster),
                is_chain(t, l),
                i <= num_clusters,
                i < l.len(),
                l[i as int] == cluster,
                cached == (old(self).spec_next_free_cluster() != NO_CLUSTER && old(self).chain_cached(l)),
                cached ==> *self == *old(self),
            decreases num_clusters - i,
        {
            proof {
                if cached {
                    assert(old(self).caches_entry_of(l[i as int]));
                }
            }
            let state = match self.get_next_cluster(cluster) {
                Ok(s) => s,
                Err(e) => {
                    return Err(e);
                },
            };
            match state {
                ClusterState::Next(c) => {
                    proof {
                        assert(i < l.len() - 1);
                    }
                    cluster = c;
                },
                ClusterState::End => {
                    return Err(Status::InvalidArgument);
                },
                ClusterState::Free => {
                    return Err(Status::CorruptFilesystem);
                },
            }
            i = i + 1;
        }
        let ghost n = num_clusters as int;
        proof {
            if cached {
                assert(old(self).caches_entry_of(l[n]));
            }
        }
        let mut next_cluster = match self.get_next_cluster(cluster) {
            Ok(ClusterState::End) => {
                proof {
                    assert(n == l.len() - 1);
                }
                return Ok(());
            },
            Ok(ClusterState::Free) => {
                return Err(Status::CorruptFilesystem);
            },
            Ok(ClusterState::Next(c)) => c,
            Err(e) => {
                return Err(e);
            },
        };
        proof {
            assert(n < l.len() - 1);
            assert(next_cluster == l[n + 1]);
        }
        match self.set_next_cluster(cluster, ClusterState::End) {
            Ok(()) => {},
            Err(e) => {
                return Err(e);
            },
        }
        proof {
            assert(value_of(ClusterState::End) == END_OF_CHAIN);
            assert(with_value(t, l.subrange(n + 1, n + 1), 0) =~= t);
        }
        let ghost mut j: int = n + 1;
        loop
            invariant
                self.wf(),
                self.same_layout(*old(self)),
                t == old(self).table(),
                l == chain(t, first_cluster),
                is_chain(t, l),
                l.no_duplicates(),
                n == num_clusters,
                0 <= n < j < l.len(),
                l[j] == next_cluster,
                self.table() == with_value(t, l.subrange(n + 1, j), 0).insert(l[n], END_OF_CHAIN),
                cached == (old(self).spec_next_free_cluster() != NO_CLUSTER && old(self).chain_cached(l)),
                cached ==> self.buffer_sector_offset == old(self).buffer_sector_offset && self.drive == old(self).drive
                    && self.next_free_cluster != NO_CLUSTER,
            decreases l.len() - j,
        {
            cluster = next_cluster;
            proof {
                if cached {
                    assert(old(self).caches_entry_of(l[j]));
                }
                let sub = l.subrange(n + 1, j);
                assert(!sub.contains(cluster)) by {
                    if sub.contains(cluster) {
                        let m = choose|m: int| 0 <= m < sub.len() && sub[m] == cluster;
                        assert(l[n + 1 + m] == l[j]);
                    }
                }
                assert(l[n] != l[j]);
                assert(self.table()[cluster] == t[cluster]);
            }
            next_cluster = match self.get_next_cluster(cluster) {
                Ok(ClusterState::End) => {
                    proof {
                        assert(j == l.len() - 1);
                    }
                    return Ok(());
                },
                Ok(ClusterState::Free) => {
                    return Err(Status::CorruptFilesystem);
                },
                Ok(ClusterState::Next(c)) => c,
                Err(e) => {
                    return Err(e);
                },
            };
            proof {
                assert(j < l.len() - 1);
            }
            match self.free_cluster(cluster) {
                Ok(()) => {},
                Err(e) => {
                    return Err(e);
                },
            }
            proof {
                let pre = l.subrange(n + 1, j);
                let ext = l.subrange(n + 1, j + 1);
                assert forall|c: u32| ext.contains(c) <==> (pre.contains(c) || c == cluster) by {
                    if ext.contains(c) && c != cluster {
                        let m = choose|m: int| 0 <= m < ext.len() && ext[m] == c;
                        assert(pre[m] == c);
                    }
                    if pre.contains(c) {
                        let m = choose|m: int| 0 <= m < pre.len() && pre[m] == c;
                        assert(ext[m] == c);
                    }
                    if c == cluster {
                        assert(ext[j - n - 1] == c);
                    }
                }
                assert(self.table() =~= with_value(t, ext, 0).insert(l[n], END_OF_CHAIN));
                j = j + 1;
            }
        }
    }

    /// The last cluster of the chain that starts at `first_cluster`, and the chain's length.
    fn chain_end(&mut self, first_cluster: u32) -> (r: Result<(u32, usize), Status>)
        requires
            old(self).wf(),
            chain_in_table(old(self).table(), first_cluster),
        ensures
            final(self).same_layout(*old(self)),
            r is Ok ==> final(self).wf() && final(self).table() == old(self).table()
                && final(self).spec_next_free_cluster() == old(self).spec_next_free_cluster(),
            r matches Ok((c, n)) ==> n == chain(old(self).table(), first_cluster).len() && c == chain(
                old(self).table(),
                first_cluster,
            ).last() && state_of(old(self).table()[c]) is End && c < old(self).top(),
            state_of(old(self).table()[chain(old(self).table(), first_cluster).last()]) is Free ==> r is Err,
            old(self).chain_cached(chain(old(self).table(), first_cluster)) ==> *final(self) == *old(self) && (
            state_of(old(self).table()[chain(old(self).table(), first_cluster).last()]) is End ==> r is Ok) && (state_of(
                old(self).table()[chain(old(self).table(), first_cluster).last()],
            ) is Free ==> r == Err::<(u32, usize), Status>(Status::CorruptFilesystem)),
    {
        let ghost t = self.table();
        let ghost l = chain(t, first_cluster);
        proof {
            lemma_chain_is_chain(t, first_cluster);
            lemma_chain_step(t, first_cluster);
            lemma_chain_len_bound(t, first_cluster, self.top());
        }
        let mut cluster = first_cluster;
        let mut cluster_count: usize = 1;
        loop
            invariant
                self.wf(),
                self.table() == t,
                self.same_layout(*old(self)),
                self.next_free_cluster == old(self).next_free_cluster,
                t == old(self).table(),
                l == chain(t, first_cluster),
                is_chain(t, l),
                1 <= cluster_count <= l.len(),
                l.len() <= u32::MAX,
                l[cluster_count - 1] == cluster,
                old(self).chain_cached(l) ==> *self == *old(self),
            decreases l.len() - cluster_count,
        {
            let state = match self.get_next_cluster(cluster) {
                Ok(s) => s,
                Err(e) => {
                    return Err(e);
                },
            };
            match state {
                ClusterState::Free => {
                    return Err(Status::CorruptFilesystem);
                },
                ClusterState::End => {
                    return Ok((cluster, cluster_count));
                },
                ClusterState::Next(c) => {
                    proof {
                        assert(cluster_count < l.len());
                    }
                    cluster = c;
                },
            }
            cluster_count = cluster_count + 1;
        }
    }

    /// `self` is `before` after the chain that starts at `first` was lengthened to `n`
    /// clusters: the clusters appended are those that `allocated` describes, each linked
    /// behind the one before it, and the search for a free cluster resumes at the last.
    pub open spec fn grown_from(&self, before: Self, first: u32, n: int) -> bool {
        let t = before.table();
        let l = chain(t, first);
        exists|news: Seq<u32>|
            {
                &&& news.len() == (if n > l.len() {
                    n - l.len()
                } else {
                    0
                })
                &&& allocated(t, before.search_start(), before.top(), l.last(), news)
                &&& #[trigger] extended(t, l.last(), news) == self.table()
                &&& self.spec_next_free_cluster() == if news.len() > 0 {
                    news.last()
                } else {
                    before.spec_next_free_cluster()
                }
            }
    }

    /// Growing a chain appends to it: after `grow_cluster_chain(first, n)` succeeds, the
    /// chain from `first` has `max(n, old length)` clusters and begins with the old chain.
    /// This holds when the table describes fewer clusters than the value where end marks
    /// begin, and the search for free clusters starts at cluster 2 or later.
    pub proof fn lemma_grown_chain(before: Self, after: Self, first: u32, n: int)
        requires
            before.wf(),
            chain_in_table(before.table(), first),
            state_of(before.table()[chain(before.table(), first).last()]) is End,
            after.grown_from(before, first, n),
            before.top() <= 0x0FFFFFF8,
            before.search_start() >= 2,
        ensures
            chain_in_table(after.table(), first),
            chain(after.table(), first).len() == if n > chain(before.table(), first).len() {
                n
            } else {
                chain(before.table(), first).len() as int
            },
            chain(after.table(), first).take(chain(before.table(), first).len() as int) == chain(before.table(), first),
    {
        let t = before.table();
        let l = chain(t, first);
        lemma_chain_is_chain(t, first);
        lemma_chain_distinct(t, first);
        let news = choose|news: Seq<u32>|
            {
                &&& news.len() == (if n > l.len() {
                    n - l.len()
                } else {
                    0
                })
                &&& allocated(t, before.search_start(), before.top(), l.last(), news)
                &&& #[trigger] extended(t, l.last(), news) == after.table()
                &&& after.spec_next_free_cluster() == if news.len() > 0 {
                    news.last()
                } else {
                    before.spec_next_free_cluster()
                }
            };
        lemma_extended_is_chain(t, before.search_start(), before.top(), l, news);
        lemma_is_chain_unique(after.table(), l + news);
        assert((l + news)[0] == first);
        assert((l + news).take(l.len() as int) =~= l);
    }

    /// Lengthens the chain that starts at `first_cluster` to `num_clusters` clusters, if it
    /// is shorter, with clusters taken one by one as the first free cluster from where the
    /// previous search ended.
    #[verifier::rlimit(40)]
    pub fn grow_cluster_chain(&mut self, first_cluster: u32, num_clusters: usize) -> (r: Result<(), Status>)
        requires
            old(self).wf(),
            chain_in_table(old(self).table(), first_cluster),
        ensures
            final(self).same_layout(*old(self)),
            r is Ok ==> final(self).wf(),
            r is Ok ==> state_of(old(self).table()[chain(old(self).table(), first_cluster).last()]) is End,
            r is Ok ==> final(self).grown_from(*old(self), first_cluster, num_clusters as int),
            r is Ok ==> final(self).synced(),
            state_of(old(self).table()[chain(old(self).table(), first_cluster).last()]) is Free ==> r is Err,
            num_clusters > chain(old(self).table(), first_cluster).len() && first_free(
                old(self).table(),
                old(self).search_start() as int,
                old(self).top() as int,
            ) is None ==> r is Err,
            old(self).chain_cached(chain(old(self).table(), first_cluster)) && state_of(
                old(self).table()[chain(old(self).table(), first_cluster).last()],
            ) is Free ==> r == Err::<(), Status>(Status::CorruptFilesystem),
            old(self).chain_cached(chain(old(self).table(), first_cluster)) && old(self).synced() && num_clusters
                <= chain(old(self).table(), first_cluster).len() && state_of(
                old(self).table()[chain(old(self).table(), first_cluster).last()],
            ) is End ==> r is Ok && *final(self) == *old(self),
    {
        let ghost t = self.table();
        let ghost l = chain(t, first_cluster);
        let ghost start = self.search_start();
        let (mut cluster, cluster_count) = match self.chain_end(first_cluster) {
            Ok(p) => p,
            Err(e) => {
                return Err(e);
            },
        };
        proof {
            assert(cluster_count == l.len());
            assert(allocated(t, start, self.top(), l.last(), Seq::empty())) by {
                reveal(allocated);
            }
        }
        let ghost f1 = *self;
        let ghost mut news: Seq<u32> = Seq::empty();
        let mut i = cluster_count;
        while i < num_clusters
            invariant
                self.wf(),
                self.same_layout(*old(self)),
                t == old(self).table(),
                start == old(self).search_start(),
                l == chain(t, first_cluster),
                state_of(t[l.last()]) is End,
                cluster_count == l.len(),
                cluster_count <= i,
                i <= num_clusters || i == cluster_count,
                news.len() == i - cluster_count,
                cluster == if news.len() == 0 {
                    l.last()
                } else {
                    news.last()
                },
                t.contains_key(l.last()),
                self.top() == old(self).top(),
                forall|m: int| 0 <= m < news.len() ==> #[trigger] news[m] < self.top(),
                self.table() == extended(t, l.last(), news),
                allocated(t, start, self.top(), l.last(), news),
                first_free(t, start as int, self.top() as int) is None ==> news.len() == 0,
                self.spec_next_free_cluster() == if news.len() > 0 {
                    news.last()
                } else {
                    old(self).spec_next_free_cluster()
                },
                news.len() == 0 ==> *self == f1,
            decreases num_clusters - i,
        {
            let ghost before = self.table();
            let ghost from = self.search_start();
            let new_cluster = match self.allocate_cluster() {
                Ok(c) => c,
                Err(e) => {
                    return Err(e);
                },
            };
            proof {
                lemma_first_free(before, from as int, self.top() as int);
            }
            match self.set_next_cluster(cluster, ClusterState::Next(new_cluster)) {
                Ok(()) => {},
                Err(e) => {
                    return Err(e);
                },
            }
            proof {
                lemma_allocated_push(t, start, self.top(), l.last(), news, new_cluster);
                let grown = news.push(new_cluster);
                assert forall|m: int| 0 <= m < grown.len() implies #[trigger] grown[m] < self.top() by {
                    if m < news.len() {
                        assert(grown[m] == news[m]);
                    }
                }
                news = grown;
            }
            cluster = new_cluster;
            i = i + 1;
        }
        match self.flush_buffer() {
            Ok(()) => {},
            Err(e) => {
                return Err(e);
            },
        }
        proof {
            let extra = if num_clusters > l.len() {
                num_clusters - l.len()
            } else {
                0
            };
            assert(news.len() == extra);
            assert(allocated(t, start, self.top(), l.last(), news));
            assert(extended(t, l.last(), news) == self.table());
            assert(self.grown_from(*old(self), first_cluster, num_clusters as int));
        }
        Ok(())
    }
}

impl<D: Device> FAT<D> {
    /// The volume can hold chains that grow: clusters are bytes long, cluster numbers stay
    /// below the values that mark a chain's end, the search for a free cluster starts at a
    /// data cluster, and every data cluster the table describes can be read and written
    /// whole, its first sector numbered within 32 bits and holding a cluster's worth of
    /// bytes.
    pub open spec fn volume_ok(&self) -> bool {
        &&& self.spec_bytes_per_cluster() > 0
        &&& self.top() <= 0x0FFFFFF8
        &&& self.search_start() >= 2
        &&& forall|c: u32| 2 <= c < self.top() ==> #[trigger] self.cluster_ok(c)
    }

    /// Cluster `c` can be read and written whole: its first sector has a number that fits 32
    /// bits and holds a cluster's worth of bytes.
    pub open spec fn cluster_ok(&self, c: u32) -> bool {
        self.sector_of_cluster(c) <= u32::MAX && self.cluster_data(c).len() == self.spec_bytes_per_cluster()
    }

    /// The table describes exactly the clusters below `top`.
    pub proof fn lemma_table_domain(&self)
        ensures
            forall|c: u32| #[trigger] self.table().contains_key(c) <==> c < self.top(),
    {
    }

    /// A volume keeps being able to hold growing chains while its layout, the start of the
    /// search for free clusters and its data sectors stay.
    pub proof fn lemma_volume_ok_kept(&self, before: Self)
        requires
            before.volume_ok(),
            self.same_layout(before),
            self.search_start() >= 2,
            self.data_unchanged(before),
        ensures
            self.volume_ok(),
    {
        assert forall|c: u32| 2 <= c < self.top() implies #[trigger] self.cluster_ok(c) by {
            assert(before.cluster_ok(c));
            before.lemma_data_sector(c);
        }
    }

    /// The search for a free cluster starts where the table says.
    pub proof fn lemma_search_start(&self)
        ensures
            self.spec_next_free_cluster() != NO_CLUSTER ==> self.search_start() == self.spec_next_free_cluster(),
            self.spec_next_free_cluster() == NO_CLUSTER ==> self.search_start() == 2,
    {
    }
}

} // verus!
