use vstd::prelude::*;

use crate::device::Device;
use crate::error::Status;
use crate::filesystem::drivers::fat32::directory::entry::{
    le16_bytes, le32_bytes, lemma_disk_entry_bytes_read_back, lfn_count, utf8_len, DirectoryEntry, DiskDirectoryEntry,
    LongDirectoryEntry, ATTRIBUTE_LONG_FILE_NAME,
};
use crate::filesystem::drivers::fat32::directory::scan::{
    record_ok, scan_step, LongNameState, ScanStep, StateView, StepView,
};
use crate::filesystem::drivers::fat32::fat::{
    allocated, chain, extended, lemma_allocated_empty, lemma_allocated_push, lemma_first_free, chain_in_table, first_free, is_chain, lemma_chain_distinct, lemma_chain_is_chain, lemma_chain_len_bound,
    lemma_chain_step, lemma_is_chain_unique, state_of, value_of, ClusterState, END_OF_CHAIN, FAT,
};

verus! {

/// The data of the clusters `l`, one cluster at a time.
pub open spec fn chain_data<D: Device>(fat: FAT<D>, l: Seq<u32>) -> Seq<Seq<u8>> {
    Seq::new(l.len(), |k: int| fat.cluster_data(l[k]))
}

/// The chain from `first` ends, its last cluster is marked as the end, and each of its
/// clusters is a data cluster.
pub open spec fn data_chain(t: Map<u32, u32>, first: u32) -> bool {
    &&& chain_in_table(t, first)
    &&& state_of(t[chain(t, first).last()]) is End
    &&& forall|k: int| 0 <= k < chain(t, first).len() ==> 2 <= #[trigger] chain(t, first)[k]
}

/// Every data sector of `before` that holds the first sector of none of the clusters `l`
/// reads the same in `after`.
pub open spec fn sectors_kept<D: Device>(after: FAT<D>, before: FAT<D>, l: Seq<u32>) -> bool {
    forall|a: int|
        a >= before.spec_first_data_sector() && (forall|k: int|
            0 <= k < l.len() ==> a != before.sector_of_cluster(#[trigger] l[k])) ==> #[trigger] after.spec_drive().block(a)
            == before.spec_drive().block(a)
}

/// Every data sector of `before` outside the chain `l0` and outside the clusters that the
/// allocation policy appends to it keeps its bytes in `after`.
pub open spec fn kept_with_growth<D: Device>(after: FAT<D>, before: FAT<D>, l0: Seq<u32>) -> bool {
    exists|news: Seq<u32>|
        #[trigger] allocated(before.table(), before.search_start(), before.top(), l0.last(), news) && sectors_kept(
            after,
            before,
            l0 + news,
        )
}

/// A table keeps every sector of its own.
pub proof fn lemma_kept_with_growth_refl<D: Device>(f: FAT<D>, l0: Seq<u32>)
    ensures
        kept_with_growth(f, f, l0),
{
    lemma_allocated_empty(f.table(), f.search_start(), f.top(), l0.last());
    assert(l0 + Seq::<u32>::empty() =~= l0);
    assert(sectors_kept(f, f, l0 + Seq::<u32>::empty()));
}

/// Two steps that each keep the sectors outside a chain grown by clusters the allocation
/// policy takes keep them together.
pub proof fn lemma_kept_with_growth_step<D: Device>(f0: FAT<D>, f1: FAT<D>, f2: FAT<D>, l0: Seq<u32>, news: Seq<u32>)
    requires
        allocated(f0.table(), f0.search_start(), f0.top(), l0.last(), news),
        sectors_kept(f1, f0, l0 + news),
        sectors_kept(f2, f1, l0 + news),
        f1.same_layout(f0),
    ensures
        kept_with_growth(f2, f0, l0),
{
    let l = l0 + news;
    assert(l.take(l.len() as int) =~= l);
    lemma_sectors_kept_trans(f0, f1, f2, l, l);
}

/// A step that keeps every data sector keeps those outside any chain.
pub proof fn lemma_kept_from_unchanged<D: Device>(f0: FAT<D>, f1: FAT<D>, l0: Seq<u32>)
    requires
        f1.data_unchanged(f0),
    ensures
        kept_with_growth(f1, f0, l0),
{
    lemma_allocated_empty(f0.table(), f0.search_start(), f0.top(), l0.last());
    assert(l0 + Seq::<u32>::empty() =~= l0);
    assert(sectors_kept(f1, f0, l0 + Seq::<u32>::empty()));
}

/// A step that keeps every data sector, the table, the search for free clusters and the
/// layout, followed by one that keeps the sectors outside a grown chain, keeps them.
pub proof fn lemma_kept_after_unchanged<D: Device>(f0: FAT<D>, f1: FAT<D>, f2: FAT<D>, l0: Seq<u32>)
    requires
        f1.data_unchanged(f0),
        f1.table() == f0.table(),
        f1.search_start() == f0.search_start(),
        f1.same_layout(f0),
        kept_with_growth(f2, f1, l0),
    ensures
        kept_with_growth(f2, f0, l0),
{
    f1.lemma_same_layout(f0);
    let news = choose|news: Seq<u32>|
        #[trigger] allocated(f1.table(), f1.search_start(), f1.top(), l0.last(), news) && sectors_kept(f2, f1, l0 + news);
    assert(allocated(f0.table(), f0.search_start(), f0.top(), l0.last(), news));
    assert(sectors_kept(f1, f0, l0 + news));
    lemma_kept_with_growth_step(f0, f1, f2, l0, news);
}

/// Keeping the sectors outside `l1`, and then those outside `l2`, keeps those outside any
/// `l` that holds every cluster of both.
pub proof fn lemma_sectors_kept_join<D: Device>(
    a: FAT<D>,
    b: FAT<D>,
    c: FAT<D>,
    l1: Seq<u32>,
    l2: Seq<u32>,
    l: Seq<u32>,
)
    requires
        sectors_kept(b, a, l1),
        sectors_kept(c, b, l2),
        b.same_layout(a),
        forall|k: int| 0 <= k < l1.len() ==> l.contains(#[trigger] l1[k]),
        forall|k: int| 0 <= k < l2.len() ==> l.contains(#[trigger] l2[k]),
    ensures
        sectors_kept(c, a, l),
{
    b.lemma_same_layout(a);
    assert forall|x: int|
        x >= a.spec_first_data_sector() && (forall|k: int| 0 <= k < l.len() ==> x != a.sector_of_cluster(#[trigger] l[k]))
            implies #[trigger] c.spec_drive().block(x) == a.spec_drive().block(x) by {
        assert forall|k: int| 0 <= k < l1.len() implies x != a.sector_of_cluster(#[trigger] l1[k]) by {
            assert(l.contains(l1[k]));
            let m = choose|m: int| 0 <= m < l.len() && l[m] == l1[k];
            assert(x != a.sector_of_cluster(l[m]));
        }
        assert forall|k: int| 0 <= k < l2.len() implies x != b.sector_of_cluster(#[trigger] l2[k]) by {
            assert(l.contains(l2[k]));
            let m = choose|m: int| 0 <= m < l.len() && l[m] == l2[k];
            assert(x != a.sector_of_cluster(l[m]));
        }
        assert(b.spec_drive().block(x) == a.spec_drive().block(x));
    }
}

/// Keeping the sectors outside a chain, and then those outside a longer one, keeps those
/// outside the longer one.
pub proof fn lemma_sectors_kept_trans<D: Device>(a: FAT<D>, b: FAT<D>, c: FAT<D>, l1: Seq<u32>, l2: Seq<u32>)
    requires
        sectors_kept(b, a, l1),
        sectors_kept(c, b, l2),
        b.same_layout(a),
        l1.len() <= l2.len(),
        l2.take(l1.len() as int) == l1,
    ensures
        sectors_kept(c, a, l2),
{
    b.lemma_same_layout(a);
    assert forall|x: int|
        x >= a.spec_first_data_sector() && (forall|k: int|
            0 <= k < l2.len() ==> x != a.sector_of_cluster(#[trigger] l2[k])) implies #[trigger] c.spec_drive().block(x)
        == a.spec_drive().block(x) by {
        assert forall|k: int| 0 <= k < l1.len() implies x != a.sector_of_cluster(#[trigger] l1[k]) by {
            assert(l1[k] == l2[k]);
        }
        assert forall|k: int| 0 <= k < l2.len() implies x != b.sector_of_cluster(#[trigger] l2[k]) by {
        }
    }
}

/// A free cluster below the end marks, appended to a chain that ends, gives a chain.
proof fn lemma_append_cluster(t: Map<u32, u32>, l: Seq<u32>, c: u32)
    requires
        is_chain(t, l),
        state_of(t[l.last()]) is End,
        t.contains_key(c),
        t[c] == 0,
        2 <= c < 0x0FFFFFF8,
    ensures
        is_chain(t.insert(c, END_OF_CHAIN).insert(l.last(), value_of(ClusterState::Next(c))), l.push(c)),
        state_of(t.insert(c, END_OF_CHAIN).insert(l.last(), value_of(ClusterState::Next(c)))[c]) is End,
        !l.contains(c),
{
    lemma_is_chain_unique(t, l);
    lemma_chain_distinct(t, l[0]);
    let t2 = t.insert(c, END_OF_CHAIN).insert(l.last(), value_of(ClusterState::Next(c)));
    let l2 = l.push(c);
    assert(c & 0x0FFFFFFF == c) by (bit_vector)
        requires
            c < 0x0FFFFFF8,
    ;
    assert forall|i: int| 0 <= i < l.len() implies l[i] != c by {
        if i < l.len() - 1 {
            assert(state_of(t[l[i]]) == ClusterState::Next(l[i + 1]));
        }
    }
    assert(!l.contains(c));
    assert forall|i: int| 0 <= i < l2.len() - 1 implies state_of(t2[#[trigger] l2[i]]) == ClusterState::Next(
        l2[i + 1],
    ) by {
        if i < l.len() - 1 {
            assert(l[i] != l.last());
            assert(l2[i] == l[i]);
            assert(l2[i + 1] == l[i + 1]);
        }
    }
    assert forall|i: int| 0 <= i < l2.len() implies t2.contains_key(#[trigger] l2[i]) by {
        if i < l.len() {
            assert(l2[i] == l[i]);
        }
    }
}

/// The cluster of a directory's chain that is being read and written, cached, with the
/// chain it belongs to.
struct Buffer {
    buffer: Vec<u8>,
    current_cluster_index: usize,
    cluster_chain: Vec<u32>,
    modified: bool,
}

impl Buffer {
    /// The directory's clusters, the cached one as the cache holds it.
    spec fn clusters<D: Device>(&self, fat: FAT<D>) -> Seq<Seq<u8>> {
        Seq::new(
            self.cluster_chain@.len(),
            |k: int|
                if k == self.current_cluster_index {
                    self.buffer@
                } else {
                    fat.cluster_data(self.cluster_chain@[k])
                },
        )
    }

    spec fn inv<D: Device>(&self, fat: FAT<D>) -> bool {
        &&& fat.wf()
        &&& fat.volume_ok()
        &&& self.buffer@.len() == fat.spec_bytes_per_cluster()
        &&& is_chain(fat.table(), self.cluster_chain@)
        &&& state_of(fat.table()[self.cluster_chain@.last()]) is End
        &&& forall|k: int| 0 <= k < self.cluster_chain@.len() ==> 2 <= #[trigger] self.cluster_chain@[k]
        &&& self.current_cluster_index < self.cluster_chain@.len()
        &&& !self.modified ==> self.buffer@ == fat.cluster_data(self.cluster_chain@[self.current_cluster_index as int])
    }

    proof fn lemma_inv<D: Device>(&self, fat: FAT<D>)
        requires
            self.inv(fat),
        ensures
            self.cluster_chain@.no_duplicates(),
            forall|k: int| 0 <= k < self.cluster_chain@.len() ==> #[trigger] self.cluster_chain@[k] < fat.top(),
            self.cluster_chain@.len() <= fat.top(),
            fat.spec_sectors_per_cluster() > 0,
            forall|k: int|
                0 <= k < self.cluster_chain@.len() ==> fat.sector_of_cluster(#[trigger] self.cluster_chain@[k])
                    <= u32::MAX && fat.cluster_data(self.cluster_chain@[k]).len() == fat.spec_bytes_per_cluster(),
    {
        let l = self.cluster_chain@;
        let t = fat.table();
        lemma_is_chain_unique(t, l);
        lemma_chain_distinct(t, l[0]);
        fat.lemma_table_domain();
        lemma_chain_len_bound(t, l[0], fat.top());
        fat.lemma_sectors_per_cluster();
        assert forall|k: int| 0 <= k < l.len() implies fat.sector_of_cluster(#[trigger] l[k]) <= u32::MAX
            && fat.cluster_data(l[k]).len() == fat.spec_bytes_per_cluster() by {
            assert(t.contains_key(l[k]));
            assert(fat.cluster_ok(l[k]));
        }
    }

    /// Writes the cached cluster back, if it was changed.
    fn flush_buffer<D: Device>(&mut self, fat: &mut FAT<D>) -> (r: Result<(), Status>)
        requires
            old(self).inv(*old(fat)),
        ensures
            final(fat).same_layout(*old(fat)),
            final(self).cluster_chain@ == old(self).cluster_chain@,
            final(self).current_cluster_index == old(self).current_cluster_index,
            final(self).buffer@ == old(self).buffer@,
            final(fat).same_layout(*old(fat)),
            final(fat).table() == old(fat).table(),
            final(fat).search_start() == old(fat).search_start(),
            sectors_kept(*final(fat), *old(fat), old(self).cluster_chain@),
            forall|a: int|
                a != old(fat).sector_of_cluster(old(self).cluster_chain@[old(self).current_cluster_index as int])
                    ==> #[trigger] final(fat).spec_drive().block(a) == old(fat).spec_drive().block(a),
            r is Ok ==> final(self).inv(*final(fat)) && !final(self).modified && final(self).clusters(*final(fat))
                == old(self).clusters(*old(fat)),
            !old(self).modified ==> r is Ok && *final(self) == *old(self) && *final(fat) == *old(fat),
    {
        proof {
            fat.lemma_same_layout_refl_trans(*fat, *fat);
        }
        if self.modified {
            let ghost f0 = *fat;
            proof {
                self.lemma_inv(f0);
            }
            let cluster = self.cluster_chain[self.current_cluster_index];
            let r = fat.write_cluster(cluster, &self.buffer);
            proof {
                fat.lemma_same_layout(f0);
                fat.lemma_search_start();
                f0.lemma_search_start();
                let l = self.cluster_chain@;
                let cur = self.current_cluster_index as int;
                assert forall|a: int|
                    a >= f0.spec_first_data_sector() && (forall|k: int|
                        0 <= k < l.len() ==> a != f0.sector_of_cluster(#[trigger] l[k])) implies #[trigger] fat.spec_drive().block(
                    a,
                ) == f0.spec_drive().block(a) by {
                    assert(a != f0.sector_of_cluster(l[cur]));
                }
            }
            match r {
                Ok(()) => {},
                Err(e) => {
                    return Err(e);
                },
            }
            self.modified = false;
            proof {
                let l = self.cluster_chain@;
                let cur = self.current_cluster_index as int;
                assert forall|c: u32| 2 <= c < fat.top() implies #[trigger] fat.cluster_ok(c) by {
                    assert(f0.cluster_ok(c));
                }
                assert forall|k: int| 0 <= k < l.len() implies #[trigger] self.clusters(*fat)[k] == old(self).clusters(
                    f0,
                )[k] by {
                    if k != cur {
                        f0.lemma_sector_injective(l[k], l[cur]);
                    }
                }
                assert(self.clusters(*fat) =~= old(self).clusters(f0));
            }
        }
        Ok(())
    }

    /// Takes a free cluster and appends it to the chain.
    fn append_cluster<D: Device>(&mut self, fat: &mut FAT<D>) -> (r: Result<(), Status>)
        requires
            old(self).inv(*old(fat)),
        ensures
            final(fat).same_layout(*old(fat)),
            final(self).buffer@ == old(self).buffer@,
            final(self).current_cluster_index == old(self).current_cluster_index,
            final(self).modified == old(self).modified,
            final(fat).data_unchanged(*old(fat)),
            r is Err ==> final(self).cluster_chain@ == old(self).cluster_chain@,
            r is Ok ==> ({
                let c = final(self).cluster_chain@.last();
                let l = old(self).cluster_chain@;
                &&& final(self).inv(*final(fat))
                &&& final(fat).same_layout(*old(fat))
                &&& final(self).cluster_chain@ == l.push(c)
                &&& first_free(old(fat).table(), old(fat).search_start() as int, old(fat).top() as int) == Some(c)
                &&& final(fat).table() == old(fat).table().insert(c, END_OF_CHAIN).insert(
                    l.last(),
                    value_of(ClusterState::Next(c)),
                )
                &&& final(fat).search_start() == c
                &&& final(self).clusters(*final(fat)) == old(self).clusters(*old(fat)).push(old(fat).cluster_data(c))
            }),
            first_free(old(fat).table(), old(fat).search_start() as int, old(fat).top() as int) matches Some(c) ==> (
            old(fat).range_cached(old(fat).search_start() as int, c + 1) && old(fat).caches_entry_of(
                old(self).cluster_chain@.last(),
            ) ==> r is Ok && final(fat).spec_drive() == old(fat).spec_drive()),
    {
        let ghost f0 = *fat;
        let ghost l = self.cluster_chain@;
        proof {
            self.lemma_inv(f0);
            f0.lemma_search_start();
            f0.lemma_table_domain();
        }
        let c = match fat.allocate_cluster() {
            Ok(c) => c,
            Err(e) => {
                return Err(e);
            },
        };
        let ghost f1 = *fat;
        proof {
            lemma_first_free(f0.table(), f0.search_start() as int, f0.top() as int);
            f1.lemma_same_layout(f0);
            if f0.range_cached(f0.search_start() as int, c + 1) {
                f1.lemma_same_cache(f0);
            }
        }
        let last = self.cluster_chain[self.cluster_chain.len() - 1];
        match fat.set_next_cluster(last, ClusterState::Next(c)) {
            Ok(()) => {},
            Err(e) => {
                return Err(e);
            },
        }
        self.cluster_chain.push(c);
        proof {
            lemma_append_cluster(f0.table(), l, c);
            fat.lemma_same_layout(f1);
            fat.lemma_same_layout_refl_trans(f1, f0);
            fat.lemma_search_start();
            f1.lemma_search_start();
            fat.lemma_volume_ok_kept(f0);
            let l2 = self.cluster_chain@;
            assert forall|k: int| 0 <= k < l2.len() implies 2 <= #[trigger] l2[k] by {
                if k < l.len() {
                    assert(l2[k] == l[k]);
                }
            }
            assert(self.clusters(*fat) =~= old(self).clusters(f0).push(f0.cluster_data(c)));
        }
        Ok(())
    }

    /// Makes cluster number `new_cluster_index` of the chain the cached one, writing the
    /// cached cluster back first; one past the end of the chain appends a free cluster.
    #[verifier::rlimit(30)]
    fn set_current_cluster_index<D: Device>(&mut self, fat: &mut FAT<D>, new_cluster_index: usize) -> (r: Result<
        (),
        Status,
    >)
        requires
            old(self).inv(*old(fat)),
        ensures
            final(fat).same_layout(*old(fat)),
            new_cluster_index == old(self).current_cluster_index ==> r is Ok && *final(self) == *old(self)
                && *final(fat) == *old(fat),
            new_cluster_index > old(self).cluster_chain@.len() ==> r == Err::<(), Status>(Status::OutOfRange)
                && *final(self) == *old(self) && *final(fat) == *old(fat),
            sectors_kept(*final(fat), *old(fat), old(self).cluster_chain@),
            new_cluster_index != old(self).cluster_chain@.len() ==> final(self).cluster_chain@ == old(self).cluster_chain@,
            !old(self).modified ==> !final(self).modified && final(fat).data_unchanged(*old(fat)),
            r is Ok ==> final(self).inv(*final(fat)) && final(self).current_cluster_index == new_cluster_index
                && final(fat).same_layout(*old(fat)),
            r is Ok && new_cluster_index != old(self).current_cluster_index ==> !final(self).modified,
            r is Ok && new_cluster_index < old(self).cluster_chain@.len() ==> final(self).cluster_chain@
                == old(self).cluster_chain@ && final(fat).table() == old(fat).table()
                && final(fat).search_start() == old(fat).search_start()
                && final(self).clusters(*final(fat)) == old(self).clusters(*old(fat)),
            r is Ok && new_cluster_index == old(self).cluster_chain@.len() ==> ({
                let c = final(self).cluster_chain@.last();
                let l = old(self).cluster_chain@;
                &&& final(self).cluster_chain@ == l.push(c)
                &&& first_free(old(fat).table(), old(fat).search_start() as int, old(fat).top() as int) == Some(c)
                &&& final(fat).table() == old(fat).table().insert(c, END_OF_CHAIN).insert(
                    l.last(),
                    value_of(ClusterState::Next(c)),
                )
                &&& final(fat).search_start() == c
                &&& final(self).clusters(*final(fat)) == old(self).clusters(*old(fat)).push(old(fat).cluster_data(c))
            }),
    {
        proof {
            fat.lemma_same_layout_refl_trans(*fat, *fat);
        }
        if new_cluster_index == self.current_cluster_index {
            return Ok(());
        }
        let ghost f0 = *fat;
        let ghost b0 = *self;
        proof {
            b0.lemma_inv(f0);
        }
        if new_cluster_index == self.cluster_chain.len() {
            match self.append_cluster(fat) {
                Ok(()) => {},
                Err(e) => {
                    proof {
                        assert(sectors_kept(*fat, f0, b0.cluster_chain@));
                    }
                    return Err(e);
                },
            }
        } else if new_cluster_index > self.cluster_chain.len() {
            return Err(Status::OutOfRange);
        }
        let ghost f1 = *fat;
        let ghost b1 = *self;
        proof {
            b1.lemma_inv(f1);
            f1.lemma_same_layout_refl_trans(f0, f0);
        }
        let r = self.flush_buffer(fat);
        let ghost f2 = *fat;
        proof {
            f2.lemma_same_layout(f1);
            f1.lemma_same_layout(f0);
            f2.lemma_same_layout_refl_trans(f1, f0);
            assert(sectors_kept(f2, f0, b0.cluster_chain@)) by {
                assert forall|a: int|
                    a >= f0.spec_first_data_sector() && (forall|k: int|
                        0 <= k < b0.cluster_chain@.len() ==> a != f0.sector_of_cluster(
                            #[trigger] b0.cluster_chain@[k],
                        )) implies #[trigger] f2.spec_drive().block(a) == f0.spec_drive().block(a) by {
                    assert(a != f0.sector_of_cluster(b0.cluster_chain@[b0.current_cluster_index as int]));
                    assert(b1.cluster_chain@[b1.current_cluster_index as int] == b0.cluster_chain@[b0.current_cluster_index as int]);
                }
            }
        }
        match r {
            Ok(()) => {},
            Err(e) => {
                return Err(e);
            },
        }
        proof {
            self.lemma_inv(*fat);
        }
        self.current_cluster_index = new_cluster_index;
        let cluster = self.cluster_chain[self.current_cluster_index];
        let r = fat.read_cluster(cluster, &mut self.buffer);
        proof {
            fat.lemma_same_layout(f2);
            fat.lemma_same_layout_refl_trans(f2, f0);
            fat.lemma_search_start();
            f2.lemma_search_start();
            assert(fat.data_unchanged(f2));
            fat.lemma_volume_ok_kept(f2);
            assert(sectors_kept(*fat, f0, b0.cluster_chain@)) by {
                assert forall|a: int|
                    a >= f0.spec_first_data_sector() && (forall|k: int|
                        0 <= k < b0.cluster_chain@.len() ==> a != f0.sector_of_cluster(
                            #[trigger] b0.cluster_chain@[k],
                        )) implies #[trigger] fat.spec_drive().block(a) == f0.spec_drive().block(a) by {
                    assert(f2.spec_drive().block(a) == f0.spec_drive().block(a));
                }
            }
        }
        match r {
            Ok(()) => {},
            Err(e) => {
                return Err(e);
            },
        }
        proof {
            let l = self.cluster_chain@;
            let cur = new_cluster_index as int;
            assert forall|k: int| 0 <= k < l.len() implies #[trigger] self.clusters(*fat)[k] == b1.clusters(f1)[k] by {
                if k == b1.current_cluster_index {
                    assert(self.clusters(*fat)[k] == fat.cluster_data(l[k]));
                }
            }
            assert(self.clusters(*fat) =~= b1.clusters(f1));
        }
        Ok(())
    }

    /// The bytes at `offset` of the cached cluster, as many as `buffer` holds.
    fn read(&self, offset: usize, buffer: &mut [u8]) -> (r: Result<(), Status>)
        requires
            offset + old(buffer)@.len() <= usize::MAX,
        ensures
            offset + old(buffer)@.len() > self.buffer@.len() ==> r == Err::<(), Status>(Status::OutOfRange)
                && final(buffer)@ == old(buffer)@,
            offset + old(buffer)@.len() <= self.buffer@.len() ==> r is Ok && final(buffer)@ == self.buffer@.subrange(
                offset as int,
                offset + old(buffer)@.len(),
            ),
    {
        if offset + buffer.len() > self.buffer.len() {
            return Err(Status::OutOfRange);
        }
        let n = buffer.len();
        let mut i: usize = 0;
        while i < n
            invariant
                n == buffer@.len(),
                n == old(buffer)@.len(),
                offset + n <= self.buffer@.len(),
                offset + n <= usize::MAX,
                i <= n,
                forall|j: int| 0 <= j < i ==> #[trigger] buffer@[j] == self.buffer@[offset + j],
            decreases n - i,
        {
            buffer[i] = self.buffer[i + offset];
            i = i + 1;
        }
        assert(buffer@ =~= self.buffer@.subrange(offset as int, offset + n));
        Ok(())
    }

    /// Stores `data` at `offset` in the cached cluster.
    fn write(&mut self, offset: usize, data: &[u8]) -> (r: Result<(), Status>)
        requires
            offset + data@.len() <= usize::MAX,
        ensures
            final(self).cluster_chain@ == old(self).cluster_chain@,
            final(self).current_cluster_index == old(self).current_cluster_index,
            offset + data@.len() > old(self).buffer@.len() ==> r == Err::<(), Status>(Status::OutOfRange)
                && *final(self) == *old(self),
            offset + data@.len() <= old(self).buffer@.len() ==> r is Ok && final(self).modified && final(self).buffer@
                == old(self).buffer@.subrange(0, offset as int) + data@ + old(self).buffer@.subrange(
                offset + data@.len(),
                old(self).buffer@.len() as int,
            ),
    {
        if offset + data.len() > self.buffer.len() {
            return Err(Status::OutOfRange);
        }
        self.modified = true;
        let n = data.len();
        let ghost before = self.buffer@;
        let mut i: usize = 0;
        while i < n
            invariant
                n == data@.len(),
                offset + n <= before.len(),
                offset + n <= usize::MAX,
                self.buffer@.len() == before.len(),
                self.cluster_chain@ == old(self).cluster_chain@,
                self.current_cluster_index == old(self).current_cluster_index,
                self.modified,
                i <= n,
                forall|j: int|
                    0 <= j < before.len() ==> #[trigger] self.buffer@[j] == if offset <= j < offset + i {
                        data@[j - offset]
                    } else {
                        before[j]
                    },
            decreases n - i,
        {
            self.buffer.set(i + offset, data[i]);
            i = i + 1;
        }
        assert(self.buffer@ =~= before.subrange(0, offset as int) + data@ + before.subrange(
            offset + n,
            before.len() as int,
        ));
        Ok(())
    }

    /// The cache over the first cluster of the chain that starts at `first_cluster`.
    fn new<D: Device>(first_cluster: u32, fat: &mut FAT<D>) -> (r: Result<Self, Status>)
        requires
            old(fat).wf(),
            old(fat).volume_ok(),
            data_chain(old(fat).table(), first_cluster),
        ensures
            final(fat).same_layout(*old(fat)),
            r is Ok ==> final(fat).wf() && final(fat).volume_ok() && final(fat).same_layout(*old(fat))
                && final(fat).table() == old(fat).table() && final(fat).search_start() == old(fat).search_start(),
            final(fat).data_unchanged(*old(fat)),
            r matches Ok(b) ==> b.inv(*final(fat)) && b.cluster_chain@ == chain(old(fat).table(), first_cluster)
                && b.current_cluster_index == 0 && !b.modified,
    {
        let bytes_per_cluster = fat.bytes_per_cluster();
        let mut buffer: Vec<u8> = vec![0u8; bytes_per_cluster];
        let ghost f0 = *fat;
        let cluster_chain = match fat.get_cluster_chain(first_cluster) {
            Ok(v) => v,
            Err(e) => {
                return Err(e);
            },
        };
        let ghost f1 = *fat;
        proof {
            f1.lemma_same_layout(f0);
            f0.lemma_search_start();
            f1.lemma_search_start();
            lemma_chain_is_chain(f0.table(), first_cluster);
            lemma_chain_step(f0.table(), first_cluster);
            f0.lemma_table_domain();
            assert(f0.table().contains_key(first_cluster));
            f1.lemma_volume_ok_kept(f0);
        }
        let first = cluster_chain[0];
        proof {
            assert(first == first_cluster);
            assert(2 <= first < f1.top());
            assert(f1.cluster_ok(first));
        }
        match fat.read_cluster(first, &mut buffer) {
            Ok(()) => {},
            Err(e) => {
                return Err(e);
            },
        }
        proof {
            fat.lemma_same_layout(f1);
            fat.lemma_search_start();
            fat.lemma_same_layout_refl_trans(f1, f0);
            assert(fat.data_unchanged(f1));
            fat.lemma_volume_ok_kept(f1);
        }
        Ok(Buffer { buffer, current_cluster_index: 0, cluster_chain, modified: false })
    }
}


/// Whether a scan can take the record `rec`.
fn record_takeable(rec: &[u8; 32]) -> (r: bool)
    ensures
        r == record_ok(rec@),
{
    !(rec[0] != 0 && rec[0] != 0xE5 && rec[11] & ATTRIBUTE_LONG_FILE_NAME == ATTRIBUTE_LONG_FILE_NAME && rec[0] & 0x40
        != 0 && rec[0] & !0x40u8 > 19)
}

/// Directory record number `j` in the clusters `cls` of `bpc` bytes each: the 32 bytes at
/// byte `32 j` of the directory.
pub open spec fn record(cls: Seq<Seq<u8>>, bpc: int, j: int) -> Seq<u8> {
    cls[(j * 32) / bpc].subrange((j * 32) % bpc, (j * 32) % bpc + 32)
}

/// Record `j` lies within the clusters.
pub open spec fn in_clusters(cls: Seq<Seq<u8>>, bpc: int, j: int) -> bool {
    0 <= j && (j * 32) / bpc < cls.len()
}

/// The state of a scan before it has read any record.
pub open spec fn fresh() -> StateView {
    (Seq::new(256, |i: int| 0u16), 0u8, 0u8)
}

/// The state of a scan that started after record `i`, as it comes to record `k`: the
/// records in between taken in turn, starting afresh after each entry.
pub open spec fn scan_state(cls: Seq<Seq<u8>>, bpc: int, i: int, k: int) -> StateView
    decreases k - i,
{
    if k <= i + 1 {
        fresh()
    } else {
        let prev = scan_step(scan_state(cls, bpc, i, k - 1), record(cls, bpc, k - 1));
        if prev.1 is Entry {
            fresh()
        } else {
            prev.0
        }
    }
}

/// What record `k` tells a scan that started after record `i`.
pub open spec fn step_at(cls: Seq<Seq<u8>>, bpc: int, i: int, k: int) -> StepView {
    scan_step(scan_state(cls, bpc, i, k), record(cls, bpc, k)).1
}

/// A scan that starts after record `i` comes, within the clusters, to an entry or to the
/// end, and every record it reads on the way can be taken.
pub open spec fn scan_stops(cls: Seq<Seq<u8>>, bpc: int, i: int) -> bool {
    exists|k: int|
        i < k && in_clusters(cls, bpc, k) && !(#[trigger] step_at(cls, bpc, i, k) is Skip) && forall|m: int|
            i < m <= k ==> record_ok(#[trigger] record(cls, bpc, m))
}

/// Every record that a scan started after record `i` reads can be taken: within the
/// clusters `cls` of the chain `l0` on `fat`, and within the clusters that the volume
/// appends to the chain when the scan runs past its end.
#[verifier::opaque]
pub open spec fn scan_safe<D: Device>(cls: Seq<Seq<u8>>, fat: FAT<D>, l0: Seq<u32>, i: int) -> bool {
    forall|news: Seq<u32>, k: int|
        #![trigger allocated(fat.table(), fat.search_start(), fat.top(), l0.last(), news), record(grown_clusters(cls, fat, news), fat.spec_bytes_per_cluster() as int, k)]
        allocated(fat.table(), fat.search_start(), fat.top(), l0.last(), news) && i < k && in_clusters(
            grown_clusters(cls, fat, news),
            fat.spec_bytes_per_cluster() as int,
            k,
        ) && skipped(grown_clusters(cls, fat, news), fat.spec_bytes_per_cluster() as int, i, k) ==> record_ok(
            record(grown_clusters(cls, fat, news), fat.spec_bytes_per_cluster() as int, k),
        )
}

/// `after` over `fa` is `before` over `fb` once a scan read on: the chain grew by the
/// clusters that the allocation policy takes, with the data the volume held in them, and
/// the table and the search for a free cluster record that growth.
pub open spec fn scan_grew<D: Device>(before: DirectoryIterator, fb: FAT<D>, after: DirectoryIterator, fa: FAT<D>) -> bool {
    let l0 = before.chain();
    let news = after.chain().skip(l0.len() as int);
    &&& after.chain() == l0 + news
    &&& allocated(fb.table(), fb.search_start(), fb.top(), l0.last(), news)
    &&& fa.table() == extended(fb.table(), l0.last(), news)
    &&& fa.search_start() == (if news.len() == 0 {
        fb.search_start()
    } else {
        news.last()
    })
    &&& after.clusters(fa) == grown_clusters(before.clusters(fb), fb, news)
}

/// The records after `i` and before `k` tell a scan that started after `i` nothing.
pub open spec fn skipped(cls: Seq<Seq<u8>>, bpc: int, i: int, k: int) -> bool {
    forall|m: int| i < m < k ==> #[trigger] step_at(cls, bpc, i, m) is Skip
}

/// `cls` with the 32 bytes of record `j` replaced by `rec`.
pub open spec fn with_record(cls: Seq<Seq<u8>>, bpc: int, j: int, rec: Seq<u8>) -> Seq<Seq<u8>> {
    let ci = (j * 32) / bpc;
    let off = (j * 32) % bpc;
    cls.update(ci, cls[ci].subrange(0, off) + rec + cls[ci].subrange(off + 32, cls[ci].len() as int))
}

/// Directory record `rec` with its first cluster and its size replaced: the cluster's high
/// and low halves and the size modulo 2^32, each least significant byte first.
pub open spec fn with_metadata(rec: Seq<u8>, cluster: u32, size: usize) -> Seq<u8> {
    rec.subrange(0, 20) + le16_bytes((cluster / 65536) as u16) + rec.subrange(22, 26) + le16_bytes(
        (cluster % 65536) as u16,
    ) + le32_bytes(size as u32)
}

/// A record that is free: never used, or left by a removed entry.
pub open spec fn free_record(rec: Seq<u8>) -> bool {
    rec[0] == 0 || rec[0] == 0xE5
}

/// Record `m` lies within the clusters and is free.
pub open spec fn free_at(cls: Seq<Seq<u8>>, bpc: int, m: int) -> bool {
    in_clusters(cls, bpc, m) && free_record(record(cls, bpc, m))
}

/// The `n` records up to and including record `k` lie within the clusters and are free.
pub open spec fn free_run(cls: Seq<Seq<u8>>, bpc: int, k: int, n: int) -> bool {
    forall|m: int| k - n < m <= k ==> #[trigger] free_at(cls, bpc, m)
}

/// `cls` after `recs[t]` was stored in record `k - t`, for each `t` in turn.
pub open spec fn written(cls: Seq<Seq<u8>>, bpc: int, k: int, recs: Seq<Seq<u8>>) -> Seq<Seq<u8>>
    decreases recs.len(),
{
    if recs.len() == 0 {
        cls
    } else {
        with_record(written(cls, bpc, k, recs.drop_last()), bpc, k - (recs.len() - 1), recs.last())
    }
}

/// The clusters `cls` of a chain followed by the data, as `fat` holds it, of the clusters
/// `news` appended to it.
pub open spec fn grown_clusters<D: Device>(cls: Seq<Seq<u8>>, fat: FAT<D>, news: Seq<u32>) -> Seq<Seq<u8>> {
    cls + news.map_values(|c: u32| fat.cluster_data(c))
}

/// The records that store an entry: its 8.3 record, then its long name records in order.
pub open spec fn entry_records(d: DiskDirectoryEntry, longs: Seq<LongDirectoryEntry>) -> Seq<Seq<u8>> {
    seq![d.bytes()] + longs.map_values(|e: LongDirectoryEntry| e.bytes())
}

/// `after` over `fa` is `before` over `fb` moved to the end of the first run of `n` free
/// records after the current one: the chain grew by the clusters that the allocation
/// policy takes, the records and the table are otherwise as they were, and only the
/// chain's clusters were written.
pub open spec fn searched<D: Device>(before: DirectoryIterator, fb: FAT<D>, after: DirectoryIterator, fa: FAT<D>, n: int) -> bool {
    let l0 = before.chain();
    let news = after.chain().skip(l0.len() as int);
    let bpc = fb.spec_bytes_per_cluster() as int;
    let k = after.index();
    let grown = grown_clusters(before.clusters(fb), fb, news);
    &&& after.chain() == l0 + news
    &&& allocated(fb.table(), fb.search_start(), fb.top(), l0.last(), news)
    &&& fa.table() == extended(fb.table(), l0.last(), news)
    &&& k - n >= before.index()
    &&& free_run(grown, bpc, k, n)
    &&& forall|k2: int| before.index() + n <= k2 < k ==> !free_run(grown, bpc, k2, n)
    &&& after.clusters(fa) == grown
    &&& sectors_kept(fa, fb, after.chain())
}

/// `after` over `fa` is `before` over `fb` with an entry created whose records are `recs`:
/// the chain grew by the clusters that the allocation policy takes, the records were
/// written from the end of the first run of free records after the current one that is
/// long enough for them, backwards, the current record is the first written, and only the
/// chain's clusters were written.
pub open spec fn created<D: Device>(
    before: DirectoryIterator,
    fb: FAT<D>,
    after: DirectoryIterator,
    fa: FAT<D>,
    recs: Seq<Seq<u8>>,
) -> bool {
    let l0 = before.chain();
    let news = after.chain().skip(l0.len() as int);
    let bpc = fb.spec_bytes_per_cluster() as int;
    let n = recs.len() as int;
    let k = after.index() + n - 1;
    let grown = grown_clusters(before.clusters(fb), fb, news);
    &&& after.chain() == l0 + news
    &&& allocated(fb.table(), fb.search_start(), fb.top(), l0.last(), news)
    &&& fa.table() == extended(fb.table(), l0.last(), news)
    &&& k - n >= before.index()
    &&& free_run(grown, bpc, k, n)
    &&& forall|k2: int| before.index() + n <= k2 < k ==> !free_run(grown, bpc, k2, n)
    &&& after.clusters(fa) == written(grown, bpc, k, recs)
    &&& sectors_kept(fa, fb, after.chain())
}

/// A record within a chain's clusters lies within them, and reads the same, once more
/// clusters are appended.
proof fn lemma_record_grown(cls: Seq<Seq<u8>>, more: Seq<Seq<u8>>, bpc: int, m: int)
    requires
        in_clusters(cls, bpc, m),
        bpc > 0,
    ensures
        in_clusters(cls + more, bpc, m),
        record(cls + more, bpc, m) == record(cls, bpc, m),
{
    let ci = (m * 32) / bpc;
    assert(ci >= 0) by (nonlinear_arith)
        requires
            m >= 0,
            bpc > 0,
            ci == (m * 32) / bpc,
    ;
    assert((cls + more)[ci] == cls[ci]);
}

/// A scan reads the same records of a chain's clusters once more clusters are appended.
proof fn lemma_scan_grown(cls: Seq<Seq<u8>>, more: Seq<Seq<u8>>, bpc: int, i: int, k: int)
    requires
        bpc > 0,
        0 <= i,
        k <= i + 1 || in_clusters(cls, bpc, k - 1),
    ensures
        scan_state(cls + more, bpc, i, k) == scan_state(cls, bpc, i, k),
        forall|m: int| i < m < k ==> #[trigger] step_at(cls + more, bpc, i, m) == step_at(cls, bpc, i, m),
        skipped(cls + more, bpc, i, k) == skipped(cls, bpc, i, k),
    decreases k - i,
{
    if k > i + 1 {
        if k - 1 > i + 1 {
            lemma_in_clusters_before(cls, bpc, k - 1, k - 2);
        }
        lemma_scan_grown(cls, more, bpc, i, k - 1);
        lemma_record_grown(cls, more, bpc, k - 1);
        assert(step_at(cls + more, bpc, i, k - 1) == step_at(cls, bpc, i, k - 1));
    }
    assert(skipped(cls + more, bpc, i, k) == skipped(cls, bpc, i, k));
}

/// A scan that comes to a stop within the chain's clusters reads only records it can take,
/// whatever the volume would append.
pub proof fn lemma_stops_safe<D: Device>(cls: Seq<Seq<u8>>, fat: FAT<D>, l0: Seq<u32>, i: int)
    requires
        fat.spec_bytes_per_cluster() > 0,
        0 <= i,
        scan_stops(cls, fat.spec_bytes_per_cluster() as int, i),
    ensures
        scan_safe(cls, fat, l0, i),
{
    reveal(scan_safe);
    let bpc = fat.spec_bytes_per_cluster() as int;
    let kw = choose|k: int|
        i < k && in_clusters(cls, bpc, k) && !(#[trigger] step_at(cls, bpc, i, k) is Skip) && forall|m: int|
            i < m <= k ==> record_ok(#[trigger] record(cls, bpc, m));
    assert forall|news: Seq<u32>, k: int|
        allocated(fat.table(), fat.search_start(), fat.top(), l0.last(), news) && i < k && in_clusters(
            grown_clusters(cls, fat, news),
            bpc,
            k,
        ) && skipped(grown_clusters(cls, fat, news), bpc, i, k) implies record_ok(
        #[trigger] record(grown_clusters(cls, fat, news), bpc, k),
    ) by {
        let more = news.map_values(|c: u32| fat.cluster_data(c));
        assert(grown_clusters(cls, fat, news) == cls + more);
        lemma_scan_grown(cls, more, bpc, i, kw + 1);
        if k > kw {
            assert(step_at(cls + more, bpc, i, kw) is Skip);
        }
        lemma_in_clusters_before(cls, bpc, kw, k);
        lemma_record_grown(cls, more, bpc, k);
    }
}

/// A scan from the start that finds no end record up to `k - 1`, with record `k` past the
/// clusters, comes to no end within them.
proof fn lemma_no_end_within(cls: Seq<Seq<u8>>, bpc: int, k: int)
    requires
        bpc > 0,
        0 < k,
        !in_clusters(cls, bpc, k),
        forall|m: int| 0 < m < k ==> !(#[trigger] step_at(cls, bpc, 0, m) is End),
    ensures
        !listing_ok(cls, bpc),
{
    if listing_ok(cls, bpc) {
        let e = choose|e: int|
            0 < e && in_clusters(cls, bpc, e) && #[trigger] step_at(cls, bpc, 0, e) is End && forall|m: int|
                0 < m <= e ==> record_ok(#[trigger] record(cls, bpc, m));
        if e >= k {
            lemma_in_clusters_before(cls, bpc, e, k);
        }
        assert(step_at(cls, bpc, 0, e) is End);
    }
}

/// A scan from the start that finds no end record before record `k`, which it cannot take,
/// comes to no end reading only records it can take.
proof fn lemma_bad_record_before_end(cls: Seq<Seq<u8>>, bpc: int, k: int)
    requires
        0 < k,
        !record_ok(record(cls, bpc, k)),
        forall|m: int| 0 < m < k ==> !(#[trigger] step_at(cls, bpc, 0, m) is End),
    ensures
        !listing_ok(cls, bpc),
{
    if listing_ok(cls, bpc) {
        let e = choose|e: int|
            0 < e && in_clusters(cls, bpc, e) && #[trigger] step_at(cls, bpc, 0, e) is End && forall|m: int|
                0 < m <= e ==> record_ok(#[trigger] record(cls, bpc, m));
        if e >= k {
            assert(record_ok(record(cls, bpc, k)));
        }
        assert(step_at(cls, bpc, 0, e) is End);
    }
}

/// A record before one within the clusters lies within them.
pub proof fn lemma_in_clusters_before(cls: Seq<Seq<u8>>, bpc: int, m: int, m2: int)
    requires
        in_clusters(cls, bpc, m),
        0 <= m2 <= m,
        bpc > 0,
    ensures
        in_clusters(cls, bpc, m2),
{
    vstd::arithmetic::div_mod::lemma_div_is_ordered(m2 * 32, m * 32, bpc);
}

/// Facts about the free records up to a record within the clusters stay true once more
/// clusters are appended.
proof fn lemma_runs_grown(cls: Seq<Seq<u8>>, more: Seq<Seq<u8>>, bpc: int, i0: int, idx: int, count: int, n: int)
    requires
        bpc > 0,
        0 <= i0 <= idx,
        0 <= count <= idx - i0,
        idx == i0 || in_clusters(cls, bpc, idx),
        free_run(cls, bpc, idx, count),
        idx - count == i0 || !free_record(record(cls, bpc, idx - count)),
        forall|k2: int| i0 + n <= k2 <= idx ==> !free_run(cls, bpc, k2, n),
        n >= 1,
    ensures
        free_run(cls + more, bpc, idx, count),
        idx - count == i0 || !free_record(record(cls + more, bpc, idx - count)),
        forall|k2: int| i0 + n <= k2 <= idx ==> !free_run(cls + more, bpc, k2, n),
{
    let c2 = cls + more;
    assert forall|m: int| idx - count < m <= idx implies #[trigger] free_at(c2, bpc, m) by {
        assert(free_at(cls, bpc, m));
        lemma_record_grown(cls, more, bpc, m);
    }
    if idx - count != i0 {
        lemma_in_clusters_before(cls, bpc, idx, idx - count);
        lemma_record_grown(cls, more, bpc, idx - count);
    }
    assert forall|k2: int| i0 + n <= k2 <= idx implies !free_run(c2, bpc, k2, n) by {
        if free_run(c2, bpc, k2, n) {
            assert forall|m: int| k2 - n < m <= k2 implies #[trigger] free_at(cls, bpc, m) by {
                assert(free_at(c2, bpc, m));
                lemma_in_clusters_before(cls, bpc, idx, m);
                lemma_record_grown(cls, more, bpc, m);
            }
            assert(!free_run(cls, bpc, k2, n));
        }
    }
}

/// A free cluster appended in the course of a search keeps the account of the growth: the
/// clusters taken so far, the table, where the next search starts, the clusters' data and
/// the sectors kept.
proof fn lemma_search_grew<D: Device>(
    f0: FAT<D>,
    f1: FAT<D>,
    f2: FAT<D>,
    s1: DirectoryIterator,
    s2: DirectoryIterator,
    l0: Seq<u32>,
    cls0: Seq<Seq<u8>>,
    news: Seq<u32>,
) -> (news2: Seq<u32>)
    requires
        s1.inv(f1),
        f1.same_layout(f0),
        f2.same_layout(f1),
        s1.chain() == l0 + news,
        l0.len() > 0,
        allocated(f0.table(), f0.search_start(), f0.top(), l0.last(), news),
        f1.table() == extended(f0.table(), l0.last(), news),
        f1.search_start() == (if news.len() == 0 {
            f0.search_start()
        } else {
            news.last()
        }),
        s1.clusters(f1) == grown_clusters(cls0, f0, news),
        sectors_kept(f1, f0, s1.chain()),
        s2.chain() == s1.chain().push(s2.chain().last()),
        first_free(f1.table(), f1.search_start() as int, f1.top() as int) == Some(s2.chain().last()),
        f2.table() == f1.table().insert(s2.chain().last(), END_OF_CHAIN).insert(
            s1.chain().last(),
            value_of(ClusterState::Next(s2.chain().last())),
        ),
        f2.search_start() == s2.chain().last(),
        s2.clusters(f2) == s1.clusters(f1).push(f1.cluster_data(s2.chain().last())),
        sectors_kept(f2, f1, s1.chain()),
    ensures
        news2 == news.push(s2.chain().last()),
        s2.chain() == l0 + news2,
        allocated(f0.table(), f0.search_start(), f0.top(), l0.last(), news2),
        f2.table() == extended(f0.table(), l0.last(), news2),
        f2.search_start() == (if news2.len() == 0 {
            f0.search_start()
        } else {
            news2.last()
        }),
        s2.clusters(f2) == grown_clusters(cls0, f0, news2),
        s2.clusters(f2) == s1.clusters(f1) + seq![f0.cluster_data(s2.chain().last())],
        sectors_kept(f2, f0, s2.chain()),
{
    let c = s2.chain().last();
    let lprev = l0 + news;
    s1.lemma_inv(f1);
    f1.lemma_same_layout(f0);
    f1.lemma_table_domain();
    lemma_first_free(f1.table(), f1.search_start() as int, f1.top() as int);
    assert(lprev.last() == (if news.len() == 0 {
        l0.last()
    } else {
        news.last()
    }));
    lemma_allocated_push(f0.table(), f0.search_start(), f0.top(), l0.last(), news, c);
    lemma_append_cluster(f1.table(), lprev, c);
    assert(f1.cluster_data(c) == f0.cluster_data(c)) by {
        f0.lemma_data_sector(c);
        f1.lemma_sectors_per_cluster();
        assert forall|j: int| 0 <= j < lprev.len() implies f0.sector_of_cluster(c) != f0.sector_of_cluster(
            #[trigger] lprev[j],
        ) by {
            assert(lprev[j] != c);
            f0.lemma_sector_injective(c, lprev[j]);
        }
    }
    let news2 = news.push(c);
    assert(l0 + news2 =~= lprev.push(c));
    assert(grown_clusters(cls0, f0, news2) =~= s1.clusters(f1).push(f0.cluster_data(c)));
    assert(s1.clusters(f1).push(f0.cluster_data(c)) =~= s1.clusters(f1) + seq![f0.cluster_data(c)]);
    assert(lprev.push(c).take(lprev.len() as int) =~= lprev);
    assert(lprev.take(lprev.len() as int) =~= lprev);
    lemma_sectors_kept_trans(f0, f1, f2, lprev, lprev);
    f2.lemma_same_layout_refl_trans(f1, f0);
    lemma_sectors_kept_trans(f0, f2, f2, lprev, lprev.push(c));
    news2
}

/// One record read by a scan keeps the account of the scan: the chain grew by the clusters
/// that the allocation policy takes where the record lay past its end, the scan up to the
/// record reads as before, and the record can be taken.
proof fn lemma_next_read<D: Device>(
    f0: FAT<D>,
    f1: FAT<D>,
    f2: FAT<D>,
    s1: DirectoryIterator,
    s2: DirectoryIterator,
    l0: Seq<u32>,
    cls0: Seq<Seq<u8>>,
    news: Seq<u32>,
    i0: int,
) -> (news2: Seq<u32>)
    requires
        s1.inv(f1),
        f1.same_layout(f0),
        f2.same_layout(f1),
        s1.chain() == l0 + news,
        l0.len() > 0,
        allocated(f0.table(), f0.search_start(), f0.top(), l0.last(), news),
        f1.table() == extended(f0.table(), l0.last(), news),
        f1.search_start() == (if news.len() == 0 {
            f0.search_start()
        } else {
            news.last()
        }),
        s1.clusters(f1) == grown_clusters(cls0, f0, news),
        sectors_kept(f1, f0, s1.chain()),
        0 <= i0 <= s1.index(),
        s2.index() == s1.index() + 1,
        s1.index() == i0 || in_clusters(s1.clusters(f1), f0.spec_bytes_per_cluster() as int, s1.index()),
        skipped(s1.clusters(f1), f0.spec_bytes_per_cluster() as int, i0, s2.index()),
        scan_safe(cls0, f0, l0, i0),
        s2.inv(f2),
        in_clusters(s2.clusters(f2), f0.spec_bytes_per_cluster() as int, s2.index()),
        sectors_kept(f2, f1, s1.chain()),
        in_clusters(s1.clusters(f1), f0.spec_bytes_per_cluster() as int, s2.index()) ==> s2.chain() == s1.chain()
            && f2.table() == f1.table() && f2.search_start() == f1.search_start() && s2.clusters(f2) == s1.clusters(f1),
        !in_clusters(s1.clusters(f1), f0.spec_bytes_per_cluster() as int, s2.index()) ==> ({
            let c = s2.chain().last();
            let l = s1.chain();
            &&& s2.chain() == l.push(c)
            &&& first_free(f1.table(), f1.search_start() as int, f1.top() as int) == Some(c)
            &&& f2.table() == f1.table().insert(c, END_OF_CHAIN).insert(l.last(), value_of(ClusterState::Next(c)))
            &&& f2.search_start() == c
            &&& s2.clusters(f2) == s1.clusters(f1).push(f1.cluster_data(c))
        }),
    ensures
        s2.chain() == l0 + news2,
        allocated(f0.table(), f0.search_start(), f0.top(), l0.last(), news2),
        f2.table() == extended(f0.table(), l0.last(), news2),
        f2.search_start() == (if news2.len() == 0 {
            f0.search_start()
        } else {
            news2.last()
        }),
        s2.clusters(f2) == grown_clusters(cls0, f0, news2),
        sectors_kept(f2, f0, s2.chain()),
        record_ok(record(s2.clusters(f2), f0.spec_bytes_per_cluster() as int, s2.index())),
        scan_state(s2.clusters(f2), f0.spec_bytes_per_cluster() as int, i0, s2.index()) == scan_state(
            s1.clusters(f1),
            f0.spec_bytes_per_cluster() as int,
            i0,
            s2.index(),
        ),
        skipped(s2.clusters(f2), f0.spec_bytes_per_cluster() as int, i0, s2.index()),
        s2.index() * 32 <= f0.top() * f0.spec_bytes_per_cluster(),
        in_clusters(s1.clusters(f1), f0.spec_bytes_per_cluster() as int, s2.index()) ==> news2 == news,
{
    reveal(scan_safe);
    let bpc = f0.spec_bytes_per_cluster() as int;
    let k = s2.index();
    let cls1 = s1.clusters(f1);
    f1.lemma_same_layout(f0);
    f2.lemma_same_layout(f1);
    f2.lemma_same_layout_refl_trans(f1, f0);
    s1.lemma_inv(f1);
    s2.lemma_inv(f2);
    let news2 = if in_clusters(cls1, bpc, k) {
        assert((l0 + news).take((l0 + news).len() as int) =~= l0 + news);
        lemma_sectors_kept_trans(f0, f1, f2, l0 + news, l0 + news);
        news
    } else {
        let c = s2.chain().last();
        let n2 = lemma_search_grew(f0, f1, f2, s1, s2, l0, cls0, news);
        lemma_scan_grown(cls1, seq![f0.cluster_data(c)], bpc, i0, k);
        n2
    };
    assert(s2.clusters(f2) == grown_clusters(cls0, f0, news2));
    let len = s2.chain().len();
    assert(k * 32 < len * bpc) by (nonlinear_arith)
        requires
            (k * 32) / bpc < len,
            bpc > 0,
            k >= 0,
    {
        vstd::arithmetic::div_mod::lemma_fundamental_div_mod(k * 32, bpc);
        vstd::arithmetic::div_mod::lemma_mod_bound(k * 32, bpc);
    }
    assert(len * bpc <= f0.top() * bpc) by (nonlinear_arith)
        requires
            len <= f0.top(),
            bpc > 0,
    ;
    news2
}

/// Writing records keeps the number of clusters.
proof fn lemma_written_len(cls: Seq<Seq<u8>>, bpc: int, k: int, recs: Seq<Seq<u8>>)
    requires
        bpc > 0,
        forall|j: int| k - recs.len() < j <= k ==> #[trigger] in_clusters(cls, bpc, j),
    ensures
        written(cls, bpc, k, recs).len() == cls.len(),
    decreases recs.len(),
{
    if recs.len() > 0 {
        lemma_written_len(cls, bpc, k, recs.drop_last());
        let w = written(cls, bpc, k, recs.drop_last());
        let j = k - (recs.len() - 1);
        assert(in_clusters(cls, bpc, j));
        let ci = (j * 32) / bpc;
        assert(ci >= 0) by (nonlinear_arith)
            requires
                j >= 0,
                bpc > 0,
                ci == (j * 32) / bpc,
        ;
        assert(with_record(w, bpc, j, recs.last()).len() == w.len());
    }
}

/// An entry that to_disk_entries accepts has at most 255 long name records.
proof fn lemma_lfn_count_bound(entry: DirectoryEntry)
    requires
        entry.spec_is_directory() || entry.spec_name().len() < 3315,
    ensures
        entry.spec_needs_long_name() ==> lfn_count(entry.spec_name().len()) <= 255,
{
}

/// Record `i` lies whole within its cluster.
pub open spec fn fits(bpc: int, i: int) -> bool {
    (i * 32) % bpc + 32 <= bpc
}

/// In clusters of a whole number of records, every record fits its cluster.
pub proof fn lemma_fits_whole_records(bpc: int, i: int)
    requires
        bpc > 0,
        bpc % 32 == 0,
        i >= 0,
    ensures
        fits(bpc, i),
{
    let q = bpc / 32;
    let x = (i * 32) % bpc;
    let d = (i * 32) / bpc;
    vstd::arithmetic::div_mod::lemma_fundamental_div_mod(i * 32, bpc);
    vstd::arithmetic::div_mod::lemma_mod_bound(i * 32, bpc);
    assert(bpc == 32 * q);
    assert(x == 32 * (i - q * d)) by (nonlinear_arith)
        requires
            i * 32 == bpc * d + x,
            bpc == 32 * q,
    ;
    assert(i - q * d < q) by (nonlinear_arith)
        requires
            x == 32 * (i - q * d),
            x < bpc,
            bpc == 32 * q,
    ;
    assert(x + 32 <= bpc) by (nonlinear_arith)
        requires
            x == 32 * (i - q * d),
            i - q * d < q,
            bpc == 32 * q,
    ;
}

/// A long name record that carries order number `ord`.
pub open spec fn lfn_matches(rec: Seq<u8>, ord: int) -> bool {
    rec[11] & ATTRIBUTE_LONG_FILE_NAME == ATTRIBUTE_LONG_FILE_NAME && (rec[0] & !0x40u8) == ord
}

/// A removal that walks back from record `i`, expecting order number `ord`, never needs a
/// record before the first.
pub open spec fn walk_ok(cls: Seq<Seq<u8>>, bpc: int, i: int, ord: int) -> bool
    decreases i,
{
    if i < 0 {
        false
    } else if lfn_matches(record(cls, bpc, i), ord) && record(cls, bpc, i)[0] & 0x40 == 0 {
        i > 0 && walk_ok(cls, bpc, i - 1, ord + 1)
    } else {
        true
    }
}

/// How many records a removal that walks back from record `i`, expecting order number
/// `ord`, clears: the long name records that carry the order numbers expected, one after
/// the other, up to the first that marks itself the last.
pub open spec fn lfn_cleared(cls: Seq<Seq<u8>>, bpc: int, i: int, ord: int) -> int
    decreases i,
{
    if i < 0 {
        0
    } else if lfn_matches(record(cls, bpc, i), ord) {
        if record(cls, bpc, i)[0] & 0x40 != 0 || i == 0 {
            1
        } else {
            1 + lfn_cleared(cls, bpc, i - 1, ord + 1)
        }
    } else {
        0
    }
}

/// How many records that walk reads: those it clears, and the one that stops it unless the
/// last cleared marks itself the last.
pub open spec fn lfn_read(cls: Seq<Seq<u8>>, bpc: int, i: int, ord: int) -> int
    decreases i,
{
    if i < 0 {
        0
    } else if lfn_matches(record(cls, bpc, i), ord) {
        if record(cls, bpc, i)[0] & 0x40 != 0 || i == 0 {
            1
        } else {
            1 + lfn_read(cls, bpc, i - 1, ord + 1)
        }
    } else {
        1
    }
}

/// The 32 bytes a removal writes over a record: zeros, but for a first byte 0xE5 when the
/// record after the entry, `next`, does not end the directory.
pub open spec fn removal_mark(next: Seq<u8>) -> Seq<u8> {
    Seq::new(
        32,
        |j: int|
            if j == 0 && next[0] != 0 {
                0xE5u8
            } else {
                0u8
            },
    )
}

/// `after` over `fa` is `before` over `fb` with the entry at the current record removed:
/// the record after it was read, the chain growing by a free cluster if it lies past it;
/// the entry's record and the long name records before it that the walk back clears were
/// overwritten with the removal mark; the current record is the last the walk read; and
/// only the chain's clusters were written.
pub open spec fn removed<D: Device>(before: DirectoryIterator, fb: FAT<D>, after: DirectoryIterator, fa: FAT<D>) -> bool {
    let l0 = before.chain();
    let news = after.chain().skip(l0.len() as int);
    let bpc = fb.spec_bytes_per_cluster() as int;
    let k = before.index();
    let grown = grown_clusters(before.clusters(fb), fb, news);
    let mark = removal_mark(record(grown, bpc, k + 1));
    let n = lfn_cleared(grown, bpc, k - 1, 1);
    &&& after.chain() == l0 + news
    &&& news.len() <= 1
    &&& allocated(fb.table(), fb.search_start(), fb.top(), l0.last(), news)
    &&& fa.table() == extended(fb.table(), l0.last(), news)
    &&& after.index() == k - lfn_read(grown, bpc, k - 1, 1)
    &&& after.clusters(fa) == written(grown, bpc, k, Seq::new((n + 1) as nat, |i: int| mark))
    &&& sectors_kept(fa, fb, after.chain())
}

/// A walk back over records within a chain's clusters reads the same once more clusters
/// are appended.
proof fn lemma_walk_grown(cls: Seq<Seq<u8>>, more: Seq<Seq<u8>>, bpc: int, i: int, ord: int)
    requires
        bpc > 0,
        i < 0 || in_clusters(cls, bpc, i),
        walk_ok(cls, bpc, i, ord),
    ensures
        walk_ok(cls + more, bpc, i, ord),
    decreases i,
{
    if i >= 0 {
        lemma_record_grown(cls, more, bpc, i);
        if lfn_matches(record(cls, bpc, i), ord) && record(cls, bpc, i)[0] & 0x40 == 0 {
            lemma_in_clusters_before(cls, bpc, i, i - 1);
            lemma_walk_grown(cls, more, bpc, i - 1, ord + 1);
        }
    }
}

/// Storing a record leaves an earlier record that lies whole within its cluster as it was.
proof fn lemma_with_record_other(cls: Seq<Seq<u8>>, bpc: int, j: int, x: Seq<u8>, i: int)
    requires
        bpc > 0,
        0 <= i < j,
        in_clusters(cls, bpc, i),
        in_clusters(cls, bpc, j),
        fits(bpc, i),
        fits(bpc, j),
        x.len() == 32,
        cls[(j * 32) / bpc].len() == bpc,
    ensures
        record(with_record(cls, bpc, j, x), bpc, i) == record(cls, bpc, i),
        with_record(cls, bpc, j, x).len() == cls.len(),
        with_record(cls, bpc, j, x)[(j * 32) / bpc].len() == bpc,
{
    let ci = (i * 32) / bpc;
    let cj = (j * 32) / bpc;
    let oi = (i * 32) % bpc;
    let oj = (j * 32) % bpc;
    vstd::arithmetic::div_mod::lemma_fundamental_div_mod(i * 32, bpc);
    vstd::arithmetic::div_mod::lemma_fundamental_div_mod(j * 32, bpc);
    vstd::arithmetic::div_mod::lemma_mod_bound(i * 32, bpc);
    vstd::arithmetic::div_mod::lemma_mod_bound(j * 32, bpc);
    assert(ci >= 0 && cj >= 0) by (nonlinear_arith)
        requires
            i >= 0,
            j >= 0,
            bpc > 0,
            ci == (i * 32) / bpc,
            cj == (j * 32) / bpc,
    ;
    let c = cls[cj];
    let nc = c.subrange(0, oj) + x + c.subrange(oj + 32, c.len() as int);
    assert(nc.len() == bpc);
    if ci == cj {
        assert(oj - oi == 32 * (j - i)) by (nonlinear_arith)
            requires
                i * 32 == bpc * ci + oi,
                j * 32 == bpc * cj + oj,
                ci == cj,
        ;
        assert(nc.subrange(oi, oi + 32) =~= c.subrange(oi, oi + 32));
    }
}

/// An entry as a value: its name, whether it is a directory, its first cluster and its
/// size.
pub type EntryView = (Seq<char>, bool, u32, usize);

/// A scan from the start of the directory can start afresh after record `b`: it is the
/// record before the first, or one that completed an entry.
pub open spec fn boundary(cls: Seq<Seq<u8>>, bpc: int, b: int) -> bool {
    b == 0 || step_at(cls, bpc, 0, b) is Entry
}

/// The entries that a scan from the start of the directory finds before record `k`.
pub open spec fn entries_before(cls: Seq<Seq<u8>>, bpc: int, k: int) -> Seq<EntryView>
    decreases k,
{
    if k <= 1 {
        Seq::empty()
    } else {
        let prev = entries_before(cls, bpc, k - 1);
        match step_at(cls, bpc, 0, k - 1) {
            StepView::Entry(n, d, c, z) => prev.push((n, d, c, z)),
            _ => prev,
        }
    }
}

/// The numbers of the records that complete the entries a scan from the start of the
/// directory finds before record `k`.
pub open spec fn positions_before(cls: Seq<Seq<u8>>, bpc: int, k: int) -> Seq<int>
    decreases k,
{
    if k <= 1 {
        Seq::empty()
    } else {
        let prev = positions_before(cls, bpc, k - 1);
        if step_at(cls, bpc, 0, k - 1) is Entry {
            prev.push(k - 1)
        } else {
            prev
        }
    }
}

/// Record `e` is the first that a scan from the start of the directory reads as its end.
pub open spec fn ends_at(cls: Seq<Seq<u8>>, bpc: int, e: int) -> bool {
    &&& 0 < e
    &&& step_at(cls, bpc, 0, e) is End
    &&& forall|m: int| 0 < m < e ==> !(#[trigger] step_at(cls, bpc, 0, m) is End)
}

/// A scan from the start of the directory comes, within its clusters, to a record that
/// ends it, and every record up to that one can be taken.
pub open spec fn listing_ok(cls: Seq<Seq<u8>>, bpc: int) -> bool {
    exists|e: int|
        0 < e && in_clusters(cls, bpc, e) && #[trigger] step_at(cls, bpc, 0, e) is End && forall|m: int|
            0 < m <= e ==> record_ok(#[trigger] record(cls, bpc, m))
}

/// The record that ends the directory.
pub open spec fn end_index(cls: Seq<Seq<u8>>, bpc: int) -> int {
    choose|e: int| ends_at(cls, bpc, e)
}

/// The directory's entries, in the order of their records.
pub open spec fn listing(cls: Seq<Seq<u8>>, bpc: int) -> Seq<EntryView> {
    entries_before(cls, bpc, end_index(cls, bpc))
}

/// The numbers of the records that complete the directory's entries, in order.
pub open spec fn positions(cls: Seq<Seq<u8>>, bpc: int) -> Seq<int> {
    positions_before(cls, bpc, end_index(cls, bpc))
}

/// There are as many positions as entries, and each lies between the start and `k`.
pub proof fn lemma_positions(cls: Seq<Seq<u8>>, bpc: int, k: int)
    ensures
        positions_before(cls, bpc, k).len() == entries_before(cls, bpc, k).len(),
        forall|i: int|
            0 <= i < positions_before(cls, bpc, k).len() ==> 0 < #[trigger] positions_before(cls, bpc, k)[i] < k,
    decreases k,
{
    if k > 1 {
        lemma_positions(cls, bpc, k - 1);
    }
}

/// A scan that starts afresh after record `b` reads the records after it as a scan from
/// the start does.
pub proof fn lemma_restart(cls: Seq<Seq<u8>>, bpc: int, b: int, m: int)
    requires
        boundary(cls, bpc, b),
        0 <= b < m,
    ensures
        scan_state(cls, bpc, 0, m) == scan_state(cls, bpc, b, m),
        step_at(cls, bpc, 0, m) == step_at(cls, bpc, b, m),
    decreases m - b,
{
    if m > b + 1 {
        lemma_restart(cls, bpc, b, m - 1);
    }
}

/// Records that tell a scan nothing add no entry.
pub proof fn lemma_entries_skipped(cls: Seq<Seq<u8>>, bpc: int, b: int, k: int)
    requires
        boundary(cls, bpc, b),
        0 <= b < k,
        skipped(cls, bpc, b, k),
    ensures
        entries_before(cls, bpc, k) == entries_before(cls, bpc, b + 1),
        positions_before(cls, bpc, k) == positions_before(cls, bpc, b + 1),
    decreases k - b,
{
    if k > b + 1 {
        lemma_restart(cls, bpc, b, k - 1);
        assert(step_at(cls, bpc, b, k - 1) is Skip);
        lemma_entries_skipped(cls, bpc, b, k - 1);
    }
}

/// The entries before a record begin with those before an earlier one.
pub proof fn lemma_entries_prefix(cls: Seq<Seq<u8>>, bpc: int, j: int, k: int)
    requires
        j <= k,
    ensures
        entries_before(cls, bpc, j).len() <= entries_before(cls, bpc, k).len(),
        entries_before(cls, bpc, k).take(entries_before(cls, bpc, j).len() as int) == entries_before(cls, bpc, j),
        positions_before(cls, bpc, k).take(positions_before(cls, bpc, j).len() as int) == positions_before(cls, bpc, j),
    decreases k - j,
{
    lemma_positions(cls, bpc, j);
    lemma_positions(cls, bpc, k);
    if j < k {
        lemma_entries_prefix(cls, bpc, j, k - 1);
        let a = entries_before(cls, bpc, j);
        let b = entries_before(cls, bpc, k - 1);
        let pa = positions_before(cls, bpc, j);
        let pb = positions_before(cls, bpc, k - 1);
        lemma_positions(cls, bpc, k - 1);
        if k > 1 {
            assert(entries_before(cls, bpc, k).take(b.len() as int) =~= b);
            assert(entries_before(cls, bpc, k).take(a.len() as int) =~= b.take(a.len() as int));
            assert(positions_before(cls, bpc, k).take(pb.len() as int) =~= pb);
            assert(positions_before(cls, bpc, k).take(pa.len() as int) =~= pb.take(pa.len() as int));
        }
    } else {
        assert(entries_before(cls, bpc, k).take(entries_before(cls, bpc, j).len() as int) =~= entries_before(cls, bpc, j));
        assert(positions_before(cls, bpc, k).take(positions_before(cls, bpc, j).len() as int) =~= positions_before(cls, bpc, j));
    }
}

proof fn lemma_find_end(cls: Seq<Seq<u8>>, bpc: int, j: int, w: int) -> (e: int)
    requires
        1 <= j <= w,
        step_at(cls, bpc, 0, w) is End,
        forall|m: int| 0 < m < j ==> !(#[trigger] step_at(cls, bpc, 0, m) is End),
    ensures
        ends_at(cls, bpc, e),
        e <= w,
    decreases w - j,
{
    if step_at(cls, bpc, 0, j) is End {
        j
    } else {
        lemma_find_end(cls, bpc, j + 1, w)
    }
}

/// A directory whose scan comes to an end has an end record, within its clusters, the
/// records up to which can all be taken.
pub proof fn lemma_end_index(cls: Seq<Seq<u8>>, bpc: int)
    requires
        listing_ok(cls, bpc),
        bpc > 0,
    ensures
        ends_at(cls, bpc, end_index(cls, bpc)),
        in_clusters(cls, bpc, end_index(cls, bpc)),
        forall|m: int| 0 < m <= end_index(cls, bpc) ==> record_ok(#[trigger] record(cls, bpc, m)),
{
    let w = choose|e: int|
        0 < e && in_clusters(cls, bpc, e) && #[trigger] step_at(cls, bpc, 0, e) is End && forall|m: int|
            0 < m <= e ==> record_ok(#[trigger] record(cls, bpc, m));
    let e = lemma_find_end(cls, bpc, 1, w);
    let e2 = end_index(cls, bpc);
    assert(ends_at(cls, bpc, e2));
    if e2 < e {
        assert(!(step_at(cls, bpc, 0, e2) is End));
    }
    if e < e2 {
        assert(!(step_at(cls, bpc, 0, e) is End));
    }
    assert(e == e2);
    vstd::arithmetic::div_mod::lemma_div_is_ordered(e * 32, w * 32, bpc);
}

/// A scan that starts afresh after a record before the end comes to an entry or to the
/// end within the directory.
pub proof fn lemma_scan_stops(cls: Seq<Seq<u8>>, bpc: int, b: int)
    requires
        listing_ok(cls, bpc),
        bpc > 0,
        boundary(cls, bpc, b),
        0 <= b < end_index(cls, bpc),
    ensures
        scan_stops(cls, bpc, b),
{
    lemma_end_index(cls, bpc);
    let e = end_index(cls, bpc);
    lemma_restart(cls, bpc, b, e);
    assert(!(step_at(cls, bpc, b, e) is Skip));
}

/// Where a scan that starts afresh after a boundary before the end stops: an entry before
/// the end, appended to the entries found so far, or the end itself, which adds none.
pub proof fn lemma_scan_step(cls: Seq<Seq<u8>>, bpc: int, b: int, k: int)
    requires
        listing_ok(cls, bpc),
        bpc > 0,
        boundary(cls, bpc, b),
        0 <= b < k,
        b < end_index(cls, bpc),
        skipped(cls, bpc, b, k),
        !(step_at(cls, bpc, b, k) is Skip),
    ensures
        step_at(cls, bpc, 0, k) == step_at(cls, bpc, b, k),
        step_at(cls, bpc, b, k) is End ==> k == end_index(cls, bpc) && listing(cls, bpc) == entries_before(
            cls,
            bpc,
            b + 1,
        ),
        step_at(cls, bpc, b, k) matches StepView::Entry(n, d, c, z) ==> k < end_index(cls, bpc) && boundary(
            cls,
            bpc,
            k,
        ) && entries_before(cls, bpc, k + 1) == entries_before(cls, bpc, b + 1).push((n, d, c, z))
            && positions_before(cls, bpc, k + 1) == positions_before(cls, bpc, b + 1).push(k),
        step_at(cls, bpc, b, k) is End ==> positions(cls, bpc) == positions_before(cls, bpc, b + 1),
{
    lemma_end_index(cls, bpc);
    let e = end_index(cls, bpc);
    lemma_restart(cls, bpc, b, k);
    lemma_entries_skipped(cls, bpc, b, k);
    if k > e {
        lemma_restart(cls, bpc, b, e);
        assert(step_at(cls, bpc, b, e) is Skip);
    }
    if step_at(cls, bpc, b, k) is End {
        if k < e {
            assert(!(step_at(cls, bpc, 0, k) is End));
        }
    }
}

/// Moves through the records of a directory, one 32-byte record at a time, from the
/// record after the current one on.
pub struct DirectoryIterator {
    buffer: Buffer,
    current_index: usize,
    cluster_top: usize,
}

impl DirectoryIterator {
    /// The directory's chain of clusters.
    pub closed spec fn chain(&self) -> Seq<u32> {
        self.buffer.cluster_chain@
    }

    /// The number of the current record.
    pub closed spec fn index(&self) -> int {
        self.current_index as int
    }

    /// The directory's clusters, with the changes not yet written back.
    pub closed spec fn clusters<D: Device>(&self, fat: FAT<D>) -> Seq<Seq<u8>> {
        self.buffer.clusters(fat)
    }

    /// Every change has been written back.
    pub closed spec fn flushed(&self) -> bool {
        !self.buffer.modified
    }

    pub closed spec fn inv<D: Device>(&self, fat: FAT<D>) -> bool {
        &&& self.buffer.inv(fat)
        &&& self.cluster_top == fat.spec_bytes_per_cluster()
        &&& fat.top() * fat.spec_bytes_per_cluster() + 32 <= usize::MAX
        &&& self.current_index * 32 <= self.buffer.cluster_chain@.len() * fat.spec_bytes_per_cluster()
    }

    /// The invariant, but for the current record, which may lie one record past the chain.
    spec fn inv_step<D: Device>(&self, fat: FAT<D>) -> bool {
        &&& self.buffer.inv(fat)
        &&& self.cluster_top == fat.spec_bytes_per_cluster()
        &&& fat.top() * fat.spec_bytes_per_cluster() + 32 <= usize::MAX
        &&& self.current_index * 32 <= self.buffer.cluster_chain@.len() * fat.spec_bytes_per_cluster() + 32
    }

    /// What the iterator's invariant says of the chain, the clusters and the volume.
    pub proof fn lemma_inv<D: Device>(&self, fat: FAT<D>)
        requires
            self.inv(fat),
        ensures
            fat.wf(),
            fat.volume_ok(),
            is_chain(fat.table(), self.chain()),
            state_of(fat.table()[self.chain().last()]) is End,
            self.chain().len() <= fat.top(),
            self.chain().no_duplicates(),
            forall|k: int| 0 <= k < self.chain().len() ==> 2 <= #[trigger] self.chain()[k],
            self.clusters(fat).len() == self.chain().len(),
            forall|k: int|
                0 <= k < self.chain().len() ==> (#[trigger] self.clusters(fat)[k]).len()
                    == fat.spec_bytes_per_cluster(),
            self.flushed() ==> self.clusters(fat) == chain_data(fat, self.chain()),
            fat.top() * fat.spec_bytes_per_cluster() + 32 <= usize::MAX,
            self.index() * 32 <= self.chain().len() * fat.spec_bytes_per_cluster(),
    {
        self.buffer.lemma_inv(fat);
        if self.flushed() {
            assert(self.clusters(fat) =~= chain_data(fat, self.chain()));
        }
    }

    /// Changing the table only at clusters outside the chain, and no data sector, keeps the
    /// iterator's invariant and its view of the clusters.
    pub proof fn lemma_inv_kept<D: Device>(&self, f0: FAT<D>, f1: FAT<D>)
        requires
            self.inv(f0),
            f1.wf(),
            f1.volume_ok(),
            f1.same_layout(f0),
            f1.data_unchanged(f0),
            forall|c: u32| #[trigger] f1.table().contains_key(c) == f0.table().contains_key(c),
            forall|k: int| 0 <= k < self.chain().len() ==> f1.table()[#[trigger] self.chain()[k]] == f0.table()[self.chain()[k]],
        ensures
            self.inv(f1),
            self.clusters(f1) == self.clusters(f0),
    {
        self.lemma_inv(f0);
        f1.lemma_same_layout(f0);
        let l = self.chain();
        assert forall|i: int| 0 <= i < l.len() implies f1.table().contains_key(#[trigger] l[i]) by {
            assert(f0.table().contains_key(l[i]));
        }
        assert forall|i: int| 0 <= i < l.len() - 1 implies state_of(f1.table()[#[trigger] l[i]]) == ClusterState::Next(
            l[i + 1],
        ) by {
            assert(f1.table()[l[i]] == f0.table()[l[i]]);
        }
        assert(f1.table()[l.last()] == f0.table()[l.last()]);
        assert forall|k: int| 0 <= k < l.len() implies #[trigger] f1.cluster_data(l[k]) == f0.cluster_data(l[k]) by {
            f0.lemma_data_sector(l[k]);
        }
        assert(self.clusters(f1) =~= self.clusters(f0));
    }

    /// An iterator over the directory whose chain starts at `first_cluster`, before its
    /// first record.
    pub fn new<D: Device>(first_cluster: u32, fat: &mut FAT<D>) -> (r: Result<Self, Status>)
        requires
            old(fat).wf(),
            old(fat).volume_ok(),
            data_chain(old(fat).table(), first_cluster),
            old(fat).top() * old(fat).spec_bytes_per_cluster() + 32 <= usize::MAX,
        ensures
            final(fat).same_layout(*old(fat)),
            r is Ok ==> final(fat).wf() && final(fat).volume_ok() && final(fat).same_layout(*old(fat))
                && final(fat).table() == old(fat).table() && final(fat).search_start() == old(fat).search_start(),
            final(fat).data_unchanged(*old(fat)),
            r matches Ok(it) ==> it.inv(*final(fat)) && it.index() == 0 && it.flushed() && it.chain() == chain(
                old(fat).table(),
                first_cluster,
            ) && it.clusters(*final(fat)) == chain_data(*old(fat), it.chain()),
    {
        let buffer = match Buffer::new(first_cluster, fat) {
            Ok(b) => b,
            Err(e) => {
                return Err(e);
            },
        };
        let it = DirectoryIterator { buffer, current_index: 0, cluster_top: fat.bytes_per_cluster() };
        proof {
            fat.lemma_same_layout(*old(fat));
            it.lemma_inv(*fat);
            let l = it.chain();
            assert forall|k: int| 0 <= k < l.len() implies #[trigger] chain_data(*fat, l)[k] == chain_data(
                *old(fat),
                l,
            )[k] by {
                old(fat).lemma_data_sector(l[k]);
            }
            assert(chain_data(*fat, l) =~= chain_data(*old(fat), l));
        }
        Ok(it)
    }

    /// Writes back the changes made to the directory's records.
    pub fn flush_buffer<D: Device>(&mut self, fat: &mut FAT<D>) -> (r: Result<(), Status>)
        requires
            old(self).inv(*old(fat)),
        ensures
            final(fat).same_layout(*old(fat)),
            final(self).chain() == old(self).chain(),
            final(self).index() == old(self).index(),
            final(fat).same_layout(*old(fat)),
            final(fat).table() == old(fat).table(),
            final(fat).search_start() == old(fat).search_start(),
            sectors_kept(*final(fat), *old(fat), old(self).chain()),
            r is Ok ==> final(self).inv(*final(fat)) && final(self).flushed() && final(self).clusters(*final(fat))
                == old(self).clusters(*old(fat)),
            old(self).flushed() ==> r is Ok && *final(self) == *old(self) && *final(fat) == *old(fat),
    {
        let r = self.buffer.flush_buffer(fat);
        proof {
            fat.lemma_same_layout(*old(fat));
        }
        r
    }

    /// Makes the cluster of the current record the cached one and reads the record.
    #[verifier::rlimit(30)]
    fn read_record<D: Device>(&mut self, fat: &mut FAT<D>) -> (r: Result<[u8; 32], Status>)
        requires
            old(self).inv_step(*old(fat)),
        ensures
            final(fat).same_layout(*old(fat)),
            final(self).index() == old(self).index(),
            final(self).cluster_top == old(self).cluster_top,
            sectors_kept(*final(fat), *old(fat), old(self).chain()),
            in_clusters(old(self).clusters(*old(fat)), old(fat).spec_bytes_per_cluster() as int, old(self).index())
                ==> final(self).chain() == old(self).chain(),
            old(self).flushed() ==> final(self).flushed() && final(fat).data_unchanged(*old(fat)),
            r is Ok ==> final(self).inv(*final(fat)) && final(fat).same_layout(*old(fat)) && in_clusters(
                final(self).clusters(*final(fat)),
                old(fat).spec_bytes_per_cluster() as int,
                old(self).index(),
            ),
            r matches Ok(rec) ==> rec@ == record(
                final(self).clusters(*final(fat)),
                old(fat).spec_bytes_per_cluster() as int,
                old(self).index(),
            ),
            r is Ok ==> final(self).buffer.current_cluster_index == (old(self).index() * 32) / (old(
                fat,
            ).spec_bytes_per_cluster() as int) && (old(self).index() * 32) % (old(fat).spec_bytes_per_cluster() as int)
                + 32 <= old(fat).spec_bytes_per_cluster(),
            r is Ok && in_clusters(old(self).clusters(*old(fat)), old(fat).spec_bytes_per_cluster() as int, old(self).index())
                ==> final(self).chain() == old(self).chain() && final(fat).table() == old(fat).table()
                && final(fat).search_start() == old(fat).search_start() && final(self).clusters(*final(fat))
                == old(self).clusters(*old(fat)),
            r is Ok && !in_clusters(old(self).clusters(*old(fat)), old(fat).spec_bytes_per_cluster() as int, old(self).index())
                ==> ({
                let c = final(self).chain().last();
                let l = old(self).chain();
                &&& final(self).chain() == l.push(c)
                &&& first_free(old(fat).table(), old(fat).search_start() as int, old(fat).top() as int) == Some(c)
                &&& final(fat).table() == old(fat).table().insert(c, END_OF_CHAIN).insert(
                    l.last(),
                    value_of(ClusterState::Next(c)),
                )
                &&& final(fat).search_start() == c
                &&& final(self).clusters(*final(fat)) == old(self).clusters(*old(fat)).push(old(fat).cluster_data(c))
            }),
            old(self).buffer.current_cluster_index == (old(self).index() * 32) / (old(fat).spec_bytes_per_cluster() as int)
                && fits(old(fat).spec_bytes_per_cluster() as int, old(self).index()) ==> r is Ok && *final(fat) == *old(
                fat,
            ),
    {
        proof {
            self.buffer.lemma_inv(*fat);
            let len = self.chain().len();
            assert(len * fat.spec_bytes_per_cluster() <= fat.top() * fat.spec_bytes_per_cluster()) by (nonlinear_arith)
                requires
                    len <= fat.top(),
            ;
            assert(fat.spec_bytes_per_cluster() <= fat.top() * fat.spec_bytes_per_cluster()) by (nonlinear_arith)
                requires
                    1 <= fat.top(),
            ;
        }
        let bpc = self.cluster_top;
        let (cluster_index, offset) = self.get_cluster_index_and_offset();
        let ghost cls0 = self.clusters(*fat);
        let ghost len0 = self.chain().len();
        match self.buffer.set_current_cluster_index(fat, cluster_index) {
            Ok(()) => {},
            Err(e) => {
                return Err(e);
            },
        }
        proof {
            fat.lemma_same_layout(*old(fat));
            self.buffer.lemma_inv(*fat);
        }
        let mut rec = [0u8; 32];
        match self.buffer.read(offset, &mut rec) {
            Ok(()) => {},
            Err(e) => {
                return Err(e);
            },
        }
        proof {
            let cls = self.clusters(*fat);
            assert(cls[cluster_index as int] == self.buffer.buffer@);
            assert(in_clusters(cls, bpc as int, self.index()));
            let idx = self.index();
            let len1 = self.chain().len();
            assert(idx * 32 <= len1 * bpc) by (nonlinear_arith)
                requires
                    cluster_index == (idx * 32) / (bpc as int),
                    cluster_index < len1,
                    bpc > 0,
            {
                vstd::arithmetic::div_mod::lemma_fundamental_div_mod(idx * 32, bpc as int);
                vstd::arithmetic::div_mod::lemma_mod_bound(idx * 32, bpc as int);
            }
        }
        Ok(rec)
    }

    /// The next entry of the directory: the records after the current one are read until
    /// one ends the directory or completes an entry, a long name gathered from the long
    /// name records before it. The current record becomes that record. A scan that runs
    /// past the chain's last cluster takes the first free cluster, links it to the chain and
    /// reads on in it: merely reading a directory filled to its last record grows it, by
    /// clusters holding whatever the volume left in them.
    ///
    /// The records the scan reads must be ones it can take (`scan_safe`): a long name
    /// record whose order number is 20 or more cannot be.
    #[verifier::spinoff_prover]
    #[verifier::rlimit(100)]
    pub fn next<D: Device>(&mut self, fat: &mut FAT<D>) -> (r: Result<Option<DirectoryEntry>, Status>)
        requires
            old(self).inv(*old(fat)),
            scan_safe(old(self).clusters(*old(fat)), *old(fat), old(self).chain(), old(self).index()),
        ensures
            final(fat).same_layout(*old(fat)),
            old(self).flushed() ==> final(self).flushed() && final(fat).data_unchanged(*old(fat)),
            scan_stops(old(self).clusters(*old(fat)), old(fat).spec_bytes_per_cluster() as int, old(self).index())
                ==> final(self).chain() == old(self).chain() && sectors_kept(*final(fat), *old(fat), old(self).chain()),
            r is Ok ==> final(self).inv(*final(fat)) && final(fat).same_layout(*old(fat)) && scan_grew(
                *old(self),
                *old(fat),
                *final(self),
                *final(fat),
            ) && sectors_kept(*final(fat), *old(fat), final(self).chain()),
            r is Ok ==> old(self).index() < final(self).index() && in_clusters(
                final(self).clusters(*final(fat)),
                old(fat).spec_bytes_per_cluster() as int,
                final(self).index(),
            ) && skipped(
                final(self).clusters(*final(fat)),
                old(fat).spec_bytes_per_cluster() as int,
                old(self).index(),
                final(self).index(),
            ),
            r matches Ok(None) ==> step_at(
                final(self).clusters(*final(fat)),
                old(fat).spec_bytes_per_cluster() as int,
                old(self).index(),
                final(self).index(),
            ) is End,
            r matches Ok(Some(e)) ==> step_at(
                final(self).clusters(*final(fat)),
                old(fat).spec_bytes_per_cluster() as int,
                old(self).index(),
                final(self).index(),
            ) == StepView::Entry(e.spec_name(), e.spec_is_directory(), e.spec_first_cluster(), e.spec_file_size()),
            r is Ok && scan_stops(old(self).clusters(*old(fat)), old(fat).spec_bytes_per_cluster() as int, old(self).index())
                ==> final(fat).table() == old(fat).table() && final(fat).search_start() == old(fat).search_start()
                && final(self).clusters(*final(fat)) == old(self).clusters(*old(fat)),
            scan_stops(old(self).clusters(*old(fat)), old(fat).spec_bytes_per_cluster() as int, old(self).index())
                && old(self).chain().len() == 1 && old(fat).spec_bytes_per_cluster() % 32 == 0 ==> r is Ok && *final(fat)
                == *old(fat),
    {
        let ghost cls0 = self.clusters(*fat);
        let ghost bpc = fat.spec_bytes_per_cluster() as int;
        let ghost i0 = self.index();
        let ghost f0 = *fat;
        let ghost b0 = *self;
        let ghost l0 = self.chain();
        let ghost stops = scan_stops(cls0, bpc, i0);
        let ghost kw = choose|k: int|
            i0 < k && in_clusters(cls0, bpc, k) && !(#[trigger] step_at(cls0, bpc, i0, k) is Skip) && forall|m: int|
                i0 < m <= k ==> record_ok(#[trigger] record(cls0, bpc, m));
        let ghost one = stops && l0.len() == 1 && bpc % 32 == 0;
        let ghost mut news: Seq<u32> = Seq::empty();
        proof {
            self.lemma_inv(*fat);
            fat.lemma_same_layout_refl_trans(*fat, *fat);
            lemma_allocated_empty(f0.table(), f0.search_start(), f0.top(), l0.last());
            assert(l0 + news =~= l0);
            assert(grown_clusters(cls0, f0, news) =~= cls0);
            assert(l0.take(l0.len() as int) =~= l0);
            let len = l0.len();
            assert(len * bpc <= f0.top() * bpc) by (nonlinear_arith)
                requires
                    len <= f0.top(),
                    bpc > 0,
            ;
            if stops {
                assert(kw * 32 < cls0.len() * bpc) by (nonlinear_arith)
                    requires
                        (kw * 32) / bpc < cls0.len(),
                        bpc > 0,
                        kw >= 0,
                {
                    vstd::arithmetic::div_mod::lemma_fundamental_div_mod(kw * 32, bpc);
                    vstd::arithmetic::div_mod::lemma_mod_bound(kw * 32, bpc);
                }
            }
        }
        let mut state = LongNameState::new();
        loop
            invariant_except_break
                stops ==> self.index() < kw,
            invariant
                f0 == *old(fat),
                b0 == *old(self),
                l0 == b0.chain(),
                l0.len() > 0,
                cls0 == b0.clusters(f0),
                bpc == f0.spec_bytes_per_cluster() as int,
                bpc > 0,
                i0 == b0.index(),
                0 <= i0 <= self.index(),
                scan_safe(cls0, f0, l0, i0),
                self.inv(*fat),
                fat.same_layout(f0),
                self.index() * 32 <= f0.top() * bpc,
                self.chain() == l0 + news,
                allocated(f0.table(), f0.search_start(), f0.top(), l0.last(), news),
                fat.table() == extended(f0.table(), l0.last(), news),
                fat.search_start() == (if news.len() == 0 {
                    f0.search_start()
                } else {
                    news.last()
                }),
                self.clusters(*fat) == grown_clusters(cls0, f0, news),
                sectors_kept(*fat, f0, self.chain()),
                b0.flushed() ==> self.flushed() && fat.data_unchanged(f0),
                self.index() == i0 || in_clusters(self.clusters(*fat), bpc, self.index()),
                state.wf(),
                state@ == scan_state(self.clusters(*fat), bpc, i0, self.index() + 1),
                skipped(self.clusters(*fat), bpc, i0, self.index() + 1),
                stops == scan_stops(cls0, bpc, i0),
                stops ==> news.len() == 0 && in_clusters(cls0, bpc, kw) && !(step_at(cls0, bpc, i0, kw) is Skip),
                stops ==> kw * 32 < cls0.len() * bpc,
                one == (stops && l0.len() == 1 && bpc % 32 == 0),
                one ==> *fat == f0,
            decreases f0.top() * bpc - self.index() * 32,
        {
            let ghost f1 = *fat;
            let ghost s1 = *self;
            let ghost cls1 = self.clusters(*fat);
            let ghost idx1 = self.index();
            proof {
                self.lemma_inv(*fat);
                fat.lemma_same_layout(f0);
            }
            self.current_index = self.current_index + 1;
            proof {
                let idx = self.index();
                if stops {
                    assert(in_clusters(cls0, bpc, idx)) by {
                        lemma_in_clusters_before(cls0, bpc, kw, idx);
                    }
                }
                if one {
                    lemma_fits_whole_records(bpc, idx);
                    self.buffer.lemma_inv(*fat);
                    assert(self.buffer.current_cluster_index == 0);
                    assert((idx * 32) / bpc == 0) by (nonlinear_arith)
                        requires
                            (idx * 32) / bpc < 1,
                            idx >= 0,
                            bpc > 0,
                    ;
                }
            }
            let rec = match self.read_record(fat) {
                Ok(rec) => rec,
                Err(e) => {
                    proof {
                        if stops {
                            assert(l0.take(l0.len() as int) =~= l0);
                            lemma_sectors_kept_trans(f0, f1, *fat, l0, l0);
                        }
                    }
                    return Err(e);
                },
            };
            let ghost k = self.index();
            proof {
                fat.lemma_same_layout(f1);
                fat.lemma_same_layout_refl_trans(f1, f0);
                fat.lemma_same_layout(f0);
                news = lemma_next_read(f0, f1, *fat, s1, *self, l0, cls0, news, i0);
                self.lemma_inv(*fat);
            }
            let step = state.feed(&rec);
            match step {
                ScanStep::End => {
                    proof {
                        assert(self.chain().skip(l0.len() as int) =~= news);
                    }
                    return Ok(None);
                },
                ScanStep::Entry(e) => {
                    proof {
                        assert(self.chain().skip(l0.len() as int) =~= news);
                    }
                    return Ok(Some(e));
                },
                ScanStep::Skip => {
                    proof {
                        let cls = self.clusters(*fat);
                        assert(skipped(cls, bpc, i0, k + 1)) by {
                            assert forall|m: int| i0 < m < k + 1 implies #[trigger] step_at(cls, bpc, i0, m) is Skip by {
                                if m < k {
                                    assert(skipped(cls, bpc, i0, k));
                                }
                            }
                        }
                        if stops {
                            if k == kw {
                                assert(step_at(cls, bpc, i0, kw) is Skip);
                            }
                        }
                    }
                },
            }
        }
    }

    /// Whether a scan from the start of the directory (the current record) comes to an end
    /// record within the chain, reading only records it can take: the records are read in
    /// turn, and the chain is never grown.
    #[verifier::spinoff_prover]
    #[verifier::rlimit(40)]
    pub fn scan_ends_within<D: Device>(&mut self, fat: &mut FAT<D>) -> (r: Result<bool, Status>)
        requires
            old(self).inv(*old(fat)),
            old(self).index() == 0,
            old(self).flushed(),
        ensures
            final(fat).same_layout(*old(fat)),
            final(fat).data_unchanged(*old(fat)),
            r is Ok ==> final(fat).wf() && final(fat).volume_ok() && final(fat).same_layout(*old(fat))
                && final(fat).table() == old(fat).table(),
            r matches Ok(b) ==> b == listing_ok(old(self).clusters(*old(fat)), old(fat).spec_bytes_per_cluster() as int),
    {
        let ghost f0 = *fat;
        let ghost cls = self.clusters(*fat);
        let ghost bpc = fat.spec_bytes_per_cluster() as int;
        let ghost l0 = self.chain();
        proof {
            self.lemma_inv(*fat);
            fat.lemma_same_layout_refl_trans(*fat, *fat);
        }
        let mut state = LongNameState::new();
        loop
            invariant
                f0 == *old(fat),
                cls == old(self).clusters(f0),
                bpc == f0.spec_bytes_per_cluster() as int,
                bpc > 0,
                l0 == old(self).chain(),
                self.inv(*fat),
                self.flushed(),
                self.chain() == l0,
                self.clusters(*fat) == cls,
                fat.same_layout(f0),
                fat.table() == f0.table(),
                fat.data_unchanged(f0),
                state.wf(),
                state@ == scan_state(cls, bpc, 0, self.index() + 1),
                self.index() == 0 || in_clusters(cls, bpc, self.index()),
                forall|m: int| 0 < m <= self.index() ==> record_ok(#[trigger] record(cls, bpc, m)),
                forall|m: int| 0 < m <= self.index() ==> !(#[trigger] step_at(cls, bpc, 0, m) is End),
            decreases l0.len() * bpc - self.index() * 32,
        {
            let ghost f1 = *fat;
            proof {
                self.lemma_inv(*fat);
                fat.lemma_same_layout(f0);
                let len = l0.len();
                assert(len * bpc <= f0.top() * bpc) by (nonlinear_arith)
                    requires
                        len <= f0.top(),
                        bpc > 0,
                ;
            }
            let next = self.current_index + 1;
            let cluster_index = (next * 32) / self.cluster_top;
            if cluster_index >= self.buffer.cluster_chain.len() {
                proof {
                    lemma_no_end_within(cls, bpc, next as int);
                }
                return Ok(false);
            }
            self.current_index = next;
            proof {
                assert(in_clusters(cls, bpc, next as int));
                let len = l0.len();
                assert(next * 32 < len * bpc) by (nonlinear_arith)
                    requires
                        (next * 32) / bpc < len,
                        bpc > 0,
                        next >= 0,
                {
                    vstd::arithmetic::div_mod::lemma_fundamental_div_mod(next * 32, bpc);
                    vstd::arithmetic::div_mod::lemma_mod_bound(next * 32, bpc);
                }
            }
            let rec = match self.read_record(fat) {
                Ok(rec) => rec,
                Err(e) => {
                    return Err(e);
                },
            };
            proof {
                fat.lemma_same_layout(f1);
                fat.lemma_same_layout_refl_trans(f1, f0);
                self.lemma_inv(*fat);
            }
            if !record_takeable(&rec) {
                proof {
                    lemma_bad_record_before_end(cls, bpc, next as int);
                }
                return Ok(false);
            }
            let step = state.feed(&rec);
            match step {
                ScanStep::End => {
                    proof {
                        assert(step_at(cls, bpc, 0, next as int) is End);
                        assert(record_ok(record(cls, bpc, next as int)));
                        assert(forall|m: int| 0 < m <= next ==> record_ok(#[trigger] record(cls, bpc, m)));
                        assert(listing_ok(cls, bpc));
                    }
                    return Ok(true);
                },
                ScanStep::Entry(_) => {
                    state = LongNameState::new();
                },
                ScanStep::Skip => {},
            }
        }
    }

    /// The current record lies whole in the cached cluster, so it is reached without a drive
    /// access.
    #[verifier::opaque]
    pub closed spec fn record_cached(&self, bpc: int) -> bool {
        &&& self.buffer.current_cluster_index == (self.index() * 32) / bpc
        &&& fits(bpc, self.index())
    }

    /// Stores `bytes` in the current record, which lies within the chain.
    fn write_record<D: Device>(&mut self, fat: &mut FAT<D>, bytes: &[u8; 32]) -> (r: Result<(), Status>)
        requires
            old(self).inv(*old(fat)),
            in_clusters(old(self).clusters(*old(fat)), old(fat).spec_bytes_per_cluster() as int, old(self).index()),
        ensures
            final(fat).same_layout(*old(fat)),
            final(self).chain() == old(self).chain(),
            final(self).index() == old(self).index(),
            final(self).cluster_top == old(self).cluster_top,
            sectors_kept(*final(fat), *old(fat), old(self).chain()),
            r is Ok ==> final(self).inv(*final(fat)) && final(fat).same_layout(*old(fat)) && final(fat).table()
                == old(fat).table() && final(fat).search_start() == old(fat).search_start(),
            r is Ok ==> final(self).clusters(*final(fat)) == with_record(
                old(self).clusters(*old(fat)),
                old(fat).spec_bytes_per_cluster() as int,
                old(self).index(),
                bytes@,
            ),
            r is Ok ==> fits(old(fat).spec_bytes_per_cluster() as int, old(self).index()),
            old(self).record_cached(old(fat).spec_bytes_per_cluster() as int) ==> r is Ok && *final(fat) == *old(fat),
    {
        reveal(DirectoryIterator::record_cached);
        proof {
            self.lemma_inv(*fat);
            let len = self.chain().len();
            assert(len * fat.spec_bytes_per_cluster() <= fat.top() * fat.spec_bytes_per_cluster()) by (nonlinear_arith)
                requires
                    len <= fat.top(),
            ;
            assert(fat.spec_bytes_per_cluster() <= fat.top() * fat.spec_bytes_per_cluster()) by (nonlinear_arith)
                requires
                    1 <= fat.top(),
            ;
        }
        let ghost cls0 = self.clusters(*fat);
        let ghost bpc = fat.spec_bytes_per_cluster() as int;
        let (cluster_index, offset) = self.get_cluster_index_and_offset();
        match self.buffer.set_current_cluster_index(fat, cluster_index) {
            Ok(()) => {},
            Err(e) => {
                return Err(e);
            },
        }
        proof {
            fat.lemma_same_layout(*old(fat));
            self.buffer.lemma_inv(*fat);
        }
        let r = self.buffer.write(offset, bytes);
        proof {
            if r is Ok {
                assert(self.clusters(*fat) =~= with_record(cls0, bpc, self.index(), bytes@));
            }
        }
        r
    }

    /// Stores the first cluster and the size of `new_entry` in the current record.
    #[verifier::rlimit(30)]
    pub fn write_metadata<D: Device>(&mut self, fat: &mut FAT<D>, new_entry: DirectoryEntry) -> (r: Result<(), Status>)
        requires
            old(self).inv(*old(fat)),
            in_clusters(old(self).clusters(*old(fat)), old(fat).spec_bytes_per_cluster() as int, old(self).index()),
        ensures
            final(fat).same_layout(*old(fat)),
            final(self).chain() == old(self).chain(),
            final(self).index() == old(self).index(),
            sectors_kept(*final(fat), *old(fat), old(self).chain()),
            r is Ok ==> final(self).inv(*final(fat)) && final(fat).same_layout(*old(fat)) && final(fat).table()
                == old(fat).table() && final(fat).search_start() == old(fat).search_start(),
            r is Ok ==> final(self).clusters(*final(fat)) == with_record(
                old(self).clusters(*old(fat)),
                old(fat).spec_bytes_per_cluster() as int,
                old(self).index(),
                with_metadata(
                    record(old(self).clusters(*old(fat)), old(fat).spec_bytes_per_cluster() as int, old(self).index()),
                    new_entry.spec_first_cluster(),
                    new_entry.spec_file_size(),
                ),
            ),
            old(self).record_cached(old(fat).spec_bytes_per_cluster() as int) ==> r is Ok && *final(fat) == *old(fat),
    {
        reveal(DirectoryIterator::record_cached);
        let ghost cls0 = self.clusters(*fat);
        let ghost bpc = fat.spec_bytes_per_cluster() as int;
        let rec = match self.read_record(fat) {
            Ok(rec) => rec,
            Err(e) => {
                return Err(e);
            },
        };
        let mut entry = DiskDirectoryEntry::from_slice(&rec);
        proof {
            lemma_disk_entry_bytes_read_back(entry, rec@);
        }
        let ghost d0 = entry;
        let first_cluster = new_entry.first_cluster();
        entry.file_size = #[verifier::truncate] (new_entry.file_size() as u32);
        entry.first_cluster_low = (first_cluster & 0xFFFF) as u16;
        entry.first_cluster_high = ((first_cluster >> 16u32) & 0xFFFF) as u16;
        let bytes = entry.to_slice();
        proof {
            assert((first_cluster >> 16u32) & 0xFFFF == first_cluster / 65536 && first_cluster & 0xFFFF
                == first_cluster % 65536) by (bit_vector);
            assert(bytes@ =~= with_metadata(rec@, first_cluster, new_entry.spec_file_size()));
        }
        let ghost f1 = *fat;
        let r = self.write_record(fat, &bytes);
        proof {
            if r is Ok {
                fat.lemma_same_layout_refl_trans(f1, *old(fat));
            }
            assert(old(self).chain().take(old(self).chain().len() as int) =~= old(self).chain());
            lemma_sectors_kept_trans(*old(fat), f1, *fat, old(self).chain(), old(self).chain());
        }
        r
    }

    /// Moves to the end of the first run of `n` free records after the current one, the
    /// chain growing by free clusters where the run goes past it.
    #[verifier::rlimit(60)]
    fn find_free_records<D: Device>(&mut self, fat: &mut FAT<D>, n: usize) -> (r: Result<(), Status>)
        requires
            old(self).inv(*old(fat)),
            1 <= n <= 256,
        ensures
            kept_with_growth(*final(fat), *old(fat), old(self).chain()),
            final(fat).same_layout(*old(fat)),
            r is Ok ==> final(self).inv(*final(fat)) && final(fat).same_layout(*old(fat)) && searched(
                *old(self),
                *old(fat),
                *final(self),
                *final(fat),
                n as int,
            ),
            old(self).chain().len() == 1 && old(fat).spec_bytes_per_cluster() % 32 == 0 && (exists|w: int|
                old(self).index() + n <= w && in_clusters(
                    old(self).clusters(*old(fat)),
                    old(fat).spec_bytes_per_cluster() as int,
                    w,
                ) && #[trigger] free_run(
                    old(self).clusters(*old(fat)),
                    old(fat).spec_bytes_per_cluster() as int,
                    w,
                    n as int,
                )) ==> r is Ok && *final(fat) == *old(fat),
    {
        let ghost f0 = *fat;
        let ghost b0 = *self;
        let ghost l0 = self.chain();
        let ghost cls0 = self.clusters(*fat);
        let ghost bpc = fat.spec_bytes_per_cluster() as int;
        let ghost i0 = self.index();
        let ghost one = l0.len() == 1 && bpc % 32 == 0 && (exists|w: int|
            i0 + n <= w && in_clusters(cls0, bpc, w) && #[trigger] free_run(cls0, bpc, w, n as int));
        let ghost w = choose|w: int| i0 + n <= w && in_clusters(cls0, bpc, w) && #[trigger] free_run(cls0, bpc, w, n as int);
        let mut current_free_entries: usize = 0;
        let ghost mut news: Seq<u32> = Seq::empty();
        proof {
            lemma_allocated_empty(f0.table(), f0.search_start(), f0.top(), l0.last());
            self.lemma_inv(*fat);
            fat.lemma_same_layout_refl_trans(*fat, *fat);
            assert(l0 + news =~= l0);
            assert(grown_clusters(cls0, f0, news) =~= cls0);
            assert(sectors_kept(*fat, f0, l0));
            let len = l0.len();
            assert(len * bpc <= f0.top() * bpc) by (nonlinear_arith)
                requires
                    len <= f0.top(),
                    bpc > 0,
            ;
        }
        loop
            invariant_except_break
                current_free_entries < n,
                forall|k2: int| i0 + n <= k2 <= self.index() ==> !free_run(self.clusters(*fat), bpc, k2, n as int),
                one ==> self.index() < w,
            invariant
                f0 == *old(fat),
                b0 == *old(self),
                l0 == b0.chain(),
                cls0 == b0.clusters(f0),
                i0 == b0.index(),
                bpc == f0.spec_bytes_per_cluster() as int,
                bpc > 0,
                1 <= n <= 256,
                l0.len() > 0,
                self.index() * 32 <= f0.top() * bpc,
                self.inv(*fat),
                fat.same_layout(f0),
                self.chain() == l0 + news,
                allocated(f0.table(), f0.search_start(), f0.top(), l0.last(), news),
                fat.table() == extended(f0.table(), l0.last(), news),
                fat.search_start() == (if news.len() == 0 {
                    f0.search_start()
                } else {
                    news.last()
                }),
                self.clusters(*fat) == grown_clusters(cls0, f0, news),
                sectors_kept(*fat, f0, self.chain()),
                i0 <= self.index(),
                self.index() == i0 || in_clusters(self.clusters(*fat), bpc, self.index()),
                current_free_entries <= self.index() - i0,
                free_run(self.clusters(*fat), bpc, self.index(), current_free_entries as int),
                self.index() - current_free_entries == i0 || !free_record(
                    record(self.clusters(*fat), bpc, self.index() - current_free_entries),
                ),
                one == (l0.len() == 1 && bpc % 32 == 0 && (exists|w: int|
                    i0 + n <= w && in_clusters(cls0, bpc, w) && #[trigger] free_run(cls0, bpc, w, n as int))),
                one ==> i0 + n <= w && in_clusters(cls0, bpc, w) && free_run(cls0, bpc, w, n as int),
                one ==> *fat == f0 && news.len() == 0,
            ensures
                current_free_entries == n,
                forall|k2: int| i0 + n <= k2 < self.index() ==> !free_run(self.clusters(*fat), bpc, k2, n as int),
            decreases f0.top() * bpc - self.index() * 32,
        {
            let ghost f1 = *fat;
            let ghost s1 = *self;
            let ghost cls1 = self.clusters(*fat);
            let ghost idx1 = self.index();
            proof {
                self.lemma_inv(*fat);
                fat.lemma_same_layout(f0);
                let len = self.chain().len();
                assert(len * bpc <= f0.top() * bpc) by (nonlinear_arith)
                    requires
                        len <= f0.top(),
                        bpc > 0,
                ;
            }
            self.current_index = self.current_index + 1;
            proof {
                if one {
                    let idx = self.index();
                    lemma_in_clusters_before(cls0, bpc, w, idx);
                    lemma_fits_whole_records(bpc, idx);
                    self.buffer.lemma_inv(*fat);
                    assert(self.buffer.current_cluster_index == 0);
                    assert(cls0.len() == 1);
                    assert((idx * 32) / bpc == 0) by (nonlinear_arith)
                        requires
                            (idx * 32) / bpc < 1,
                            idx >= 0,
                            bpc > 0,
                    ;
                }
            }
            let rec = match self.read_record(fat) {
                Ok(rec) => rec,
                Err(e) => {
                    return Err(e);
                },
            };
            let ghost k = self.index();
            proof {
                fat.lemma_same_layout(f1);
                fat.lemma_same_layout_refl_trans(f1, f0);
                fat.lemma_same_layout(f0);
                if in_clusters(cls1, bpc, k) {
                    assert(cls1 + Seq::<Seq<u8>>::empty() =~= cls1);
                    lemma_runs_grown(cls1, Seq::empty(), bpc, i0, idx1, current_free_entries as int, n as int);
                    assert((l0 + news).take((l0 + news).len() as int) =~= l0 + news);
                    lemma_sectors_kept_trans(f0, f1, *fat, l0 + news, l0 + news);
                } else {
                    let c = self.chain().last();
                    let news2 = lemma_search_grew(f0, f1, *fat, s1, *self, l0, cls0, news);
                    lemma_runs_grown(cls1, seq![f0.cluster_data(c)], bpc, i0, idx1, current_free_entries as int, n as int);
                    news = news2;
                }
                assert(self.clusters(*fat) == grown_clusters(cls0, f0, news));
            }
            proof {
                self.lemma_inv(*fat);
                let len = self.chain().len();
                assert(len * bpc <= f0.top() * bpc) by (nonlinear_arith)
                    requires
                        len <= f0.top(),
                        bpc > 0,
                ;
            }
            let first = rec[0];
            if first != 0 && first != 0xE5 {
                current_free_entries = 0;
                proof {
                    if one {
                        assert(!free_at(cls0, bpc, k));
                        if w - n < k {
                            assert(free_at(cls0, bpc, k));
                        }
                    }
                    assert forall|k2: int| i0 + n <= k2 <= k implies !free_run(self.clusters(*fat), bpc, k2, n as int) by {
                        if k2 == k {
                            assert(!free_at(self.clusters(*fat), bpc, k));
                        }
                    }
                }
                continue;
            }
            current_free_entries = current_free_entries + 1;
            proof {
                let cls = self.clusters(*fat);
                assert(free_at(cls, bpc, k));
                assert(free_run(cls, bpc, k, current_free_entries as int));
            }
            if current_free_entries >= n {
                break;
            }
            proof {
                if one {
                    let st = k - current_free_entries;
                    if k == w {
                        assert(st > w - n);
                        assert(st != i0);
                        assert(free_at(cls0, bpc, st));
                        assert(record(self.clusters(*fat), bpc, st) == record(cls0, bpc, st));
                    }
                }
                let cls = self.clusters(*fat);
                assert forall|k2: int| i0 + n <= k2 <= k implies !free_run(cls, bpc, k2, n as int) by {
                    if k2 == k {
                        let m = k - current_free_entries;
                        if m != i0 {
                            assert(!free_at(cls, bpc, m));
                        }
                    }
                }
            }
        }
        proof {
            assert((l0 + news).skip(l0.len() as int) =~= news);
        }
        Ok(())
    }

    /// Stores `entry` in the directory: after the current record, the first run of free
    /// records long enough for the entry's records is found, the chain growing by free
    /// clusters where the run goes past it; the 8.3 record is written at the run's end and
    /// the long name records before it, and the current record becomes the first written.
    /// A directory whose name takes more than 11 bytes is refused.
    #[verifier::spinoff_prover]
    #[verifier::rlimit(100)]
    pub fn create<D: Device>(&mut self, fat: &mut FAT<D>, entry: DirectoryEntry) -> (r: Result<(), Status>)
        requires
            old(self).inv(*old(fat)),
            entry.spec_is_directory() || entry.spec_name().len() < 3315,
        ensures
            kept_with_growth(*final(fat), *old(fat), old(self).chain()),
            final(fat).same_layout(*old(fat)),
            entry.spec_is_directory() && utf8_len(entry.spec_name()) > 11 ==> r == Err::<(), Status>(
                Status::InvalidArgument,
            ) && *final(self) == *old(self) && *final(fat) == *old(fat),
            r is Ok ==> final(self).inv(*final(fat)) && final(fat).same_layout(*old(fat)),
            r is Ok ==> exists|d: DiskDirectoryEntry, longs: Seq<LongDirectoryEntry>|
                #[trigger] entry.stored_as(d, longs) && created(
                    *old(self),
                    *old(fat),
                    *final(self),
                    *final(fat),
                    entry_records(d, longs),
                ),
    {
        let ghost f0 = *fat;
        let ghost b0 = *self;
        let ghost l0 = self.chain();
        let ghost bpc = fat.spec_bytes_per_cluster() as int;
        let ghost spec_entry = entry;
        let (disk_entry, long_entries) = match entry.to_disk_entries() {
            Ok(x) => x,
            Err(e) => {
                proof {
                    lemma_kept_with_growth_refl(f0, l0);
                }
                return Err(e);
            },
        };
        proof {
            lemma_lfn_count_bound(spec_entry);
        }
        let num_entries = 1 + long_entries.len();
        let ghost recs = entry_records(disk_entry, long_entries@);
        match self.find_free_records(fat, num_entries) {
            Ok(()) => {},
            Err(e) => {
                return Err(e);
            },
        }
        let ghost f1 = *fat;
        let ghost s1 = *self;
        let disk_slice = disk_entry.to_slice();
        proof {
            s1.lemma_inv(f1);
            f1.lemma_same_layout(f0);
            let k = s1.index();
            let grown = s1.clusters(f1);
            assert forall|j: int| k - recs.len() < j <= k implies #[trigger] in_clusters(grown, bpc, j) by {
                assert(free_at(grown, bpc, j));
            }
            assert(recs =~= seq![disk_slice@] + long_entries@.map_values(|e: LongDirectoryEntry| e.bytes()));
        }
        let ghost news = s1.chain().skip(l0.len() as int);
        match self.write_entry_records(fat, &disk_slice, &long_entries) {
            Ok(()) => {},
            Err(e) => {
                proof {
                    lemma_kept_with_growth_step(f0, f1, *fat, l0, news);
                }
                return Err(e);
            },
        }
        proof {
            lemma_kept_with_growth_step(f0, f1, *fat, l0, news);
            fat.lemma_same_layout_refl_trans(f1, f0);
            assert(s1.chain().take(s1.chain().len() as int) =~= s1.chain());
            lemma_sectors_kept_trans(f0, f1, *fat, s1.chain(), s1.chain());
        }
        proof {
            assert(created(b0, f0, *self, *fat, recs));
        }
        Ok(())
    }

    /// Writes `disk` in the current record and the records of `longs` in the records
    /// before it, one after the other; the current record becomes the last written.
    #[verifier::rlimit(60)]
    fn write_entry_records<D: Device>(
        &mut self,
        fat: &mut FAT<D>,
        disk: &[u8; 32],
        longs: &Vec<LongDirectoryEntry>,
    ) -> (r: Result<(), Status>)
        requires
            old(self).inv(*old(fat)),
            old(self).index() >= longs@.len(),
            forall|j: int|
                old(self).index() - (1 + longs@.len()) < j <= old(self).index() ==> #[trigger] in_clusters(
                    old(self).clusters(*old(fat)),
                    old(fat).spec_bytes_per_cluster() as int,
                    j,
                ),
        ensures
            final(fat).same_layout(*old(fat)),
            final(self).chain() == old(self).chain(),
            sectors_kept(*final(fat), *old(fat), old(self).chain()),
            r is Ok ==> final(self).inv(*final(fat)) && final(fat).same_layout(*old(fat)) && final(fat).table()
                == old(fat).table(),
            r is Ok ==> final(self).index() == old(self).index() - longs@.len(),
            r is Ok ==> final(self).clusters(*final(fat)) == written(
                old(self).clusters(*old(fat)),
                old(fat).spec_bytes_per_cluster() as int,
                old(self).index(),
                seq![disk@] + longs@.map_values(|e: LongDirectoryEntry| e.bytes()),
            ),
            old(self).chain().len() == 1 && old(fat).spec_bytes_per_cluster() % 32 == 0 ==> r is Ok && *final(fat)
                == *old(fat),
    {
        reveal(DirectoryIterator::record_cached);
        let ghost f0 = *fat;
        let ghost bpc = f0.spec_bytes_per_cluster() as int;
        let ghost one = old(self).chain().len() == 1 && bpc % 32 == 0;
        let ghost k = self.index();
        let ghost grown = self.clusters(*fat);
        let ghost chain1 = self.chain();
        let ghost recs = seq![disk@] + longs@.map_values(|e: LongDirectoryEntry| e.bytes());
        proof {
            self.lemma_inv(*fat);
            fat.lemma_same_layout_refl_trans(*fat, *fat);
            assert(in_clusters(grown, bpc, k));
            if one {
                lemma_fits_whole_records(bpc, k);
                self.buffer.lemma_inv(*fat);
                assert(self.buffer.current_cluster_index == 0);
                assert((k * 32) / bpc == 0);
                assert(self.record_cached(bpc));
            }
        }
        match self.write_record(fat, disk) {
            Ok(()) => {},
            Err(e) => {
                return Err(e);
            },
        }
        proof {
            assert(recs.take(1).drop_last() =~= Seq::<Seq<u8>>::empty());
            assert(recs.take(1).last() == disk@);
            assert(written(grown, bpc, k, Seq::<Seq<u8>>::empty()) == grown);
            assert(self.clusters(*fat) == written(grown, bpc, k, recs.take(1)));
            assert(chain1.take(chain1.len() as int) =~= chain1);
        }
        let mut t: usize = 0;
        while t < longs.len()
            invariant
                f0 == *old(fat),
                bpc == f0.spec_bytes_per_cluster() as int,
                bpc > 0,
                k == old(self).index(),
                grown == old(self).clusters(f0),
                chain1 == old(self).chain(),
                recs == seq![disk@] + longs@.map_values(|e: LongDirectoryEntry| e.bytes()),
                t <= longs@.len(),
                k >= longs@.len(),
                self.inv(*fat),
                fat.same_layout(f0),
                fat.table() == f0.table(),
                self.chain() == chain1,
                chain1.take(chain1.len() as int) == chain1,
                sectors_kept(*fat, f0, chain1),
                self.index() == k - t,
                forall|j: int| k - (1 + longs@.len()) < j <= k ==> #[trigger] in_clusters(grown, bpc, j),
                self.clusters(*fat) == written(grown, bpc, k, recs.take(t + 1)),
                one == (old(self).chain().len() == 1 && bpc % 32 == 0),
                one ==> *fat == f0,
                grown.len() == chain1.len(),
            decreases longs@.len() - t,
        {
            let ghost f2 = *fat;
            self.current_index = self.current_index - 1;
            let slice = longs[t].to_slice();
            proof {
                fat.lemma_same_layout(f0);
                assert(in_clusters(grown, bpc, k - (t + 1)));
                assert forall|j: int| k - recs.take(t + 1).len() < j <= k implies #[trigger] in_clusters(grown, bpc, j) by {
                }
                if one {
                    lemma_fits_whole_records(bpc, k - (t + 1));
                    assert(self.chain().len() == 1);
                    self.lemma_inv(*fat);
                    assert(self.buffer.current_cluster_index < self.buffer.cluster_chain@.len());
                    assert(self.buffer.current_cluster_index == 0);
                    assert(grown.len() == 1);
                    let x = (k - (t + 1)) * 32;
                    assert(x / bpc >= 0) by (nonlinear_arith)
                        requires
                            x >= 0,
                            bpc > 0,
                    ;
                    assert(((k - (t + 1)) * 32) / bpc == 0);
                    reveal(DirectoryIterator::record_cached);
                    assert(self.record_cached(bpc));
                }
                lemma_written_len(grown, bpc, k, recs.take(t + 1));
            }
            match self.write_record(fat, &slice) {
                Ok(()) => {},
                Err(e) => {
                    proof {
                        lemma_sectors_kept_trans(f0, f2, *fat, chain1, chain1);
                    }
                    return Err(e);
                },
            }
            proof {
                fat.lemma_same_layout(f2);
                fat.lemma_same_layout_refl_trans(f2, f0);
                fat.lemma_same_layout(f0);
                lemma_sectors_kept_trans(f0, f2, *fat, chain1, chain1);
                assert(recs.take(t + 2).drop_last() =~= recs.take(t + 1));
                assert(recs[t + 1] == slice@);
                assert(recs.take(t + 2).last() == recs[t + 1]);
                assert(self.clusters(*fat) == written(grown, bpc, k, recs.take(t + 2)));
            }
            t = t + 1;
        }
        proof {
            assert(recs.take(longs@.len() + 1 as int) =~= recs);
        }
        Ok(())
    }

    /// Removes the entry at the current record: the record after it is read, to learn
    /// whether it ends the directory; the entry's record is overwritten with the removal
    /// mark, and so are the long name records before it, walking back while they carry the
    /// order numbers 1, 2, ... up to the one that marks itself the last.
    #[verifier::spinoff_prover]
    #[verifier::rlimit(100)]
    pub fn remove<D: Device>(&mut self, fat: &mut FAT<D>) -> (r: Result<(), Status>)
        requires
            old(self).inv(*old(fat)),
            old(self).index() >= 1,
            in_clusters(old(self).clusters(*old(fat)), old(fat).spec_bytes_per_cluster() as int, old(self).index()),
            walk_ok(old(self).clusters(*old(fat)), old(fat).spec_bytes_per_cluster() as int, old(self).index() - 1, 1),
        ensures
            kept_with_growth(*final(fat), *old(fat), old(self).chain()),
            in_clusters(old(self).clusters(*old(fat)), old(fat).spec_bytes_per_cluster() as int, old(self).index() + 1)
                ==> sectors_kept(*final(fat), *old(fat), old(self).chain()) && final(self).chain() == old(self).chain(),
            final(fat).same_layout(*old(fat)),
            r is Ok ==> final(self).inv(*final(fat)) && final(fat).same_layout(*old(fat)) && removed(
                *old(self),
                *old(fat),
                *final(self),
                *final(fat),
            ),
            old(self).chain().len() == 1 && old(fat).spec_bytes_per_cluster() % 32 == 0 && in_clusters(
                old(self).clusters(*old(fat)),
                old(fat).spec_bytes_per_cluster() as int,
                old(self).index() + 1,
            ) ==> r is Ok && *final(fat) == *old(fat),
    {
        let ghost f0 = *fat;
        let ghost b0 = *self;
        let ghost k = self.index();
        let ghost l0 = self.chain();
        let ghost cls0 = self.clusters(*fat);
        let ghost bpc = f0.spec_bytes_per_cluster() as int;
        let ghost one = l0.len() == 1 && bpc % 32 == 0 && in_clusters(cls0, bpc, k + 1);
        proof {
            self.lemma_inv(*fat);
            fat.lemma_same_layout_refl_trans(*fat, *fat);
            lemma_allocated_empty(f0.table(), f0.search_start(), f0.top(), l0.last());
            assert(grown_clusters(cls0, f0, Seq::<u32>::empty()) =~= cls0);
            assert(l0 + Seq::<u32>::empty() =~= l0);
            assert(sectors_kept(f0, f0, l0));
            let len = l0.len();
            assert(k * 32 < len * bpc) by (nonlinear_arith)
                requires
                    (k * 32) / bpc < len,
                    bpc > 0,
                    k >= 0,
            {
                vstd::arithmetic::div_mod::lemma_fundamental_div_mod(k * 32, bpc);
                vstd::arithmetic::div_mod::lemma_mod_bound(k * 32, bpc);
            }
            assert(len * bpc <= f0.top() * bpc) by (nonlinear_arith)
                requires
                    len <= f0.top(),
                    bpc > 0,
            ;
        }
        self.current_index = self.current_index + 1;
        proof {
            if one {
                lemma_fits_whole_records(bpc, k + 1);
                self.buffer.lemma_inv(*fat);
                assert(self.buffer.current_cluster_index == 0);
            }
        }
        let next = match self.read_record(fat) {
            Ok(rec) => rec,
            Err(e) => {
                return Err(e);
            },
        };
        let ghost f1 = *fat;
        let ghost s1 = *self;
        let ghost mut news: Seq<u32> = Seq::empty();
        proof {
            f1.lemma_same_layout(f0);
            if !in_clusters(cls0, bpc, k + 1) {
                let n2 = lemma_search_grew(f0, f0, f1, b0, s1, l0, cls0, Seq::empty());
                news = n2;
            } else {
                assert(cls0 + Seq::<Seq<u8>>::empty() =~= cls0);
                assert(l0.take(l0.len() as int) =~= l0);
            }
            assert(s1.clusters(f1) == grown_clusters(cls0, f0, news));
            assert(s1.chain() == l0 + news);
        }
        let ghost grown = s1.clusters(f1);
        let ghost chain1 = s1.chain();
        let mut write_buffer = [0u8; 32];
        if next[0] != 0 {
            write_buffer[0] = 0xE5;
        }
        proof {
            assert(write_buffer@ =~= removal_mark(record(grown, bpc, k + 1)));
            lemma_record_grown(cls0, grown.skip(cls0.len() as int), bpc, k);
            assert(cls0 + grown.skip(cls0.len() as int) =~= grown);
            self.lemma_inv(*fat);
        }
        self.current_index = self.current_index - 1;
        proof {
            if one {
                reveal(DirectoryIterator::record_cached);
                lemma_fits_whole_records(bpc, k);
                self.lemma_inv(*fat);
                assert(self.buffer.current_cluster_index == 0);
                assert(self.record_cached(bpc));
            }
        }
        match self.write_record(fat, &write_buffer) {
            Ok(()) => {},
            Err(e) => {
                return Err(e);
            },
        }
        let ghost mark = write_buffer@;
        proof {
            fat.lemma_same_layout(f1);
            fat.lemma_same_layout_refl_trans(f1, f0);
            assert(chain1.take(chain1.len() as int) =~= chain1);
            lemma_sectors_kept_trans(f0, f1, *fat, chain1, chain1);
            assert(Seq::new(1, |i: int| mark).drop_last() =~= Seq::<Seq<u8>>::empty());
            assert(written(grown, bpc, k, Seq::<Seq<u8>>::empty()) == grown);
            assert(self.clusters(*fat) == written(grown, bpc, k, Seq::new(1, |i: int| mark)));
            // the records below k read as in grown
            assert forall|i: int| 0 <= i < k && in_clusters(grown, bpc, i) && fits(bpc, i) implies record(
                #[trigger] self.clusters(*fat),
                bpc,
                i,
            ) == record(grown, bpc, i) by {
                self.lemma_inv(*fat);
                lemma_with_record_other(grown, bpc, k, mark, i);
            }
        }
        let mut next_ord: u8 = 1;
        proof {
            lemma_in_clusters_before(cls0, bpc, k, k - 1);
            lemma_walk_grown(cls0, grown.skip(cls0.len() as int), bpc, k - 1, 1);
        }
        loop
            invariant_except_break
                walk_ok(grown, bpc, k - next_ord, next_ord as int),
                self.index() == k - (next_ord - 1),
                next_ord <= k,
                lfn_cleared(grown, bpc, k - 1, 1) == (next_ord - 1) + lfn_cleared(grown, bpc, k - next_ord, next_ord as int),
                lfn_read(grown, bpc, k - 1, 1) == (next_ord - 1) + lfn_read(grown, bpc, k - next_ord, next_ord as int),
            invariant
                f0 == *old(fat),
                b0 == *old(self),
                k == b0.index(),
                l0 == b0.chain(),
                cls0 == b0.clusters(f0),
                bpc == f0.spec_bytes_per_cluster() as int,
                bpc > 0,
                grown == grown_clusters(cls0, f0, news),
                chain1 == l0 + news,
                news.len() <= 1,
                allocated(f0.table(), f0.search_start(), f0.top(), l0.last(), news),
                in_clusters(cls0, bpc, k + 1) ==> news.len() == 0,
                fat.table() == extended(f0.table(), l0.last(), news),
                chain1.take(chain1.len() as int) == chain1,
                mark == removal_mark(record(grown, bpc, k + 1)),
                mark == write_buffer@,
                one == (l0.len() == 1 && bpc % 32 == 0 && in_clusters(cls0, bpc, k + 1)),
                one ==> *fat == f0 && news.len() == 0,
                self.inv(*fat),
                fat.same_layout(f0),
                self.chain() == chain1,
                sectors_kept(*fat, f0, chain1),
                grown.len() == chain1.len(),
                in_clusters(grown, bpc, k),
                1 <= next_ord <= 192,
                self.clusters(*fat) == written(grown, bpc, k, Seq::new(next_ord as nat, |i: int| mark)),
                forall|i: int|
                    0 <= i < self.index() && in_clusters(grown, bpc, i) && fits(bpc, i) ==> record(
                        #[trigger] self.clusters(*fat),
                        bpc,
                        i,
                    ) == record(grown, bpc, i),
            ensures
                lfn_cleared(grown, bpc, k - 1, 1) == next_ord - 1,
                lfn_read(grown, bpc, k - 1, 1) == k - self.index(),
                self.clusters(*fat) == written(grown, bpc, k, Seq::new(next_ord as nat, |i: int| mark)),
            decreases self.index(),
        {
            let ghost f2 = *fat;
            let ghost i = k - next_ord;
            proof {
                self.lemma_inv(*fat);
                lemma_in_clusters_before(grown, bpc, k, i);
                assert(in_clusters(grown, bpc, i));
                assert(i < self.index());
            }
            let ghost cls2 = self.clusters(*fat);
            proof {
                fat.lemma_same_layout(f0);
                assert(cls2.len() == grown.len());
                assert(in_clusters(cls2, bpc, i));
            }
            self.current_index = self.current_index - 1;
            proof {
                if one {
                    lemma_fits_whole_records(bpc, i);
                    self.lemma_inv(*fat);
                    assert(self.buffer.current_cluster_index == 0);
                    assert(grown.len() == 1);
                    assert((i * 32) / bpc == 0) by (nonlinear_arith)
                        requires
                            (i * 32) / bpc < 1,
                            i >= 0,
                            bpc > 0,
                    ;
                }
            }
            let rec = match self.read_record(fat) {
                Ok(rec) => rec,
                Err(e) => {
                    proof {
                        lemma_sectors_kept_trans(f0, f2, *fat, chain1, chain1);
                        if in_clusters(cls0, bpc, k + 1) {
                            assert(chain1 =~= l0);
                        }
                    }
                    return Err(e);
                },
            };
            let ghost f3 = *fat;
            proof {
                fat.lemma_same_layout(f2);
                fat.lemma_same_layout_refl_trans(f2, f0);
                fat.lemma_same_layout(f0);
                lemma_sectors_kept_trans(f0, f2, *fat, chain1, chain1);
                assert(fits(bpc, i));
                assert(record(cls2, bpc, i) == record(grown, bpc, i));
                assert(rec@ == record(grown, bpc, i));
            }
            let attributes = rec[11];
            let order = rec[0];
            proof {
                assert((order & !0x40u8) <= 191) by (bit_vector);
            }
            if attributes & 0x0F != 0x0F {
                break;
            }
            if order & !0x40u8 != next_ord {
                break;
            }
            proof {
                assert forall|j: int| k - Seq::new(next_ord as nat, |j2: int| mark).len() < j <= k implies #[trigger] in_clusters(
                    grown,
                    bpc,
                    j,
                ) by {
                    lemma_in_clusters_before(grown, bpc, k, j);
                }
                lemma_written_len(grown, bpc, k, Seq::new(next_ord as nat, |j: int| mark));
                if one {
                    reveal(DirectoryIterator::record_cached);
                    lemma_fits_whole_records(bpc, i);
                    self.lemma_inv(*fat);
                    assert(self.buffer.current_cluster_index == 0);
                    assert(grown.len() == 1);
                    assert((i * 32) / bpc == 0) by (nonlinear_arith)
                        requires
                            (i * 32) / bpc < 1,
                            i >= 0,
                            bpc > 0,
                    ;
                    assert(self.record_cached(bpc));
                }
            }
            match self.write_record(fat, &write_buffer) {
                Ok(()) => {},
                Err(e) => {
                    proof {
                        lemma_sectors_kept_trans(f0, f3, *fat, chain1, chain1);
                    }
                    return Err(e);
                },
            }
            proof {
                fat.lemma_same_layout(f3);
                fat.lemma_same_layout_refl_trans(f3, f0);
                fat.lemma_same_layout(f0);
                lemma_sectors_kept_trans(f0, f3, *fat, chain1, chain1);
                let marks = Seq::new((next_ord + 1) as nat, |j: int| mark);
                assert(marks.drop_last() =~= Seq::new(next_ord as nat, |j: int| mark));
                assert(self.clusters(*fat) == written(grown, bpc, k, marks));
                assert forall|i2: int| 0 <= i2 < self.index() && in_clusters(grown, bpc, i2) && fits(bpc, i2) implies record(
                    #[trigger] self.clusters(*fat),
                    bpc,
                    i2,
                ) == record(grown, bpc, i2) by {
                    f3.lemma_same_layout(f0);
                    lemma_with_record_other(written(grown, bpc, k, Seq::new(next_ord as nat, |j: int| mark)), bpc, i, mark, i2);
                }
            }
            if order & 0x40 != 0 {
                proof {
                    assert(lfn_cleared(grown, bpc, i, next_ord as int) == 1);
                }
                next_ord = next_ord + 1;
                proof {
                    assert(self.index() == i);
                }
                break;
            }
            next_ord = next_ord + 1;
        }
        proof {
            assert(news =~= chain1.skip(l0.len() as int));
            assert(removed(b0, f0, *self, *fat));
        }
        Ok(())
    }

    /// The cluster number within the chain and the offset within that cluster of the
    /// current record.
    fn get_cluster_index_and_offset(&self) -> (r: (usize, usize))
        requires
            self.cluster_top > 0,
            self.current_index * 32 <= usize::MAX,
        ensures
            r.0 == (self.current_index * 32) / (self.cluster_top as int),
            r.1 == (self.current_index * 32) % (self.cluster_top as int),
    {
        let byte_index = self.current_index * 32;
        (byte_index / self.cluster_top, byte_index % self.cluster_top)
    }
}

} // verus!
