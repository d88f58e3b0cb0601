pub mod entry;
pub mod iterator;
pub mod names;
pub mod scan;

use vstd::prelude::*;

use crate::bytes::le16;
use crate::device::Device;
use crate::error::Status;
use crate::filesystem::drivers::fat32::directory::entry::{
    le16_bytes, le32_bytes, records_store, utf8_len, DirectoryEntry, DiskDirectoryEntry, LongDirectoryEntry,
    ATTRIBUTE_DIRECTORY,
};
use crate::filesystem::drivers::fat32::directory::iterator::{
    boundary, chain_data, created, data_chain, end_index, entries_before, entry_records, free_run, grown_clusters,
    in_clusters, kept_with_growth, lemma_in_clusters_before, lemma_kept_from_unchanged, lemma_kept_after_unchanged, lemma_kept_with_growth_step, lemma_kept_with_growth_refl, lemma_sectors_kept_join, lemma_end_index, lemma_entries_prefix, lemma_positions, lemma_scan_step, lemma_scan_stops, lemma_stops_safe,
    lemma_sectors_kept_trans, lfn_cleared, listing, listing_ok, positions, positions_before, record, removal_mark,
    sectors_kept, walk_ok, with_metadata, with_record, written, DirectoryIterator, EntryView,
};
use crate::filesystem::drivers::fat32::fat::{
    allocated, chain, chain_in_table, extended, first_free, is_chain, with_value, lemma_allocated_above, lemma_allocated_empty, lemma_chain_is_chain,
    lemma_chain_step, lemma_first_free, lemma_is_chain_unique, state_of, ClusterState, END_OF_CHAIN, FAT,
};
use crate::filesystem::drivers::fat32::file::File;
use crate::filesystem::file::FileMetadata;

verus! {

/// The files among the entries `es`, with their sizes, in order.
pub open spec fn files_of(es: Seq<EntryView>) -> Seq<(Seq<char>, usize)>
    decreases es.len(),
{
    if es.len() == 0 {
        Seq::empty()
    } else {
        let prev = files_of(es.drop_last());
        if es.last().1 {
            prev
        } else {
            prev.push((es.last().0, es.last().3))
        }
    }
}

/// The names of the directories among the entries `es`, in order, but for `.` and `..`.
pub open spec fn directories_of(es: Seq<EntryView>) -> Seq<Seq<char>>
    decreases es.len(),
{
    if es.len() == 0 {
        Seq::empty()
    } else {
        let prev = directories_of(es.drop_last());
        if es.last().1 && es.last().0 != seq!['.'] && es.last().0 != seq!['.', '.'] {
            prev.push(es.last().0)
        } else {
            prev
        }
    }
}

/// Entry `j` of `es` is the first one named `name`.
pub open spec fn first_named(es: Seq<EntryView>, name: Seq<char>, j: int) -> bool {
    &&& 0 <= j < es.len()
    &&& es[j].0 == name
    &&& forall|i: int| 0 <= i < j ==> es[i].0 != name
}

/// A free cluster taken from the table leaves a directory's chain and its data as they
/// were, and a write to that cluster's data too.
pub proof fn lemma_directory_kept<D: Device>(dir: Directory, f0: FAT<D>, f1: FAT<D>, c: u32)
    requires
        f0.wf(),
        f0.volume_ok(),
        data_chain(f0.table(), dir.spec_first_cluster()),
        f0.table().contains_key(c),
        f0.table()[c] == 0,
        c >= 2,
        f1.table() == f0.table().insert(c, END_OF_CHAIN),
        f1.same_layout(f0),
        forall|a: int|
            a >= f0.spec_first_data_sector() && a != f0.sector_of_cluster(c) ==> #[trigger] f1.spec_drive().block(a)
                == f0.spec_drive().block(a),
    ensures
        data_chain(f1.table(), dir.spec_first_cluster()),
        chain(f1.table(), dir.spec_first_cluster()) == chain(f0.table(), dir.spec_first_cluster()),
        dir.content(f1) == dir.content(f0),
        forall|x: u32| x >= 2 && x != c ==> #[trigger] f1.cluster_data(x) == f0.cluster_data(x),
{
    let first = dir.spec_first_cluster();
    let t0 = f0.table();
    let t1 = f1.table();
    let l = chain(t0, first);
    lemma_chain_is_chain(t0, first);
    f1.lemma_same_layout(f0);
    f0.lemma_sectors_per_cluster();
    assert forall|i: int| 0 <= i < l.len() implies l[i] != c by {
        if i < l.len() - 1 {
            assert(state_of(t0[l[i]]) == ClusterState::Next(l[i + 1]));
        }
    }
    assert forall|i: int| 0 <= i < l.len() implies t1.contains_key(#[trigger] l[i]) by {
    }
    assert forall|i: int| 0 <= i < l.len() - 1 implies state_of(t1[#[trigger] l[i]]) == ClusterState::Next(l[i + 1]) by {
        assert(l[i] != c);
    }
    assert(l.last() != c);
    assert(is_chain(t1, l));
    lemma_is_chain_unique(t1, l);
    assert forall|x: u32| x >= 2 && x != c implies #[trigger] f1.cluster_data(x) == f0.cluster_data(x) by {
        f0.lemma_data_sector(x);
        f0.lemma_sector_injective(x, c);
    }
    assert forall|k: int| 0 <= k < l.len() implies #[trigger] dir.content(f1)[k] == dir.content(f0)[k] by {
        assert(f1.cluster_data(l[k]) == f0.cluster_data(l[k]));
    }
    assert(dir.content(f1) =~= dir.content(f0));
}

/// The 32-byte record of a directory entry with 8.3 name `name` for a directory whose data
/// starts at `cluster`: the directory attribute, the cluster's halves, and zero elsewhere.
pub open spec fn directory_record(name: Seq<u8>, cluster: u32) -> Seq<u8> {
    name + seq![ATTRIBUTE_DIRECTORY, 0u8, 0u8] + le16_bytes(0) + le16_bytes(0) + le16_bytes(0) + le16_bytes(
        (cluster / 65536) as u16,
    ) + le16_bytes(0) + le16_bytes(0) + le16_bytes((cluster % 65536) as u16) + le32_bytes(0)
}

/// The data of a new directory's first cluster of `bpc` bytes: the `.` record for itself,
/// starting at `cluster`, the `..` record for its parent, starting at `parent`, and zeros.
pub open spec fn empty_directory(cluster: u32, parent: u32, bpc: int) -> Seq<u8> {
    directory_record(seq![46u8, 32u8, 32u8, 32u8, 32u8, 32u8, 32u8, 32u8, 32u8, 32u8, 32u8], cluster)
        + directory_record(seq![46u8, 46u8, 32u8, 32u8, 32u8, 32u8, 32u8, 32u8, 32u8, 32u8, 32u8], parent) + Seq::new(
        (bpc - 64) as nat,
        |i: int| 0u8,
    )
}

/// A directory record names the cluster it was made for: its low half, at bytes 26-27, and
/// its high half, at bytes 20-21, read back `cluster`; it carries the directory attribute.
pub proof fn lemma_directory_record_reads_back(name: Seq<u8>, cluster: u32)
    requires
        name.len() == 11,
    ensures
        directory_record(name, cluster).len() == 32,
        directory_record(name, cluster).subrange(0, 11) == name,
        directory_record(name, cluster)[11] == ATTRIBUTE_DIRECTORY,
        le16(directory_record(name, cluster), 26) + 65536 * le16(directory_record(name, cluster), 20) == cluster,
{
    let d = directory_record(name, cluster);
    let high = (cluster / 65536) as u16;
    let low = (cluster % 65536) as u16;
    assert(d.subrange(0, 11) =~= name);
    assert(d[20] == (high % 256) as u8 && d[21] == (high / 256) as u8);
    assert(d[26] == (low % 256) as u8 && d[27] == (low / 256) as u8);
    assert(le16(d, 20) == high);
    assert(le16(d, 26) == low);
}

/// A new directory's first cluster names the directory and its parent: its first record is
/// `.`, reading back `cluster`, its second is `..`, reading back `parent`, both directories,
/// and the rest of its `bpc` bytes are zero.
pub proof fn lemma_empty_directory_reads_back(cluster: u32, parent: u32, bpc: int)
    requires
        bpc >= 64,
    ensures
        empty_directory(cluster, parent, bpc).len() == bpc,
        empty_directory(cluster, parent, bpc).subrange(0, 11) == seq![46u8, 32u8, 32u8, 32u8, 32u8, 32u8, 32u8, 32u8, 32u8, 32u8, 32u8],
        empty_directory(cluster, parent, bpc).subrange(32, 43) == seq![46u8, 46u8, 32u8, 32u8, 32u8, 32u8, 32u8, 32u8, 32u8, 32u8, 32u8],
        empty_directory(cluster, parent, bpc)[11] == ATTRIBUTE_DIRECTORY,
        empty_directory(cluster, parent, bpc)[43] == ATTRIBUTE_DIRECTORY,
        le16(empty_directory(cluster, parent, bpc), 26) + 65536 * le16(empty_directory(cluster, parent, bpc), 20)
            == cluster,
        le16(empty_directory(cluster, parent, bpc), 58) + 65536 * le16(empty_directory(cluster, parent, bpc), 52)
            == parent,
        forall|i: int| 64 <= i < bpc ==> #[trigger] empty_directory(cluster, parent, bpc)[i] == 0,
{
    let dot = seq![46u8, 32u8, 32u8, 32u8, 32u8, 32u8, 32u8, 32u8, 32u8, 32u8, 32u8];
    let dotdot = seq![46u8, 46u8, 32u8, 32u8, 32u8, 32u8, 32u8, 32u8, 32u8, 32u8, 32u8];
    lemma_directory_record_reads_back(dot, cluster);
    lemma_directory_record_reads_back(dotdot, parent);
    let a = directory_record(dot, cluster);
    let b = directory_record(dotdot, parent);
    let d = empty_directory(cluster, parent, bpc);
    assert(d.subrange(0, 11) =~= a.subrange(0, 11));
    assert(d.subrange(32, 43) =~= b.subrange(0, 11));
    assert(d[20] == a[20] && d[21] == a[21] && d[26] == a[26] && d[27] == a[27]);
    assert(d[52] == b[20] && d[53] == b[21] && d[58] == b[26] && d[59] == b[27]);
    assert(d[11] == a[11] && d[43] == b[11]);
}

/// The record of a directory entry for a directory whose data starts at `cluster`.
fn directory_entry_for(filename: [u8; 11], cluster: u32) -> (r: DiskDirectoryEntry)
    ensures
        r.bytes() == directory_record(filename@, cluster),
{
    proof {
        assert((cluster >> 16u32) & 0xFFFF == cluster / 65536 && cluster & 0xFFFF == cluster % 65536) by (bit_vector);
    }
    let r = DiskDirectoryEntry {
        filename: filename,
        attributes: ATTRIBUTE_DIRECTORY,
        reserved: 0,
        creation_tenths: 0,
        creation_time: 0,
        creation_date: 0,
        last_accessed_date: 0,
        first_cluster_high: ((cluster >> 16u32) & 0xFFFF) as u16,
        last_modification_time: 0,
        last_modification_date: 0,
        first_cluster_low: (cluster & 0xFFFF) as u16,
        file_size: 0,
    };
    assert(r.bytes() =~= directory_record(filename@, cluster));
    r
}

/// The data of a new directory's first cluster: its `.` and `..` records and zeros, up to
/// `bytes_per_cluster` bytes.
fn empty_directory_cluster(first_cluster: u32, parent_cluster: u32, bytes_per_cluster: usize) -> (r: Vec<u8>)
    requires
        bytes_per_cluster >= 64,
    ensures
        r@ == empty_directory(first_cluster, parent_cluster, bytes_per_cluster as int),
{
    let dot_entry = directory_entry_for([46u8, 32u8, 32u8, 32u8, 32u8, 32u8, 32u8, 32u8, 32u8, 32u8, 32u8], first_cluster);
    let dot_dot_entry = directory_entry_for(
        [46u8, 46u8, 32u8, 32u8, 32u8, 32u8, 32u8, 32u8, 32u8, 32u8, 32u8],
        parent_cluster,
    );
    let mut buffer: Vec<u8> = Vec::with_capacity(bytes_per_cluster);
    let dot_entry_slice = dot_entry.to_slice();
    let dot_dot_entry_slice = dot_dot_entry.to_slice();
    let mut i: usize = 0;
    while i < 32
        invariant
            i <= 32,
            buffer@ == dot_entry_slice@.take(i as int),
        decreases 32 - i,
    {
        buffer.push(dot_entry_slice[i]);
        i = i + 1;
        assert(buffer@ =~= dot_entry_slice@.take(i as int));
    }
    i = 0;
    while i < 32
        invariant
            i <= 32,
            buffer@ == dot_entry_slice@ + dot_dot_entry_slice@.take(i as int),
        decreases 32 - i,
    {
        buffer.push(dot_dot_entry_slice[i]);
        i = i + 1;
        assert(buffer@ =~= dot_entry_slice@ + dot_dot_entry_slice@.take(i as int));
    }
    while buffer.len() < bytes_per_cluster
        invariant
            64 <= buffer@.len() <= bytes_per_cluster,
            buffer@ == dot_entry_slice@ + dot_dot_entry_slice@ + Seq::new((buffer@.len() - 64) as nat, |i: int| 0u8),
        decreases bytes_per_cluster - buffer@.len(),
    {
        buffer.push(0);
        assert(buffer@ =~= dot_entry_slice@ + dot_dot_entry_slice@ + Seq::new((buffer@.len() - 64) as nat, |i: int| 0u8));
    }
    proof {
        reveal_with_fuel(vstd::seq::Seq::take, 1);
        assert(dot_entry_slice@.take(32) =~= dot_entry_slice@);
        assert(dot_dot_entry_slice@.take(32) =~= dot_dot_entry_slice@);
    }
    buffer
}

/// A directory on a FAT32 volume: where its cluster chain starts.
#[derive(Clone, Copy)]
pub struct Directory {
    first_cluster: u32,
}

/// Every data sector of `before` keeps its bytes in `after` but those of the directory's
/// chain `l0`, of the clusters that the allocation policy appends to that chain once the
/// first free cluster is taken, and, when `written` holds, of that cluster itself.
pub open spec fn kept_after_taking<D: Device>(after: FAT<D>, before: FAT<D>, l0: Seq<u32>, written: bool) -> bool {
    &&& first_free(before.table(), before.search_start() as int, before.top() as int) is None ==> sectors_kept(
        after,
        before,
        l0,
    )
    &&& forall|c: u32|
        first_free(before.table(), before.search_start() as int, before.top() as int) == Some(c) ==> exists|
            news: Seq<u32>,
        |
            #[trigger] allocated(before.table().insert(c, END_OF_CHAIN), c, before.top(), l0.last(), news)
                && sectors_kept(after, before, l0 + news + taken(c, written))
}

/// The cluster `c` when it is written, else nothing.
pub open spec fn taken(c: u32, written: bool) -> Seq<u32> {
    if written {
        seq![c]
    } else {
        Seq::<u32>::empty()
    }
}

/// A step that keeps every data sector keeps those outside the directory's chain, whatever
/// cluster it takes.
proof fn lemma_taking_unchanged<D: Device>(f0: FAT<D>, f1: FAT<D>, l0: Seq<u32>, written: bool)
    requires
        f1.data_unchanged(f0),
    ensures
        kept_after_taking(f1, f0, l0, written),
{
    assert forall|c: u32| first_free(f0.table(), f0.search_start() as int, f0.top() as int) == Some(c) implies exists|
        news: Seq<u32>,
    |
        #[trigger] allocated(f0.table().insert(c, END_OF_CHAIN), c, f0.top(), l0.last(), news) && sectors_kept(
            f1,
            f0,
            l0 + news + taken(c, written),
        ) by {
        lemma_allocated_empty(f0.table().insert(c, END_OF_CHAIN), c, f0.top(), l0.last());
        assert(sectors_kept(f1, f0, l0 + Seq::<u32>::empty() + taken(c, written)));
    }
}

/// Taking the first free cluster (and, when `written` holds, writing only its sectors), and
/// then keeping the sectors outside the directory's chain grown by the allocation policy,
/// keeps every sector but those of the chain, of its growth and of that cluster.
proof fn lemma_taking_after<D: Device>(f0: FAT<D>, f1: FAT<D>, f2: FAT<D>, l0: Seq<u32>, c: u32, written: bool)
    requires
        first_free(f0.table(), f0.search_start() as int, f0.top() as int) == Some(c),
        f1.table() == f0.table().insert(c, END_OF_CHAIN),
        f1.search_start() == c,
        f1.same_layout(f0),
        sectors_kept(f1, f0, taken(c, written)),
        kept_with_growth(f2, f1, l0),
    ensures
        kept_after_taking(f2, f0, l0, written),
{
    f1.lemma_same_layout(f0);
    let extra = taken(c, written);
    let news = choose|news: Seq<u32>|
        #[trigger] allocated(f1.table(), f1.search_start(), f1.top(), l0.last(), news) && sectors_kept(f2, f1, l0 + news);
    let l = l0 + news + extra;
    assert forall|k: int| 0 <= k < extra.len() implies l.contains(#[trigger] extra[k]) by {
        assert(l[l0.len() + news.len() + k] == extra[k]);
    }
    assert forall|k: int| 0 <= k < (l0 + news).len() implies l.contains(#[trigger] (l0 + news)[k]) by {
        assert(l[k] == (l0 + news)[k]);
    }
    lemma_sectors_kept_join(f0, f1, f2, extra, l0 + news, l);
    assert(allocated(f0.table().insert(c, END_OF_CHAIN), c, f0.top(), l0.last(), news));
}

impl Directory {
    pub closed spec fn spec_first_cluster(&self) -> u32 {
        self.first_cluster
    }

    pub fn new(first_cluster: u32) -> (r: Self)
        ensures
            r.spec_first_cluster() == first_cluster,
    {
        Directory { first_cluster }
    }

    /// The directory's clusters, as the volume holds them.
    pub open spec fn content<D: Device>(&self, fat: FAT<D>) -> Seq<Seq<u8>> {
        chain_data(fat, chain(fat.table(), self.spec_first_cluster()))
    }

    /// The directory's entries, in the order of their records.
    pub open spec fn entries<D: Device>(&self, fat: FAT<D>) -> Seq<EntryView> {
        listing(self.content(fat), fat.spec_bytes_per_cluster() as int)
    }

    /// The directory can be read: the volume can hold growing chains and its bytes can be
    /// counted in a `usize`, the directory's chain ends and holds data clusters, and a
    /// scan of its records comes to an end record within the chain, reading only records
    /// it can take.
    pub open spec fn readable<D: Device>(&self, fat: FAT<D>) -> bool {
        &&& fat.wf()
        &&& fat.volume_ok()
        &&& data_chain(fat.table(), self.spec_first_cluster())
        &&& fat.top() * fat.spec_bytes_per_cluster() + 32 <= usize::MAX
        &&& listing_ok(self.content(fat), fat.spec_bytes_per_cluster() as int)
    }

    fn create_iterator<D: Device>(&self, fat: &mut FAT<D>) -> (r: Result<DirectoryIterator, Status>)
        requires
            old(fat).wf(),
            old(fat).volume_ok(),
            data_chain(old(fat).table(), self.spec_first_cluster()),
            old(fat).top() * old(fat).spec_bytes_per_cluster() + 32 <= usize::MAX,
        ensures
            final(fat).same_layout(*old(fat)),
            r is Ok ==> final(fat).wf() && final(fat).volume_ok()
                && final(fat).table() == old(fat).table() && final(fat).search_start() == old(fat).search_start(),
            final(fat).data_unchanged(*old(fat)),
            r matches Ok(it) ==> it.inv(*final(fat)) && it.index() == 0 && it.flushed() && it.chain() == chain(
                old(fat).table(),
                self.spec_first_cluster(),
            ) && it.clusters(*final(fat)) == self.content(*old(fat)),
    {
        DirectoryIterator::new(self.first_cluster, fat)
    }

    /// Whether the directory can be read: a scan of its records, from the start and within
    /// its chain, comes to an end record, reading only records it can take. The chain is
    /// not grown.
    pub fn check_readable<D: Device>(&self, fat: &mut FAT<D>) -> (r: Result<bool, Status>)
        requires
            old(fat).wf(),
            old(fat).volume_ok(),
            data_chain(old(fat).table(), self.spec_first_cluster()),
            old(fat).top() * old(fat).spec_bytes_per_cluster() + 32 <= usize::MAX,
        ensures
            final(fat).same_layout(*old(fat)),
            final(fat).data_unchanged(*old(fat)),
            r is Ok ==> final(fat).wf() && final(fat).table() == old(fat).table(),
            r matches Ok(b) ==> b == self.readable(*old(fat)),
            r == Ok::<bool, Status>(true) ==> self.readable(*final(fat)),
    {
        let ghost f0 = *fat;
        let mut iter = match self.create_iterator(fat) {
            Ok(it) => it,
            Err(e) => {
                return Err(e);
            },
        };
        let ghost f1 = *fat;
        let r = iter.scan_ends_within(fat);
        proof {
            f1.lemma_same_layout(f0);
            if r is Ok {
                fat.lemma_same_layout(f1);
                fat.lemma_same_layout_refl_trans(f1, f0);
                fat.lemma_same_layout(f0);
                let l = chain(f0.table(), self.spec_first_cluster());
                assert(chain_data(*fat, l) =~= chain_data(f0, l)) by {
                    assert forall|k: int| 0 <= k < l.len() implies #[trigger] fat.cluster_data(l[k]) == f0.cluster_data(
                        l[k],
                    ) by {
                        lemma_chain_is_chain(f0.table(), self.spec_first_cluster());
                        fat.lemma_data_sector(l[k]);
                    }
                }
            }
        }
        r
    }

    /// The files in the directory, with their sizes, in order.
    pub fn get_sub_files<D: Device>(&self, fat: &mut FAT<D>) -> (r: Result<Vec<(String, FileMetadata)>, Status>)
        requires
            self.readable(*old(fat)),
        ensures
            final(fat).same_layout(*old(fat)),
            final(fat).data_unchanged(*old(fat)),
            r is Ok ==> final(fat).wf() && final(fat).table() == old(fat).table(),
            r matches Ok(v) ==> v@.len() == files_of(self.entries(*old(fat))).len() && forall|i: int|
                0 <= i < v@.len() ==> (#[trigger] v@[i]).0@ == files_of(self.entries(*old(fat)))[i].0 && v@[i].1.spec_size()
                    == files_of(self.entries(*old(fat)))[i].1,
    {
        let ghost f0 = *fat;
        let ghost cls = self.content(f0);
        let ghost bpc = f0.spec_bytes_per_cluster() as int;
        let mut iter = match self.create_iterator(fat) {
            Ok(it) => it,
            Err(e) => {
                return Err(e);
            },
        };
        proof {
            fat.lemma_same_layout(f0);
            lemma_end_index(cls, bpc);
        }
        let mut sub_files: Vec<(String, FileMetadata)> = Vec::new();
        loop
            invariant
                f0 == *old(fat),
                cls == self.content(f0),
                bpc == f0.spec_bytes_per_cluster(),
                bpc == fat.spec_bytes_per_cluster(),
                bpc > 0,
                listing_ok(cls, bpc),
                iter.inv(*fat),
                iter.clusters(*fat) == cls,
                iter.flushed(),
                fat.table() == f0.table(),
                fat.same_layout(f0),
                fat.data_unchanged(f0),
                boundary(cls, bpc, iter.index()),
                0 <= iter.index() < end_index(cls, bpc),
                sub_files@.len() == files_of(entries_before(cls, bpc, iter.index() + 1)).len(),
                forall|i: int|
                    0 <= i < sub_files@.len() ==> (#[trigger] sub_files@[i]).0@ == files_of(
                        entries_before(cls, bpc, iter.index() + 1),
                    )[i].0 && sub_files@[i].1.spec_size() == files_of(entries_before(cls, bpc, iter.index() + 1))[i].1,
            decreases end_index(cls, bpc) - iter.index(),
        {
            let ghost b = iter.index();
            let ghost f1 = *fat;
            proof {
                lemma_scan_stops(cls, bpc, b);
                lemma_stops_safe(cls, *fat, iter.chain(), b);
            }
            let step = iter.next(fat);
            proof {
                f1.lemma_same_layout(f0);
                fat.lemma_same_layout_refl_trans(f1, f0);
                if step is Ok {
                    fat.lemma_same_layout(f0);
                }
            }
            match step {
                Err(e) => {
                    return Err(e);
                },
                Ok(None) => {
                    proof {
                        lemma_scan_step(cls, bpc, b, iter.index());
                        iter.lemma_inv(*fat);
                    }
                    return Ok(sub_files);
                },
                Ok(Some(entry)) => {
                    let ghost k = iter.index();
                    proof {
                        lemma_scan_step(cls, bpc, b, k);
                        let prev = entries_before(cls, bpc, b + 1);
                        let x = (entry.spec_name(), entry.spec_is_directory(), entry.spec_first_cluster(), entry.spec_file_size());
                        assert(prev.push(x).drop_last() =~= prev);
                    }
                    if !entry.is_directory() {
                        let name = entry.name().to_owned();
                        sub_files.push((name, FileMetadata::new(entry.file_size())));
                    }
                },
            }
        }
    }

    /// The names of the directories in the directory, in order, but for `.` and `..`.
    pub fn get_sub_directories<D: Device>(&self, fat: &mut FAT<D>) -> (r: Result<Vec<String>, Status>)
        requires
            self.readable(*old(fat)),
        ensures
            final(fat).same_layout(*old(fat)),
            final(fat).data_unchanged(*old(fat)),
            r is Ok ==> final(fat).wf() && final(fat).table() == old(fat).table(),
            r matches Ok(v) ==> v@.len() == directories_of(self.entries(*old(fat))).len() && forall|i: int|
                0 <= i < v@.len() ==> (#[trigger] v@[i])@ == directories_of(self.entries(*old(fat)))[i],
    {
        let ghost f0 = *fat;
        let ghost cls = self.content(f0);
        let ghost bpc = f0.spec_bytes_per_cluster() as int;
        let mut iter = match self.create_iterator(fat) {
            Ok(it) => it,
            Err(e) => {
                return Err(e);
            },
        };
        proof {
            fat.lemma_same_layout(f0);
            lemma_end_index(cls, bpc);
        }
        let dot = ".".to_owned();
        let dot_dot = "..".to_owned();
        proof {
            reveal_strlit(".");
            reveal_strlit("..");
            assert(dot@ =~= seq!['.']);
            assert(dot_dot@ =~= seq!['.', '.']);
        }
        let mut sub_directories: Vec<String> = Vec::new();
        loop
            invariant
                f0 == *old(fat),
                cls == self.content(f0),
                bpc == f0.spec_bytes_per_cluster(),
                bpc == fat.spec_bytes_per_cluster(),
                bpc > 0,
                dot@ == seq!['.'],
                dot_dot@ == seq!['.', '.'],
                listing_ok(cls, bpc),
                iter.inv(*fat),
                iter.clusters(*fat) == cls,
                iter.flushed(),
                fat.table() == f0.table(),
                fat.same_layout(f0),
                fat.data_unchanged(f0),
                boundary(cls, bpc, iter.index()),
                0 <= iter.index() < end_index(cls, bpc),
                sub_directories@.len() == directories_of(entries_before(cls, bpc, iter.index() + 1)).len(),
                forall|i: int|
                    0 <= i < sub_directories@.len() ==> (#[trigger] sub_directories@[i])@ == directories_of(
                        entries_before(cls, bpc, iter.index() + 1),
                    )[i],
            decreases end_index(cls, bpc) - iter.index(),
        {
            let ghost b = iter.index();
            let ghost f1 = *fat;
            proof {
                lemma_scan_stops(cls, bpc, b);
                lemma_stops_safe(cls, *fat, iter.chain(), b);
            }
            let step = iter.next(fat);
            proof {
                f1.lemma_same_layout(f0);
                fat.lemma_same_layout_refl_trans(f1, f0);
                if step is Ok {
                    fat.lemma_same_layout(f0);
                }
            }
            match step {
                Err(e) => {
                    return Err(e);
                },
                Ok(None) => {
                    proof {
                        lemma_scan_step(cls, bpc, b, iter.index());
                        iter.lemma_inv(*fat);
                    }
                    return Ok(sub_directories);
                },
                Ok(Some(entry)) => {
                    let ghost k = iter.index();
                    proof {
                        lemma_scan_step(cls, bpc, b, k);
                        let prev = entries_before(cls, bpc, b + 1);
                        let x = (entry.spec_name(), entry.spec_is_directory(), entry.spec_first_cluster(), entry.spec_file_size());
                        assert(prev.push(x).drop_last() =~= prev);
                    }
                    if entry.is_directory() {
                        let name = entry.name().to_owned();
                        if !(name == dot) && !(name == dot_dot) {
                            sub_directories.push(name);
                        }
                    }
                },
            }
        }
    }
    /// The file named `filename` in the directory. A directory of that name is refused.
    #[verifier::rlimit(40)]
    pub fn open_file<D: Device>(&self, fat: &mut FAT<D>, filename: &str) -> (r: Result<File, Status>)
        requires
            self.readable(*old(fat)),
        ensures
            final(fat).same_layout(*old(fat)),
            final(fat).data_unchanged(*old(fat)),
            r is Ok ==> final(fat).wf() && final(fat).table() == old(fat).table(),
            r matches Ok(x) ==> exists|j: int|
                first_named(self.entries(*old(fat)), filename@, j) && !self.entries(*old(fat))[j].1 && x.spec_first_cluster() == self.entries(*old(fat))[j].2 && x.spec_size() == self.entries(*old(fat))[j].3,
            (forall|j: int| 0 <= j < self.entries(*old(fat)).len() ==> self.entries(*old(fat))[j].0 != filename@) ==> r is Err,
            forall|j: int| first_named(self.entries(*old(fat)), filename@, j) && !(!self.entries(*old(fat))[j].1) ==> r is Err,
    {
        let ghost f0 = *fat;
        let ghost cls = self.content(f0);
        let ghost bpc = f0.spec_bytes_per_cluster() as int;
        let mut iter = match self.create_iterator(fat) {
            Ok(it) => it,
            Err(e) => {
                return Err(e);
            },
        };
        proof {
            fat.lemma_same_layout(f0);
            lemma_end_index(cls, bpc);
        }
        let wanted = filename.to_owned();
        loop
            invariant
                f0 == *old(fat),
                cls == self.content(f0),
                bpc == f0.spec_bytes_per_cluster(),
                bpc == fat.spec_bytes_per_cluster(),
                bpc > 0,
                wanted@ == filename@,
                listing_ok(cls, bpc),
                iter.inv(*fat),
                iter.clusters(*fat) == cls,
                iter.flushed(),
                fat.table() == f0.table(),
                fat.same_layout(f0),
                fat.data_unchanged(f0),
                boundary(cls, bpc, iter.index()),
                0 <= iter.index() < end_index(cls, bpc),
                forall|i: int|
                    0 <= i < entries_before(cls, bpc, iter.index() + 1).len() ==> (#[trigger] entries_before(
                        cls,
                        bpc,
                        iter.index() + 1,
                    )[i]).0 != filename@,
            decreases end_index(cls, bpc) - iter.index(),
        {
            let ghost b = iter.index();
            let ghost f1 = *fat;
            proof {
                lemma_scan_stops(cls, bpc, b);
                lemma_stops_safe(cls, *fat, iter.chain(), b);
            }
            let step = iter.next(fat);
            proof {
                f1.lemma_same_layout(f0);
                fat.lemma_same_layout_refl_trans(f1, f0);
                if step is Ok {
                    fat.lemma_same_layout(f0);
                    iter.lemma_inv(*fat);
                }
            }
            match step {
                Err(e) => {
                    return Err(e);
                },
                Ok(None) => {
                    proof {
                        lemma_scan_step(cls, bpc, b, iter.index());
                    }
                    return Err(Status::NoEntry);
                },
                Ok(Some(entry)) => {
                    let ghost k = iter.index();
                    let ghost prev = entries_before(cls, bpc, b + 1);
                    proof {
                        lemma_scan_step(cls, bpc, b, k);
                        lemma_entries_prefix(cls, bpc, k + 1, end_index(cls, bpc));
                        let es = listing(cls, bpc);
                        let j = prev.len() as int;
                        assert(es[j] == entries_before(cls, bpc, k + 1)[j]);
                        if entry.spec_name() == filename@ {
                            assert forall|i: int| 0 <= i < j implies es[i].0 != filename@ by {
                                assert(es[i] == entries_before(cls, bpc, k + 1)[i]);
                                assert(entries_before(cls, bpc, k + 1)[i] == prev[i]);
                            }
                            assert(first_named(es, filename@, j));
                            assert forall|j2: int| first_named(es, filename@, j2) implies j2 == j by {
                                if j2 > j {
                                    assert(es[j].0 == filename@);
                                }
                                if j2 < j {
                                    assert(es[j2].0 != filename@);
                                }
                            }
                            assert(exists|j2: int| 0 <= j2 < es.len() && es[j2].0 == filename@);
                        }
                    }
                    let name = entry.name().to_owned();
                    let found = name == wanted;
                    if found {
                        proof {
                            let es = listing(cls, bpc);
                            assert(es == self.entries(*old(fat)));
                            let j = prev.len() as int;
                            assert(entries_before(cls, bpc, k + 1)[j] == (
                                entry.spec_name(),
                                entry.spec_is_directory(),
                                entry.spec_first_cluster(),
                                entry.spec_file_size(),
                            ));
                            assert(es[j].1 == entry.spec_is_directory());
                            assert(es[j].2 == entry.spec_first_cluster());
                            assert(es[j].3 == entry.spec_file_size());
                            assert(first_named(self.entries(*old(fat)), wanted@, j));
                        }
                        return if entry.is_directory() {
                            Err(Status::IsDirectory)
                        } else {
                            Ok(File::new(entry.first_cluster(), entry.file_size()))
                        };
                    }
                    proof {
                        assert forall|i: int| 0 <= i < entries_before(cls, bpc, k + 1).len() implies (#[trigger] entries_before(
                            cls,
                            bpc,
                            k + 1,
                        )[i]).0 != filename@ by {
                            if i < prev.len() {
                                assert(entries_before(cls, bpc, k + 1)[i] == prev[i]);
                            }
                        }
                    }
                },
            }
        }
    }

    /// The directory named `directory_name` in the directory. A file of that name is refused.
    #[verifier::rlimit(40)]
    pub fn open_directory<D: Device>(&self, fat: &mut FAT<D>, directory_name: &str) -> (r: Result<Directory, Status>)
        requires
            self.readable(*old(fat)),
        ensures
            final(fat).same_layout(*old(fat)),
            final(fat).data_unchanged(*old(fat)),
            r is Ok ==> final(fat).wf() && final(fat).table() == old(fat).table(),
            r matches Ok(x) ==> exists|j: int|
                first_named(self.entries(*old(fat)), directory_name@, j) && self.entries(*old(fat))[j].1 && x.spec_first_cluster() == self.entries(*old(fat))[j].2,
            (forall|j: int| 0 <= j < self.entries(*old(fat)).len() ==> self.entries(*old(fat))[j].0 != directory_name@) ==> r is Err,
            forall|j: int| first_named(self.entries(*old(fat)), directory_name@, j) && !(self.entries(*old(fat))[j].1) ==> r is Err,
    {
        let ghost f0 = *fat;
        let ghost cls = self.content(f0);
        let ghost bpc = f0.spec_bytes_per_cluster() as int;
        let mut iter = match self.create_iterator(fat) {
            Ok(it) => it,
            Err(e) => {
                return Err(e);
            },
        };
        proof {
            fat.lemma_same_layout(f0);
            lemma_end_index(cls, bpc);
        }
        let wanted = directory_name.to_owned();
        loop
            invariant
                f0 == *old(fat),
                cls == self.content(f0),
                bpc == f0.spec_bytes_per_cluster(),
                bpc == fat.spec_bytes_per_cluster(),
                bpc > 0,
                wanted@ == directory_name@,
                listing_ok(cls, bpc),
                iter.inv(*fat),
                iter.clusters(*fat) == cls,
                iter.flushed(),
                fat.table() == f0.table(),
                fat.same_layout(f0),
                fat.data_unchanged(f0),
                boundary(cls, bpc, iter.index()),
                0 <= iter.index() < end_index(cls, bpc),
                forall|i: int|
                    0 <= i < entries_before(cls, bpc, iter.index() + 1).len() ==> (#[trigger] entries_before(
                        cls,
                        bpc,
                        iter.index() + 1,
                    )[i]).0 != directory_name@,
            decreases end_index(cls, bpc) - iter.index(),
        {
            let ghost b = iter.index();
            let ghost f1 = *fat;
            proof {
                lemma_scan_stops(cls, bpc, b);
                lemma_stops_safe(cls, *fat, iter.chain(), b);
            }
            let step = iter.next(fat);
            proof {
                f1.lemma_same_layout(f0);
                fat.lemma_same_layout_refl_trans(f1, f0);
                if step is Ok {
                    fat.lemma_same_layout(f0);
                    iter.lemma_inv(*fat);
                }
            }
            match step {
                Err(e) => {
                    return Err(e);
                },
                Ok(None) => {
                    proof {
                        lemma_scan_step(cls, bpc, b, iter.index());
                    }
                    return Err(Status::NoEntry);
                },
                Ok(Some(entry)) => {
                    let ghost k = iter.index();
                    let ghost prev = entries_before(cls, bpc, b + 1);
                    proof {
                        lemma_scan_step(cls, bpc, b, k);
                        lemma_entries_prefix(cls, bpc, k + 1, end_index(cls, bpc));
                        let es = listing(cls, bpc);
                        let j = prev.len() as int;
                        assert(es[j] == entries_before(cls, bpc, k + 1)[j]);
                        if entry.spec_name() == directory_name@ {
                            assert forall|i: int| 0 <= i < j implies es[i].0 != directory_name@ by {
                                assert(es[i] == entries_before(cls, bpc, k + 1)[i]);
                                assert(entries_before(cls, bpc, k + 1)[i] == prev[i]);
                            }
                            assert(first_named(es, directory_name@, j));
                            assert forall|j2: int| first_named(es, directory_name@, j2) implies j2 == j by {
                                if j2 > j {
                                    assert(es[j].0 == directory_name@);
                                }
                                if j2 < j {
                                    assert(es[j2].0 != directory_name@);
                                }
                            }
                            assert(exists|j2: int| 0 <= j2 < es.len() && es[j2].0 == directory_name@);
                        }
                    }
                    let name = entry.name().to_owned();
                    let found = name == wanted;
                    if found {
                        proof {
                            let es = listing(cls, bpc);
                            assert(es == self.entries(*old(fat)));
                            let j = prev.len() as int;
                            assert(entries_before(cls, bpc, k + 1)[j] == (
                                entry.spec_name(),
                                entry.spec_is_directory(),
                                entry.spec_first_cluster(),
                                entry.spec_file_size(),
                            ));
                            assert(es[j].1 == entry.spec_is_directory());
                            assert(es[j].2 == entry.spec_first_cluster());
                            assert(es[j].3 == entry.spec_file_size());
                            assert(first_named(self.entries(*old(fat)), wanted@, j));
                        }
                        return if !entry.is_directory() {
                            Err(Status::IsFile)
                        } else {
                            Ok(Directory::new(entry.first_cluster()))
                        };
                    }
                    proof {
                        assert forall|i: int| 0 <= i < entries_before(cls, bpc, k + 1).len() implies (#[trigger] entries_before(
                            cls,
                            bpc,
                            k + 1,
                        )[i]).0 != directory_name@ by {
                            if i < prev.len() {
                                assert(entries_before(cls, bpc, k + 1)[i] == prev[i]);
                            }
                        }
                    }
                },
            }
        }
    }
    /// Stores `new_metadata`'s size in the entry of the file named `filename`. A directory
    /// of that name is refused.
    #[verifier::rlimit(60)]
    pub fn update_file_metadata<D: Device>(&self, fat: &mut FAT<D>, filename: &str, new_metadata: FileMetadata) -> (r:
        Result<(), Status>)
        requires
            self.readable(*old(fat)),
        ensures
            final(fat).same_layout(*old(fat)),
            sectors_kept(*final(fat), *old(fat), chain(old(fat).table(), self.spec_first_cluster())),
            r is Ok ==> final(fat).wf() && final(fat).table() == old(fat).table(),
            r is Ok ==> exists|j: int|
                first_named(self.entries(*old(fat)), filename@, j) && !self.entries(*old(fat))[j].1 && self.content(
                    *final(fat),
                ) == with_record(
                    self.content(*old(fat)),
                    old(fat).spec_bytes_per_cluster() as int,
                    positions(self.content(*old(fat)), old(fat).spec_bytes_per_cluster() as int)[j],
                    with_metadata(
                        record(
                            self.content(*old(fat)),
                            old(fat).spec_bytes_per_cluster() as int,
                            positions(self.content(*old(fat)), old(fat).spec_bytes_per_cluster() as int)[j],
                        ),
                        self.entries(*old(fat))[j].2,
                        new_metadata.spec_size(),
                    ),
                ),
            (forall|j: int| 0 <= j < self.entries(*old(fat)).len() ==> self.entries(*old(fat))[j].0 != filename@)
                ==> r is Err,
            forall|j: int| first_named(self.entries(*old(fat)), filename@, j) && self.entries(*old(fat))[j].1 ==> r is Err,
    {
        let ghost f0 = *fat;
        let ghost cls = self.content(f0);
        let ghost bpc = f0.spec_bytes_per_cluster() as int;
        let ghost l0 = chain(f0.table(), self.spec_first_cluster());
        let mut iter = match self.create_iterator(fat) {
            Ok(it) => it,
            Err(e) => {
                proof {
                    assert(sectors_kept(*fat, f0, l0));
                }
                return Err(e);
            },
        };
        proof {
            fat.lemma_same_layout(f0);
            lemma_end_index(cls, bpc);
            assert(sectors_kept(*fat, f0, l0));
            assert(l0.take(l0.len() as int) =~= l0);
        }
        let wanted = filename.to_owned();
        loop
            invariant
                f0 == *old(fat),
                cls == self.content(f0),
                l0 == chain(f0.table(), self.spec_first_cluster()),
                l0.take(l0.len() as int) == l0,
                bpc == f0.spec_bytes_per_cluster(),
                bpc == fat.spec_bytes_per_cluster(),
                bpc > 0,
                wanted@ == filename@,
                listing_ok(cls, bpc),
                iter.inv(*fat),
                iter.chain() == l0,
                iter.clusters(*fat) == cls,
                iter.flushed(),
                fat.table() == f0.table(),
                fat.same_layout(f0),
                sectors_kept(*fat, f0, l0),
                boundary(cls, bpc, iter.index()),
                0 <= iter.index() < end_index(cls, bpc),
                forall|i: int|
                    0 <= i < entries_before(cls, bpc, iter.index() + 1).len() ==> (#[trigger] entries_before(
                        cls,
                        bpc,
                        iter.index() + 1,
                    )[i]).0 != filename@,
            decreases end_index(cls, bpc) - iter.index(),
        {
            let ghost b = iter.index();
            let ghost f1 = *fat;
            proof {
                lemma_scan_stops(cls, bpc, b);
                lemma_stops_safe(cls, *fat, iter.chain(), b);
            }
            let step = iter.next(fat);
            proof {
                f1.lemma_same_layout(f0);
                fat.lemma_same_layout_refl_trans(f1, f0);
                lemma_sectors_kept_trans(f0, f1, *fat, l0, l0);
                if step is Ok {
                    fat.lemma_same_layout(f0);
                    iter.lemma_inv(*fat);
                }
            }
            match step {
                Err(e) => {
                    return Err(e);
                },
                Ok(None) => {
                    proof {
                        lemma_scan_step(cls, bpc, b, iter.index());
                    }
                    return Err(Status::NoEntry);
                },
                Ok(Some(mut entry)) => {
                    let ghost k = iter.index();
                    let ghost prev = entries_before(cls, bpc, b + 1);
                    proof {
                        lemma_scan_step(cls, bpc, b, k);
                        lemma_entries_prefix(cls, bpc, k + 1, end_index(cls, bpc));
                        lemma_positions(cls, bpc, b + 1);
                        lemma_positions(cls, bpc, k + 1);
                        lemma_positions(cls, bpc, end_index(cls, bpc));
                        let es = listing(cls, bpc);
                        let j = prev.len() as int;
                        assert(es[j] == entries_before(cls, bpc, k + 1)[j]);
                        assert(positions(cls, bpc)[j] == positions_before(cls, bpc, k + 1)[j]);
                        if entry.spec_name() == filename@ {
                            assert forall|i: int| 0 <= i < j implies es[i].0 != filename@ by {
                                assert(es[i] == entries_before(cls, bpc, k + 1)[i]);
                                assert(entries_before(cls, bpc, k + 1)[i] == prev[i]);
                            }
                            assert(first_named(es, filename@, j));
                            assert forall|j2: int| first_named(es, filename@, j2) implies j2 == j by {
                                if j2 > j {
                                    assert(es[j].0 == filename@);
                                }
                                if j2 < j {
                                    assert(es[j2].0 != filename@);
                                }
                            }
                            assert(exists|j2: int| 0 <= j2 < es.len() && es[j2].0 == filename@);
                        }
                    }
                    let name = entry.name().to_owned();
                    let found = name == wanted;
                    if found {
                        proof {
                            let es = listing(cls, bpc);
                            assert(es == self.entries(*old(fat)));
                            let j = prev.len() as int;
                            assert(entries_before(cls, bpc, k + 1)[j] == (
                                entry.spec_name(),
                                entry.spec_is_directory(),
                                entry.spec_first_cluster(),
                                entry.spec_file_size(),
                            ));
                            assert(first_named(self.entries(*old(fat)), wanted@, j));
                        }
                        if entry.is_directory() {
                            return Err(Status::IsDirectory);
                        }
                        entry.set_file_size(new_metadata.size());
                        let ghost f2 = *fat;
                        match iter.write_metadata(fat, entry) {
                            Ok(()) => {},
                            Err(e) => {
                                proof {
                                    lemma_sectors_kept_trans(f0, f2, *fat, l0, l0);
                                }
                                return Err(e);
                            },
                        }
                        let ghost f3 = *fat;
                        let r = iter.flush_buffer(fat);
                        proof {
                            f3.lemma_same_layout(f2);
                            lemma_sectors_kept_trans(f0, f2, f3, l0, l0);
                            f3.lemma_same_layout_refl_trans(f2, f0);
                            lemma_sectors_kept_trans(f0, f3, *fat, l0, l0);
                        }
                        match r {
                            Ok(()) => {},
                            Err(e) => {
                                return Err(e);
                            },
                        }
                        proof {
                            iter.lemma_inv(*fat);
                            fat.lemma_same_layout(f3);
                            fat.lemma_same_layout_refl_trans(f3, f0);
                            fat.lemma_same_layout(f0);
                            let j = prev.len() as int;
                            assert(self.content(*fat) == iter.clusters(*fat));
                            assert(first_named(self.entries(*old(fat)), filename@, j));
                        }
                        return Ok(());
                    }
                    proof {
                        assert forall|i: int| 0 <= i < entries_before(cls, bpc, k + 1).len() implies (#[trigger] entries_before(
                            cls,
                            bpc,
                            k + 1,
                        )[i]).0 != filename@ by {
                            if i < prev.len() {
                                assert(entries_before(cls, bpc, k + 1)[i] == prev[i]);
                            }
                        }
                    }
                },
            }
        }
    }
    /// The directory's chain can grow and be written: the volume can hold growing chains
    /// and its bytes can be counted in a `usize`, and the directory's chain ends and holds
    /// data clusters.
    pub open spec fn writable<D: Device>(&self, fat: FAT<D>) -> bool {
        &&& fat.wf()
        &&& fat.volume_ok()
        &&& data_chain(fat.table(), self.spec_first_cluster())
        &&& fat.top() * fat.spec_bytes_per_cluster() + 32 <= usize::MAX
    }

    /// Over `fa`, the directory holds what it held over `fb` and an entry stored in the
    /// records `recs`: from the record after the first, the first run of free records long
    /// enough for them was found, the chain growing by the clusters that the allocation
    /// policy takes from table `t` searching from `start`, and the records were written
    /// backwards from the run's end.
    pub open spec fn stored_entry<D: Device>(
        &self,
        fb: FAT<D>,
        fa: FAT<D>,
        t: Map<u32, u32>,
        start: u32,
        recs: Seq<Seq<u8>>,
    ) -> bool {
        let first = self.spec_first_cluster();
        let l0 = chain(fb.table(), first);
        let l1 = chain(fa.table(), first);
        let news = l1.skip(l0.len() as int);
        let bpc = fb.spec_bytes_per_cluster() as int;
        let n = recs.len() as int;
        let grown = grown_clusters(self.content(fb), fb, news);
        &&& chain_in_table(fa.table(), first)
        &&& l1 == l0 + news
        &&& allocated(t, start, fb.top(), l0.last(), news)
        &&& fa.table() == extended(t, l0.last(), news)
        &&& exists|k: int|
            #[trigger] free_run(grown, bpc, k, n) && k >= n && (forall|k2: int|
                n <= k2 < k ==> !free_run(grown, bpc, k2, n)) && self.content(fa) == written(grown, bpc, k, recs)
    }

    /// Over `fa`, the directory holds what it held over `fb` and the entry named `name`, a
    /// directory or not, of size 0, whose data starts at cluster `c`, taken from the table
    /// before: its records were stored as `stored_entry` says, the allocation searching
    /// from `c` in the table where `c` ends a chain.
    pub open spec fn entry_stored<D: Device>(&self, fb: FAT<D>, fa: FAT<D>, c: u32, name: Seq<char>, directory: bool) -> bool {
        exists|d: DiskDirectoryEntry, longs: Seq<LongDirectoryEntry>|
            records_store(name, directory, c, 0, d, longs) && #[trigger] self.stored_entry(
                fb,
                fa,
                fb.table().insert(c, END_OF_CHAIN),
                c,
                entry_records(d, longs),
            )
    }

    /// What taking cluster `c` from the table keeps of the directory and the volume.
    proof fn lemma_allocation_kept<D: Device>(&self, f0: FAT<D>, f1: FAT<D>, c: u32)
        requires
            self.writable(f0),
            first_free(f0.table(), f0.search_start() as int, f0.top() as int) == Some(c),
            f1.wf(),
            f1.same_layout(f0),
            f1.data_unchanged(f0),
            f1.spec_next_free_cluster() == c,
            f1.table() == f0.table().insert(c, END_OF_CHAIN),
        ensures
            self.writable(f1),
            2 <= c < f0.top(),
            f0.table()[c] == 0,
            f1.search_start() == c,
            chain(f1.table(), self.spec_first_cluster()) == chain(f0.table(), self.spec_first_cluster()),
            self.content(f1) == self.content(f0),
            forall|x: u32| x >= 2 ==> #[trigger] f1.cluster_data(x) == f0.cluster_data(x),
    {
        lemma_first_free(f0.table(), f0.search_start() as int, f0.top() as int);
        f0.lemma_table_domain();
        f1.lemma_same_layout(f0);
        f1.lemma_search_start();
        f1.lemma_volume_ok_kept(f0);
        assert forall|a: int|
            a >= f0.spec_first_data_sector() && a != f0.sector_of_cluster(c) implies #[trigger] f1.spec_drive().block(a)
            == f0.spec_drive().block(a) by {
        }
        lemma_directory_kept(*self, f0, f1, c);
        assert forall|x: u32| x >= 2 implies #[trigger] f1.cluster_data(x) == f0.cluster_data(x) by {
            f0.lemma_data_sector(x);
        }
    }

    /// Stores `entry` in the directory, from the record after the first on, and writes the
    /// directory back.
    #[verifier::rlimit(60)]
    fn store_entry<D: Device>(&self, fat: &mut FAT<D>, entry: DirectoryEntry) -> (r: Result<(), Status>)
        requires
            self.writable(*old(fat)),
            entry.spec_is_directory() || entry.spec_name().len() < 3315,
        ensures
            kept_with_growth(*final(fat), *old(fat), chain(old(fat).table(), self.spec_first_cluster())),
            final(fat).same_layout(*old(fat)),
            entry.spec_is_directory() && utf8_len(entry.spec_name()) > 11 ==> r is Err,
            r is Ok ==> final(fat).wf(),
            r is Ok ==> sectors_kept(*final(fat), *old(fat), chain(final(fat).table(), self.spec_first_cluster())),
            r is Ok ==> exists|d: DiskDirectoryEntry, longs: Seq<LongDirectoryEntry>|
                records_store(
                    entry.spec_name(),
                    entry.spec_is_directory(),
                    entry.spec_first_cluster(),
                    entry.spec_file_size(),
                    d,
                    longs,
                ) && #[trigger] self.stored_entry(
                    *old(fat),
                    *final(fat),
                    old(fat).table(),
                    old(fat).search_start(),
                    entry_records(d, longs),
                ),
    {
        let ghost f0 = *fat;
        let ghost spec_entry = entry;
        let ghost l0 = chain(f0.table(), self.spec_first_cluster());
        let mut iter = match self.create_iterator(fat) {
            Ok(it) => it,
            Err(e) => {
                proof {
                    lemma_kept_from_unchanged(f0, *fat, l0);
                }
                return Err(e);
            },
        };
        let ghost f1 = *fat;
        let ghost it1 = iter;
        match iter.create(fat, entry) {
            Ok(()) => {},
            Err(e) => {
                proof {
                    lemma_kept_after_unchanged(f0, f1, *fat, l0);
                }
                return Err(e);
            },
        }
        let ghost f2 = *fat;
        let ghost it2 = iter;
        proof {
            assert(it2.chain() == l0 + it2.chain().skip(l0.len() as int));
        }
        let r = iter.flush_buffer(fat);
        proof {
            let news = it2.chain().skip(l0.len() as int);
            lemma_kept_with_growth_step(f1, f2, *fat, l0, news);
            lemma_kept_after_unchanged(f0, f1, *fat, l0);
        }
        match r {
            Ok(()) => {},
            Err(e) => {
                return Err(e);
            },
        }
        proof {
            f1.lemma_same_layout(f0);
            f2.lemma_same_layout(f1);
            fat.lemma_same_layout(f2);
            fat.lemma_same_layout_refl_trans(f2, f1);
            fat.lemma_same_layout_refl_trans(f1, f0);
            iter.lemma_inv(*fat);
            it1.lemma_inv(f1);
            let first = self.spec_first_cluster();
            let (d, longs) = choose|d: DiskDirectoryEntry, longs: Seq<LongDirectoryEntry>|
                #[trigger] spec_entry.stored_as(d, longs) && created(it1, f1, it2, f2, entry_records(d, longs));
            let recs = entry_records(d, longs);
            assert(created(it1, f1, it2, f2, recs));
            let l0 = chain(f0.table(), first);
            let news = it2.chain().skip(l0.len() as int);
            lemma_is_chain_unique(fat.table(), iter.chain());
            assert(iter.chain()[0] == first) by {
                assert(it2.chain() == l0 + news);
                lemma_chain_step(f0.table(), first);
            }
            assert(chain(fat.table(), first) == iter.chain());
            let bpc = f0.spec_bytes_per_cluster() as int;
            assert(grown_clusters(it1.clusters(f1), f1, news) =~= grown_clusters(self.content(f0), f0, news)) by {
                assert forall|m: int| 0 <= m < news.len() implies #[trigger] f1.cluster_data(news[m]) == f0.cluster_data(
                    news[m],
                ) by {
                    assert(news[m] == it2.chain()[l0.len() + m]);
                    f0.lemma_data_sector(news[m]);
                }
            }
            let k = it2.index() + recs.len() - 1;
            assert(self.content(*fat) == iter.clusters(*fat));
            assert(free_run(grown_clusters(self.content(f0), f0, news), bpc, k, recs.len() as int));
            assert(self.stored_entry(f0, *fat, f0.table(), f0.search_start(), recs));
            let l2 = iter.chain();
            assert(sectors_kept(f1, f0, it1.chain()));
            assert(it1.chain().len() <= l2.len() && l2.take(it1.chain().len() as int) =~= it1.chain());
            lemma_sectors_kept_trans(f0, f1, f2, it1.chain(), l2);
            assert(l2.take(l2.len() as int) =~= l2);
            f2.lemma_same_layout_refl_trans(f1, f0);
            lemma_sectors_kept_trans(f0, f2, *fat, l2, l2);
        }
        Ok(())
    }

    /// Taking cluster `c` and storing an entry that starts there gives `entry_stored`.
    proof fn lemma_entry_stored<D: Device>(
        &self,
        f0: FAT<D>,
        f1: FAT<D>,
        fa: FAT<D>,
        c: u32,
        name: Seq<char>,
        directory: bool,
    )
        requires
            self.writable(f0),
            self.writable(f1),
            f1.same_layout(f0),
            f0.table()[c] == 0,
            2 <= c,
            f1.table() == f0.table().insert(c, END_OF_CHAIN),
            f1.search_start() == c,
            chain(f1.table(), self.spec_first_cluster()) == chain(f0.table(), self.spec_first_cluster()),
            self.content(f1) == self.content(f0),
            forall|x: u32| x >= 2 && x != c ==> #[trigger] f1.cluster_data(x) == f0.cluster_data(x),
            exists|d: DiskDirectoryEntry, longs: Seq<LongDirectoryEntry>|
                records_store(name, directory, c, 0, d, longs) && #[trigger] self.stored_entry(
                    f1,
                    fa,
                    f1.table(),
                    f1.search_start(),
                    entry_records(d, longs),
                ),
        ensures
            self.entry_stored(f0, fa, c, name, directory),
    {
        let (d, longs) = choose|d: DiskDirectoryEntry, longs: Seq<LongDirectoryEntry>|
            records_store(name, directory, c, 0, d, longs) && #[trigger] self.stored_entry(
                f1,
                fa,
                f1.table(),
                f1.search_start(),
                entry_records(d, longs),
            );
        let recs = entry_records(d, longs);
        let first = self.spec_first_cluster();
        let l0 = chain(f0.table(), first);
        let l1 = chain(fa.table(), first);
        let news = l1.skip(l0.len() as int);
        f1.lemma_same_layout(f0);
        lemma_allocated_above(f1.table(), c, f1.top(), l0.last(), news);
        assert(grown_clusters(self.content(f1), f1, news) =~= grown_clusters(self.content(f0), f0, news)) by {
            assert forall|m: int| 0 <= m < news.len() implies #[trigger] f1.cluster_data(news[m]) == f0.cluster_data(
                news[m],
            ) by {
                assert(news[m] > c);
            }
        }
        assert(self.stored_entry(f0, fa, f0.table().insert(c, END_OF_CHAIN), c, recs));
    }

    /// Creates an empty file named `filename` in the directory: a free cluster is taken
    /// for its data, and its entry, of size 0, is stored in the directory.
    #[verifier::rlimit(60)]
    pub fn make_file<D: Device>(&self, fat: &mut FAT<D>, filename: &str) -> (r: Result<(), Status>)
        requires
            self.writable(*old(fat)),
            filename@.len() < 3315,
        ensures
            kept_after_taking(*final(fat), *old(fat), chain(old(fat).table(), self.spec_first_cluster()), false),
            final(fat).same_layout(*old(fat)),
            r is Ok ==> final(fat).wf(),
            first_free(old(fat).table(), old(fat).search_start() as int, old(fat).top() as int) is None ==> r is Err,
            r is Ok ==> exists|c: u32|
                first_free(old(fat).table(), old(fat).search_start() as int, old(fat).top() as int) == Some(c)
                    && #[trigger] self.entry_stored(*old(fat), *final(fat), c, filename@, false),
    {
        let ghost f0 = *fat;
        let ghost l0 = chain(f0.table(), self.spec_first_cluster());
        let first_cluster = match fat.allocate_cluster() {
            Ok(c) => c,
            Err(e) => {
                proof {
                    lemma_taking_unchanged(f0, *fat, l0, false);
                }
                return Err(e);
            },
        };
        let ghost f1 = *fat;
        proof {
            self.lemma_allocation_kept(f0, f1, first_cluster);
            assert(sectors_kept(f1, f0, Seq::<u32>::empty()));
        }
        let entry = DirectoryEntry::new(filename.to_owned(), false, first_cluster, 0);
        let r = self.store_entry(fat, entry);
        proof {
            lemma_taking_after(f0, f1, *fat, l0, first_cluster, false);
            if r is Ok {
                self.lemma_entry_stored(f0, f1, *fat, first_cluster, filename@, false);
                fat.lemma_same_layout_refl_trans(f1, f0);
            }
        }
        r
    }
    /// Creates an empty directory named `directory_name` in the directory: a free cluster
    /// is taken for its data and given its `.` and `..` records, and its entry is stored in
    /// the directory. A name of more than 11 bytes is refused, once the cluster has been
    /// taken and written.
    #[verifier::rlimit(60)]
    pub fn make_directory<D: Device>(&self, fat: &mut FAT<D>, directory_name: &str) -> (r: Result<(), Status>)
        requires
            self.writable(*old(fat)),
            old(fat).spec_bytes_per_cluster() >= 64,
        ensures
            kept_after_taking(*final(fat), *old(fat), chain(old(fat).table(), self.spec_first_cluster()), true),
            final(fat).same_layout(*old(fat)),
            r is Ok ==> final(fat).wf(),
            first_free(old(fat).table(), old(fat).search_start() as int, old(fat).top() as int) is None ==> r is Err,
            utf8_len(directory_name@) > 11 ==> r is Err,
            r is Ok ==> exists|c: u32|
                first_free(old(fat).table(), old(fat).search_start() as int, old(fat).top() as int) == Some(c)
                    && #[trigger] self.entry_stored(*old(fat), *final(fat), c, directory_name@, true)
                    && final(fat).cluster_data(c) == empty_directory(
                    c,
                    self.spec_first_cluster(),
                    old(fat).spec_bytes_per_cluster() as int,
                ),
    {
        let ghost f0 = *fat;
        let ghost l0 = chain(f0.table(), self.spec_first_cluster());
        let first_cluster = match fat.allocate_cluster() {
            Ok(c) => c,
            Err(e) => {
                proof {
                    lemma_taking_unchanged(f0, *fat, l0, true);
                }
                return Err(e);
            },
        };
        let ghost f1 = *fat;
        proof {
            self.lemma_allocation_kept(f0, f1, first_cluster);
            f1.lemma_same_layout(f0);
        }
        let bytes_per_cluster = fat.bytes_per_cluster();
        proof {
            assert(f1.cluster_ok(first_cluster));
        }
        let buffer = empty_directory_cluster(first_cluster, self.first_cluster, bytes_per_cluster);
        match fat.write_cluster(first_cluster, &buffer) {
            Ok(()) => {},
            Err(e) => {
                proof {
                    fat.lemma_search_start();
                    f1.lemma_search_start();
                    fat.lemma_same_layout(f1);
                    assert(sectors_kept(*fat, f0, seq![first_cluster])) by {
                        assert forall|a: int|
                            a >= f0.spec_first_data_sector() && (forall|k: int|
                                0 <= k < seq![first_cluster].len() ==> a != f0.sector_of_cluster(
                                    #[trigger] seq![first_cluster][k],
                                )) implies #[trigger] fat.spec_drive().block(a) == f0.spec_drive().block(a) by {
                            assert(a != f0.sector_of_cluster(seq![first_cluster][0]));
                            assert(f1.spec_drive().block(a) == f0.spec_drive().block(a));
                        }
                    }
                    lemma_kept_with_growth_refl(*fat, l0);
                    lemma_taking_after(f0, *fat, *fat, l0, first_cluster, true);
                }
                return Err(e);
            },
        }
        let ghost f2 = *fat;
        proof {
            f2.lemma_same_layout(f1);
            f2.lemma_same_layout_refl_trans(f1, f0);
            f2.lemma_search_start();
            f1.lemma_search_start();
            assert forall|c: u32| 2 <= c < f2.top() implies #[trigger] f2.cluster_ok(c) by {
                assert(f1.cluster_ok(c));
            }
            f0.lemma_table_domain();
            lemma_first_free(f0.table(), f0.search_start() as int, f0.top() as int);
            assert forall|a: int|
                a >= f0.spec_first_data_sector() && a != f0.sector_of_cluster(first_cluster) implies #[trigger] f2.spec_drive().block(
                a,
            ) == f0.spec_drive().block(a) by {
                assert(f1.spec_drive().block(a) == f0.spec_drive().block(a));
            }
            lemma_directory_kept(*self, f0, f2, first_cluster);
        }
        proof {
            assert(sectors_kept(f2, f0, seq![first_cluster])) by {
                assert forall|a: int|
                    a >= f0.spec_first_data_sector() && (forall|k: int|
                        0 <= k < seq![first_cluster].len() ==> a != f0.sector_of_cluster(#[trigger] seq![first_cluster][k]))
                        implies #[trigger] f2.spec_drive().block(a) == f0.spec_drive().block(a) by {
                    assert(a != f0.sector_of_cluster(seq![first_cluster][0]));
                }
            }
        }
        let entry = DirectoryEntry::new(directory_name.to_owned(), true, first_cluster, 0);
        let r = self.store_entry(fat, entry);
        proof {
            lemma_taking_after(f0, f2, *fat, l0, first_cluster, true);
            if r is Ok {
                self.lemma_entry_stored(f0, f2, *fat, first_cluster, directory_name@, true);
                fat.lemma_same_layout_refl_trans(f2, f0);
                let first = self.spec_first_cluster();
                let l0 = chain(f0.table(), first);
                let l1 = chain(fat.table(), first);
                let news = l1.skip(l0.len() as int);
                let c = first_cluster;
                assert(self.entry_stored(f0, *fat, c, directory_name@, true));
                let (d, longs) = choose|d: DiskDirectoryEntry, longs: Seq<LongDirectoryEntry>|
                    records_store(directory_name@, true, c, 0, d, longs) && #[trigger] self.stored_entry(
                        f0,
                        *fat,
                        f0.table().insert(c, END_OF_CHAIN),
                        c,
                        entry_records(d, longs),
                    );
                lemma_allocated_above(f0.table().insert(c, END_OF_CHAIN), c, f0.top(), l0.last(), news);
                lemma_chain_is_chain(f0.table(), first);
                assert forall|i: int| 0 <= i < l0.len() implies l0[i] != c by {
                    if i < l0.len() - 1 {
                        assert(state_of(f0.table()[l0[i]]) == ClusterState::Next(l0[i + 1]));
                    }
                }
                f2.lemma_sectors_per_cluster();
                f0.lemma_data_sector(c);
                assert forall|k: int| 0 <= k < l1.len() implies f2.sector_of_cluster(c) != f2.sector_of_cluster(
                    #[trigger] l1[k],
                ) by {
                    if k < l0.len() {
                        assert(l1[k] == l0[k]);
                    } else {
                        assert(l1[k] == news[k - l0.len()]);
                    }
                    assert(l1[k] != c);
                    f2.lemma_sector_injective(c, l1[k]);
                }
                fat.lemma_same_layout(f2);
                assert(f2.sector_of_cluster(c) >= f2.spec_first_data_sector());
                assert(fat.spec_drive().block(f2.sector_of_cluster(c)) == f2.spec_drive().block(f2.sector_of_cluster(c)));
                assert(fat.cluster_data(c) == f2.cluster_data(c));
            }
        }
        r
    }
    /// Entry `j` of the directory can be removed: its chain ends, holds data clusters and
    /// shares none with the directory's, and the walk back over the long name records
    /// before its record never needs a record before the first.
    pub open spec fn removable<D: Device>(&self, fat: FAT<D>, j: int) -> bool {
        let es = self.entries(fat);
        let t = fat.table();
        let c = es[j].2;
        let bpc = fat.spec_bytes_per_cluster() as int;
        &&& chain_in_table(t, c)
        &&& forall|i: int| 0 <= i < chain(t, c).len() ==> 2 <= #[trigger] chain(t, c)[i]
        &&& forall|i: int|
            0 <= i < chain(t, c).len() ==> !chain(t, self.spec_first_cluster()).contains(#[trigger] chain(t, c)[i])
        &&& walk_ok(self.content(fat), bpc, positions(self.content(fat), bpc)[j] - 1, 1)
    }

    /// Over `fa`, the directory is what it was over `fb` with the entry stored at record `k`
    /// removed, after the chain of `c` was freed: the record after it was read, the chain
    /// growing by a free cluster if it lies past it; and the entry's record and the long
    /// name records before it that the walk back clears hold the removal mark.
    pub open spec fn entry_removed<D: Device>(&self, fb: FAT<D>, fa: FAT<D>, c: u32, k: int) -> bool {
        let first = self.spec_first_cluster();
        let t = with_value(fb.table(), chain(fb.table(), c), 0);
        let l0 = chain(fb.table(), first);
        let l1 = chain(fa.table(), first);
        let news = l1.skip(l0.len() as int);
        let bpc = fb.spec_bytes_per_cluster() as int;
        let grown = grown_clusters(self.content(fb), fb, news);
        let mark = removal_mark(record(grown, bpc, k + 1));
        let n = lfn_cleared(grown, bpc, k - 1, 1);
        &&& chain_in_table(fa.table(), first)
        &&& l1 == l0 + news
        &&& news.len() <= 1
        &&& exists|start: u32| #[trigger] allocated(t, start, fb.top(), l0.last(), news)
        &&& fa.table() == extended(t, l0.last(), news)
        &&& self.content(fa) == written(grown, bpc, k, Seq::new((n + 1) as nat, |i: int| mark))
    }

    /// Removes the entry named `name`, a directory if `directory` holds and a file if not:
    /// its chain is freed and its records are marked removed. An entry of that name of the
    /// other kind is refused.
    #[verifier::rlimit(100)]
    fn remove<D: Device>(&self, fat: &mut FAT<D>, name: &str, directory: bool) -> (r: Result<(), Status>)
        requires
            self.readable(*old(fat)),
            forall|j: int|
                first_named(self.entries(*old(fat)), name@, j) && self.entries(*old(fat))[j].1 == directory
                    ==> self.removable(*old(fat), j),
        ensures
            sectors_kept(*final(fat), *old(fat), chain(old(fat).table(), self.spec_first_cluster())),
            final(fat).same_layout(*old(fat)),
            r is Ok ==> final(fat).wf(),
            r is Ok ==> exists|j: int|
                first_named(self.entries(*old(fat)), name@, j) && self.entries(*old(fat))[j].1 == directory
                    && #[trigger] self.entry_removed(
                    *old(fat),
                    *final(fat),
                    self.entries(*old(fat))[j].2,
                    positions(self.content(*old(fat)), old(fat).spec_bytes_per_cluster() as int)[j],
                ),
            (forall|j: int| 0 <= j < self.entries(*old(fat)).len() ==> self.entries(*old(fat))[j].0 != name@) ==> r is Err,
            forall|j: int|
                first_named(self.entries(*old(fat)), name@, j) && self.entries(*old(fat))[j].1 != directory ==> r is Err,
    {
        let ghost f0 = *fat;
        let ghost cls = self.content(f0);
        let ghost bpc = f0.spec_bytes_per_cluster() as int;
        let ghost l0 = chain(f0.table(), self.spec_first_cluster());
        let mut iter = match self.create_iterator(fat) {
            Ok(it) => it,
            Err(e) => {
                return Err(e);
            },
        };
        proof {
            fat.lemma_same_layout(f0);
            lemma_end_index(cls, bpc);
        }
        let wanted = name.to_owned();
        loop
            invariant
                f0 == *old(fat),
                cls == self.content(f0),
                l0 == chain(f0.table(), self.spec_first_cluster()),
                bpc == f0.spec_bytes_per_cluster(),
                bpc == fat.spec_bytes_per_cluster(),
                bpc > 0,
                wanted@ == name@,
                listing_ok(cls, bpc),
                data_chain(f0.table(), self.spec_first_cluster()),
                forall|j: int|
                    first_named(self.entries(f0), name@, j) && self.entries(f0)[j].1 == directory ==> self.removable(
                        f0,
                        j,
                    ),
                iter.inv(*fat),
                iter.chain() == l0,
                iter.clusters(*fat) == cls,
                iter.flushed(),
                fat.table() == f0.table(),
                fat.search_start() == f0.search_start(),
                fat.same_layout(f0),
                fat.data_unchanged(f0),
                boundary(cls, bpc, iter.index()),
                0 <= iter.index() < end_index(cls, bpc),
                forall|i: int|
                    0 <= i < entries_before(cls, bpc, iter.index() + 1).len() ==> (#[trigger] entries_before(
                        cls,
                        bpc,
                        iter.index() + 1,
                    )[i]).0 != name@,
            decreases end_index(cls, bpc) - iter.index(),
        {
            let ghost b = iter.index();
            let ghost f1 = *fat;
            proof {
                lemma_scan_stops(cls, bpc, b);
                lemma_stops_safe(cls, *fat, iter.chain(), b);
            }
            let step = iter.next(fat);
            proof {
                f1.lemma_same_layout(f0);
                fat.lemma_same_layout_refl_trans(f1, f0);
                if step is Ok {
                    fat.lemma_same_layout(f0);
                    iter.lemma_inv(*fat);
                }
            }
            match step {
                Err(e) => {
                    return Err(e);
                },
                Ok(None) => {
                    proof {
                        lemma_scan_step(cls, bpc, b, iter.index());
                    }
                    return Err(Status::NoEntry);
                },
                Ok(Some(entry)) => {
                    let ghost k = iter.index();
                    let ghost prev = entries_before(cls, bpc, b + 1);
                    proof {
                        lemma_scan_step(cls, bpc, b, k);
                        lemma_entries_prefix(cls, bpc, k + 1, end_index(cls, bpc));
                        lemma_positions(cls, bpc, b + 1);
                        lemma_positions(cls, bpc, k + 1);
                        lemma_positions(cls, bpc, end_index(cls, bpc));
                        let es = listing(cls, bpc);
                        let j = prev.len() as int;
                        assert(es[j] == entries_before(cls, bpc, k + 1)[j]);
                        assert(positions(cls, bpc)[j] == positions_before(cls, bpc, k + 1)[j]);
                        if entry.spec_name() == name@ {
                            assert forall|i: int| 0 <= i < j implies es[i].0 != name@ by {
                                assert(es[i] == entries_before(cls, bpc, k + 1)[i]);
                                assert(entries_before(cls, bpc, k + 1)[i] == prev[i]);
                            }
                            assert(first_named(es, name@, j));
                            assert forall|j2: int| first_named(es, name@, j2) implies j2 == j by {
                                if j2 > j {
                                    assert(es[j].0 == name@);
                                }
                                if j2 < j {
                                    assert(es[j2].0 != name@);
                                }
                            }
                            assert(exists|j2: int| 0 <= j2 < es.len() && es[j2].0 == name@);
                        }
                    }
                    let entry_name = entry.name().to_owned();
                    let found = entry_name == wanted;
                    if found {
                        let ghost j = prev.len() as int;
                        proof {
                            let es = listing(cls, bpc);
                            assert(es == self.entries(*old(fat)));
                            assert(entries_before(cls, bpc, k + 1)[j] == (
                                entry.spec_name(),
                                entry.spec_is_directory(),
                                entry.spec_first_cluster(),
                                entry.spec_file_size(),
                            ));
                            assert(first_named(self.entries(*old(fat)), wanted@, j));
                        }
                        if entry.is_directory() != directory {
                            return if directory {
                                Err(Status::IsFile)
                            } else {
                                Err(Status::IsDirectory)
                            };
                        }
                        let ghost f2 = *fat;
                        let ghost c = entry.spec_first_cluster();
                        proof {
                            assert(self.removable(f0, j));
                            assert(f2.table() == f0.table());
                        }
                        match fat.free_cluster_chain(entry.first_cluster()) {
                            Ok(()) => {},
                            Err(e) => {
                                return Err(e);
                            },
                        }
                        let ghost f3 = *fat;
                        proof {
                            let t0 = f0.table();
                            let ce = chain(t0, c);
                            f3.lemma_same_layout(f2);
                            f3.lemma_same_layout_refl_trans(f2, f0);
                            f3.lemma_same_layout(f0);
                            f3.lemma_search_start();
                            f2.lemma_search_start();
                            f3.lemma_volume_ok_kept(f2);
                            assert forall|x: u32| #[trigger] f3.table().contains_key(x) == f2.table().contains_key(x) by {
                            }
                            assert forall|kk: int| 0 <= kk < iter.chain().len() implies f3.table()[#[trigger] iter.chain()[kk]]
                                == f2.table()[iter.chain()[kk]] by {
                                assert(!ce.contains(iter.chain()[kk])) by {
                                    if ce.contains(iter.chain()[kk]) {
                                        let ii = choose|ii: int| 0 <= ii < ce.len() && ce[ii] == iter.chain()[kk];
                                        assert(l0.contains(ce[ii]));
                                    }
                                }
                            }
                            iter.lemma_inv_kept(f2, f3);
                            assert(in_clusters(cls, bpc, k));
                        }
                        proof {
                            lemma_end_index(cls, bpc);
                            lemma_in_clusters_before(cls, bpc, end_index(cls, bpc), k + 1);
                            assert(l0.take(l0.len() as int) =~= l0);
                            f3.lemma_same_layout_refl_trans(f2, f0);
                            assert(sectors_kept(f3, f0, l0));
                        }
                        match iter.remove(fat) {
                            Ok(()) => {},
                            Err(e) => {
                                proof {
                                    lemma_sectors_kept_trans(f0, f3, *fat, l0, l0);
                                }
                                return Err(e);
                            },
                        }
                        let ghost f4 = *fat;
                        let ghost it4 = iter;
                        proof {
                            lemma_sectors_kept_trans(f0, f3, f4, l0, l0);
                        }
                        match iter.flush_buffer(fat) {
                            Ok(()) => {},
                            Err(e) => {
                                proof {
                                    lemma_sectors_kept_trans(f0, f4, *fat, l0, l0);
                                }
                                return Err(e);
                            },
                        }
                        proof {
                            fat.lemma_same_layout(f4);
                            f4.lemma_same_layout(f3);
                            fat.lemma_same_layout_refl_trans(f4, f3);
                            fat.lemma_same_layout_refl_trans(f3, f0);
                            iter.lemma_inv(*fat);
                            let first = self.spec_first_cluster();
                            lemma_is_chain_unique(fat.table(), iter.chain());
                            assert(iter.chain()[0] == first) by {
                                lemma_chain_step(f0.table(), first);
                            }
                            let news = iter.chain().skip(l0.len() as int);
                            assert(grown_clusters(cls, f3, news) =~= grown_clusters(self.content(f0), f0, news)) by {
                                assert forall|m: int| 0 <= m < news.len() implies #[trigger] f3.cluster_data(news[m])
                                    == f0.cluster_data(news[m]) by {
                                    assert(news[m] == iter.chain()[l0.len() + m]);
                                    f0.lemma_data_sector(news[m]);
                                }
                            }
                            assert(self.content(*fat) == iter.clusters(*fat));
                            assert(allocated(f3.table(), f3.search_start(), f3.top(), l0.last(), news));
                            assert(self.entry_removed(f0, *fat, c, positions(cls, bpc)[j]));
                        }
                        return Ok(());
                    }
                    proof {
                        assert forall|i: int| 0 <= i < entries_before(cls, bpc, k + 1).len() implies (#[trigger] entries_before(
                            cls,
                            bpc,
                            k + 1,
                        )[i]).0 != name@ by {
                            if i < prev.len() {
                                assert(entries_before(cls, bpc, k + 1)[i] == prev[i]);
                            }
                        }
                    }
                },
            }
        }
    }

    /// Removes the file named `filename`. A directory of that name is refused.
    pub fn remove_file<D: Device>(&self, fat: &mut FAT<D>, filename: &str) -> (r: Result<(), Status>)
        requires
            self.readable(*old(fat)),
            forall|j: int|
                first_named(self.entries(*old(fat)), filename@, j) && !self.entries(*old(fat))[j].1 ==> self.removable(
                    *old(fat),
                    j,
                ),
        ensures
            sectors_kept(*final(fat), *old(fat), chain(old(fat).table(), self.spec_first_cluster())),
            final(fat).same_layout(*old(fat)),
            r is Ok ==> final(fat).wf(),
            r is Ok ==> exists|j: int|
                first_named(self.entries(*old(fat)), filename@, j) && !self.entries(*old(fat))[j].1
                    && #[trigger] self.entry_removed(
                    *old(fat),
                    *final(fat),
                    self.entries(*old(fat))[j].2,
                    positions(self.content(*old(fat)), old(fat).spec_bytes_per_cluster() as int)[j],
                ),
            (forall|j: int| 0 <= j < self.entries(*old(fat)).len() ==> self.entries(*old(fat))[j].0 != filename@)
                ==> r is Err,
            forall|j: int| first_named(self.entries(*old(fat)), filename@, j) && self.entries(*old(fat))[j].1 ==> r is Err,
    {
        self.remove(fat, filename, false)
    }

    /// Removes the directory named `directory_name`. A file of that name is refused.
    pub fn remove_directory<D: Device>(&self, fat: &mut FAT<D>, directory_name: &str) -> (r: Result<(), Status>)
        requires
            self.readable(*old(fat)),
            forall|j: int|
                first_named(self.entries(*old(fat)), directory_name@, j) && self.entries(*old(fat))[j].1
                    ==> self.removable(*old(fat), j),
        ensures
            sectors_kept(*final(fat), *old(fat), chain(old(fat).table(), self.spec_first_cluster())),
            final(fat).same_layout(*old(fat)),
            r is Ok ==> final(fat).wf(),
            r is Ok ==> exists|j: int|
                first_named(self.entries(*old(fat)), directory_name@, j) && self.entries(*old(fat))[j].1
                    && #[trigger] self.entry_removed(
                    *old(fat),
                    *final(fat),
                    self.entries(*old(fat))[j].2,
                    positions(self.content(*old(fat)), old(fat).spec_bytes_per_cluster() as int)[j],
                ),
            (forall|j: int| 0 <= j < self.entries(*old(fat)).len() ==> self.entries(*old(fat))[j].0 != directory_name@)
                ==> r is Err,
            forall|j: int|
                first_named(self.entries(*old(fat)), directory_name@, j) && !self.entries(*old(fat))[j].1 ==> r is Err,
    {
        self.remove(fat, directory_name, true)
    }

    /// Renaming a file is not supported.
    pub fn rename_file(&self, _from: &str, _to: &str) -> (r: Result<(), Status>)
        ensures
            r == Err::<(), Status>(Status::NotImplemented),
    {
        Err(Status::NotImplemented)
    }

    /// Renaming a directory is not supported.
    pub fn rename_directory(&self, _from: &str, _to: &str) -> (r: Result<(), Status>)
        ensures
            r == Err::<(), Status>(Status::NotImplemented),
    {
        Err(Status::NotImplemented)
    }
}

} // verus!
