use vstd::prelude::*;

use crate::device::Device;
use crate::error::Status;
use crate::filesystem::drivers::fat32::fat::{chain, chain_in_table, lemma_chain_distinct, shrunk, FAT};
use crate::filesystem::drivers::fat32::directory::iterator::sectors_kept;

verus! {

/// A file on a FAT32 volume: where its cluster chain starts and how long it is.
pub struct File {
    first_cluster: u32,
    file_size: usize,
}

/// The bytes of a read from a file of `size` bytes at `offset` into a buffer of `len`
/// bytes: as many as fit, and as the file holds from there.
pub open spec fn read_count(size: int, offset: int, len: int) -> int {
    if offset + len <= size {
        len
    } else {
        size - offset
    }
}

/// The clusters that a read of `len` bytes at `offset` from a file of `size` bytes, whose
/// chain has `cl` clusters of `bpc` bytes, reads: from the one that holds `offset` up to
/// the one that holds the last byte asked for, but no further than the chain.
proof fn lemma_read_window(offset: int, len: int, size: int, bpc: int, cl: int)
    requires
        0 <= offset < size,
        len >= 0,
        bpc > 0,
        cl * bpc >= size,
    ensures
        ({
            let diff = offset % bpc;
            let start = (offset - diff) / bpc;
            let end = offset + len;
            let te = if end % bpc == 0 {
                end
            } else {
                end - end % bpc + bpc
            };
            let ec = if te / bpc > cl {
                cl
            } else {
                te / bpc
            };
            &&& 0 <= diff <= offset
            &&& 0 <= end % bpc <= end
            &&& start * bpc == offset - diff
            &&& 0 <= start < cl
            &&& start <= ec
            &&& te >= end
            &&& (ec - start) * bpc >= diff + read_count(size, offset, len)
        }),
{
    let diff = offset % bpc;
    vstd::arithmetic::div_mod::lemma_fundamental_div_mod(offset, bpc);
    vstd::arithmetic::div_mod::lemma_mod_bound(offset, bpc);
    let q = offset / bpc;
    assert(offset - diff == bpc * q);
    vstd::arithmetic::div_mod::lemma_div_multiples_vanish(q, bpc);
    let start = (offset - diff) / bpc;
    assert(start == q);
    assert(start * bpc == offset - diff) by (nonlinear_arith)
        requires
            offset - diff == bpc * q,
            start == q,
    ;
    assert(start < cl) by (nonlinear_arith)
        requires
            start * bpc <= offset,
            offset < size,
            cl * bpc >= size,
            bpc > 0,
    ;
    let end = offset + len;
    vstd::arithmetic::div_mod::lemma_fundamental_div_mod(end, bpc);
    vstd::arithmetic::div_mod::lemma_mod_bound(end, bpc);
    assert(end % bpc <= end) by (nonlinear_arith)
        requires
            end == bpc * (end / bpc) + end % bpc,
            end >= 0,
            bpc > 0,
            0 <= end % bpc < bpc,
    ;
    let te = if end % bpc == 0 {
        end
    } else {
        end - end % bpc + bpc
    };
    let m = if end % bpc == 0 {
        end / bpc
    } else {
        end / bpc + 1
    };
    assert(te == bpc * m) by (nonlinear_arith)
        requires
            end == bpc * (end / bpc) + end % bpc,
            te == (if end % bpc == 0 {
                end
            } else {
                end - end % bpc + bpc
            }),
            m == (if end % bpc == 0 {
                end / bpc
            } else {
                end / bpc + 1
            }),
    ;
    vstd::arithmetic::div_mod::lemma_div_multiples_vanish(m, bpc);
    assert(te / bpc == m);
    assert(te >= end);
    assert(m >= start) by (nonlinear_arith)
        requires
            bpc * m >= end,
            end >= offset,
            start * bpc <= offset,
            bpc > 0,
    ;
    let ec = if m > cl {
        cl
    } else {
        m
    };
    if m > cl {
        assert((ec - start) * bpc == cl * bpc - start * bpc) by (nonlinear_arith)
            requires
                ec == cl,
        ;
    } else {
        assert((ec - start) * bpc == bpc * m - start * bpc) by (nonlinear_arith)
            requires
                ec == m,
        ;
    }
}

/// Cluster number `m` of a file, `old` before a write of `data` at `offset`, after it:
/// the bytes the write covers come from `data`, the others stay.
pub open spec fn written_cluster(old: Seq<u8>, m: int, bpc: int, offset: int, data: Seq<u8>) -> Seq<u8> {
    Seq::new(
        bpc as nat,
        |r: int|
            {
                let i = m * bpc + r;
                if offset <= i < offset + data.len() {
                    data[i - offset]
                } else {
                    old[r]
                }
            },
    )
}

impl File {
    pub closed spec fn spec_first_cluster(&self) -> u32 {
        self.first_cluster
    }

    pub closed spec fn spec_size(&self) -> usize {
        self.file_size
    }

    pub fn new(first_cluster: u32, file_size: usize) -> (r: Self)
        ensures
            r.spec_first_cluster() == first_cluster,
            r.spec_size() == file_size,
    {
        File { first_cluster: first_cluster, file_size: file_size }
    }

    /// The length of the file.
    pub fn get_length(&self) -> (r: usize)
        ensures
            r == self.spec_size(),
    {
        self.file_size
    }

    /// Reads from `offset` into `buffer`. At or past the end of the file nothing is read
    /// and the result is -1; otherwise the result is the number of bytes read, as many as
    /// fit the buffer and the file holds, and the rest of the buffer is zeroed.
    pub fn read<D: Device>(&mut self, fat: &mut FAT<D>, offset: usize, buffer: &mut [u8]) -> (r: Result<
        isize,
        Status,
    >)
        requires
            old(fat).wf(),
            chain_in_table(old(fat).table(), self.spec_first_cluster()),
            old(fat).spec_bytes_per_cluster() > 0,
            chain(old(fat).table(), self.spec_first_cluster()).len() * old(fat).spec_bytes_per_cluster()
                >= self.spec_size(),
            old(fat).chain_readable(chain(old(fat).table(), self.spec_first_cluster())),
            offset < old(self).spec_size() ==> offset + old(buffer)@.len() + old(fat).spec_bytes_per_cluster()
                <= usize::MAX,
        ensures
            final(fat).data_unchanged(*old(fat)),
            final(fat).same_layout(*old(fat)),
            *final(self) == *old(self),
            offset >= old(self).spec_size() ==> r == Ok::<isize, Status>(-1isize) && final(buffer)@ == old(buffer)@
                && *final(fat) == *old(fat),
            r is Ok ==> final(fat).wf() && final(fat).table() == old(fat).table(),
            offset < old(self).spec_size() ==> (r is Ok ==> ({
                let n = read_count(old(self).spec_size() as int, offset as int, old(buffer)@.len() as int);
                &&& r == Ok::<isize, Status>(n as isize)
                &&& final(buffer)@.len() == old(buffer)@.len()
                &&& forall|k: int|
                    0 <= k < n ==> #[trigger] final(buffer)@[k] == old(fat).chain_byte(
                        chain(old(fat).table(), old(self).spec_first_cluster()),
                        offset + k,
                    )
                &&& forall|k: int| n <= k < old(buffer)@.len() ==> #[trigger] final(buffer)@[k] == 0
            })),
    {
        if offset >= self.file_size {
            proof {
                fat.lemma_same_layout_refl_trans(*fat, *fat);
            }
            return Ok(-1);
        }
        let ghost fat0 = *fat;
        let ghost l = chain(fat0.table(), self.first_cluster);
        let bytes_per_cluster = fat.bytes_per_cluster();
        let cluster_chain = match fat.get_cluster_chain(self.first_cluster) {
            Ok(c) => c,
            Err(e) => {
                return Err(e);
            },
        };
        proof {
            fat.lemma_same_layout(fat0);
            lemma_read_window(
                offset as int,
                buffer@.len() as int,
                self.file_size as int,
                bytes_per_cluster as int,
                l.len() as int,
            );
        }
        let bpc = bytes_per_cluster;
        let true_start_diff = offset % bpc;
        let true_start = offset - true_start_diff;
        let end = offset + buffer.len();
        let true_end_diff = end % bpc;
        let true_end = if true_end_diff == 0 {
            end
        } else {
            end - true_end_diff + bpc
        };
        let start_cluster = true_start / bpc;
        let end_cluster = true_end / bpc;
        let end_cluster = if end_cluster > cluster_chain.len() {
            cluster_chain.len()
        } else {
            end_cluster
        };
        let mut int_buffer: Vec<u8> = Vec::new();
        let mut current = start_cluster;
        while current < end_cluster
            invariant
                fat.wf(),
                fat.table() == fat0.table(),
                fat.same_layout(fat0),
                fat.data_unchanged(fat0),
                fat0 == *old(fat),
                *self == *old(self),
                offset < self.file_size,
                l.len() * bpc >= self.file_size,
                true_start == start_cluster * bpc,
                true_start == offset - true_start_diff,
                end_cluster == (if true_end / bpc > l.len() {
                    l.len() as int
                } else {
                    (true_end / bpc) as int
                }),
                (end_cluster - start_cluster) * bpc >= true_start_diff + read_count(
                    self.file_size as int,
                    offset as int,
                    buffer@.len() as int,
                ),
                l == chain(fat0.table(), self.first_cluster),
                cluster_chain@ == l,
                fat0.chain_readable(l),
                bpc == fat0.spec_bytes_per_cluster(),
                bpc > 0,
                start_cluster <= current <= end_cluster <= l.len(),
                int_buffer@.len() == (current - start_cluster) * bpc,
                forall|j: int|
                    0 <= j < int_buffer@.len() ==> #[trigger] int_buffer@[j] == fat0.chain_byte(
                        l,
                        start_cluster * bpc + j,
                    ),
            decreases end_cluster - current,
        {
            let cluster = cluster_chain[current];
            proof {
                fat.lemma_same_layout(fat0);
                fat.lemma_data_sector(cluster);
            }
            let mut data: Vec<u8> = Vec::new();
            data.resize(bpc, 0u8);
            let ghost fat_before = *fat;
            match fat.read_cluster(cluster, &mut data) {
                Ok(()) => {},
                Err(e) => {
                    return Err(e);
                },
            }
            proof {
                fat.lemma_same_layout_refl_trans(fat_before, fat0);
                fat.lemma_same_layout(fat0);
            }
            proof {
                assert(data@ == fat0.cluster_data(cluster));
            }
            let ghost before = int_buffer@;
            int_buffer.append(&mut data);
            proof {
                let base = (current - start_cluster) * bpc;
                assert((current + 1 - start_cluster) * bpc == base + bpc) by (nonlinear_arith)
                    requires
                        base == (current - start_cluster) * bpc,
                ;
                assert forall|j: int| 0 <= j < int_buffer@.len() implies #[trigger] int_buffer@[j] == fat0.chain_byte(
                    l,
                    start_cluster * bpc + j,
                ) by {
                    if j >= base {
                        let r = j - base;
                        assert(start_cluster * bpc + j == current * bpc + r) by (nonlinear_arith)
                            requires
                                base == (current - start_cluster) * bpc,
                                r == j - base,
                        ;
                        assert((current * bpc + r) / (bpc as int) == current && (current * bpc + r) % (bpc as int) == r)
                            by (nonlinear_arith)
                            requires
                                0 <= r < bpc,
                                bpc > 0,
                                current >= 0,
                        ;
                    }
                }
            }
            current = current + 1;
        }
        let ghost original = buffer@;
        let ib_len = int_buffer.len();
        proof {
            assert(int_buffer@.len() >= true_start_diff + read_count(
                self.file_size as int,
                offset as int,
                buffer@.len() as int,
            ));
        }
        if end <= self.file_size {
            let ret = #[verifier::truncate] (buffer.len() as isize);
            let mut k: usize = 0;
            while k < buffer.len()
                invariant
                    k <= buffer@.len(),
                    buffer@.len() == original.len(),
                    int_buffer@.len() >= true_start_diff + original.len(),
                    ib_len == int_buffer@.len(),
                    forall|m: int| 0 <= m < k ==> #[trigger] buffer@[m] == int_buffer@[true_start_diff + m],
                decreases buffer@.len() - k,
            {
                buffer[k] = int_buffer[true_start_diff + k];
                k = k + 1;
            }
            proof {
                assert forall|m: int| 0 <= m < original.len() implies #[trigger] buffer@[m] == fat0.chain_byte(
                    l,
                    offset + m,
                ) by {
                    assert(start_cluster * bpc + true_start_diff + m == offset + m);
                }
            }
            Ok(ret)
        } else {
            let count = self.file_size - offset;
            let mut k: usize = 0;
            while k < count
                invariant
                    k <= count,
                    count == self.file_size - offset,
                    count < original.len(),
                    buffer@.len() == original.len(),
                    int_buffer@.len() >= true_start_diff + count,
                    ib_len == int_buffer@.len(),
                    forall|m: int| 0 <= m < k ==> #[trigger] buffer@[m] == int_buffer@[true_start_diff + m],
                decreases count - k,
            {
                buffer[k] = int_buffer[true_start_diff + k];
                k = k + 1;
            }
            while k < buffer.len()
                invariant
                    count <= k <= buffer@.len(),
                    buffer@.len() == original.len(),
                    forall|m: int| 0 <= m < count ==> #[trigger] buffer@[m] == int_buffer@[true_start_diff + m],
                    forall|m: int| count <= m < k ==> #[trigger] buffer@[m] == 0,
                decreases buffer@.len() - k,
            {
                buffer[k] = 0;
                k = k + 1;
            }
            proof {
                assert forall|m: int| 0 <= m < count implies #[trigger] buffer@[m] == fat0.chain_byte(
                    l,
                    offset + m,
                ) by {
                    assert(start_cluster * bpc + true_start_diff + m == offset + m);
                }
            }
            Ok(#[verifier::truncate] (count as isize))
        }
    }

    /// Writes `buffer` at `offset`, which must lie inside the file, and gives the number of
    /// bytes written. The first and the last cluster written are read first, so that the
    /// bytes around the write stay.
    pub fn write<D: Device>(&mut self, fat: &mut FAT<D>, offset: usize, buffer: &[u8]) -> (r: Result<isize, Status>)
        requires
            old(fat).wf(),
            chain_in_table(old(fat).table(), self.spec_first_cluster()),
            old(fat).spec_bytes_per_cluster() > 0,
            chain(old(fat).table(), self.spec_first_cluster()).len() * old(fat).spec_bytes_per_cluster()
                >= self.spec_size(),
            old(fat).chain_readable(chain(old(fat).table(), self.spec_first_cluster())),
            offset + buffer@.len() <= usize::MAX,
            buffer@.len() > 0 && offset + buffer@.len() <= old(self).spec_size() ==> offset + buffer@.len()
                + old(fat).spec_bytes_per_cluster() <= usize::MAX,
        ensures
            sectors_kept(*final(fat), *old(fat), chain(old(fat).table(), old(self).spec_first_cluster())),
            final(fat).same_layout(*old(fat)),
            *final(self) == *old(self),
            buffer@.len() == 0 ==> r == Ok::<isize, Status>(0isize) && *final(fat) == *old(fat),
            buffer@.len() > 0 && offset + buffer@.len() > old(self).spec_size() ==> r == Err::<isize, Status>(
                Status::OutOfRange,
            ) && *final(fat) == *old(fat),
            r is Ok ==> final(fat).wf() && final(fat).table() == old(fat).table(),
            buffer@.len() > 0 && r is Ok ==> ({
                let l = chain(old(fat).table(), old(self).spec_first_cluster());
                let bpc = old(fat).spec_bytes_per_cluster() as int;
                &&& r == Ok::<isize, Status>(buffer@.len() as isize)
                &&& forall|m: int|
                    0 <= m < l.len() ==> #[trigger] final(fat).cluster_data(l[m]) == written_cluster(
                        old(fat).cluster_data(l[m]),
                        m,
                        bpc,
                        offset as int,
                        buffer@,
                    )
                &&& forall|a: int|
                    a >= old(fat).spec_first_data_sector() && (forall|m: int|
                        0 <= m < l.len() ==> a != #[trigger] old(fat).sector_of_cluster(l[m])) ==> #[trigger] final(fat).spec_drive().block(a) == old(fat).spec_drive().block(a)
            }),
    {
        if buffer.len() == 0 {
            proof {
                fat.lemma_same_layout_refl_trans(*fat, *fat);
            }
            return Ok(0);
        }
        if offset + buffer.len() > self.file_size {
            return Err(Status::OutOfRange);
        }
        let ghost fat0 = *fat;
        let ghost l = chain(fat0.table(), self.first_cluster);
        let bpc = fat.bytes_per_cluster();
        let starting_cluster_index = offset / bpc;
        let end = offset + buffer.len();
        let ending_cluster_index = (end - 1) / bpc;
        let cluster_chain = match fat.get_cluster_chain(self.first_cluster) {
            Ok(c) => c,
            Err(e) => {
                return Err(e);
            },
        };
        proof {
            fat.lemma_same_layout(fat0);
            fat0.lemma_sectors_per_cluster();
            lemma_chain_distinct(fat0.table(), self.first_cluster);
            assert(starting_cluster_index <= ending_cluster_index) by (nonlinear_arith)
                requires
                    starting_cluster_index == offset / bpc,
                    ending_cluster_index == (end - 1) as int / bpc as int,
                    end - 1 >= offset,
                    bpc > 0,
            ;
            assert(ending_cluster_index < l.len()) by (nonlinear_arith)
                requires
                    ending_cluster_index == (end - 1) as int / bpc as int,
                    end <= self.file_size,
                    l.len() * bpc >= self.file_size,
                    bpc > 0,
                    end >= 1,
            ;
            assert(ending_cluster_index * bpc <= end - 1) by (nonlinear_arith)
                requires
                    ending_cluster_index == (end - 1) as int / bpc as int,
                    bpc > 0,
                    end >= 1,
            ;
            assert(starting_cluster_index * bpc <= offset < (starting_cluster_index + 1) * bpc) by (nonlinear_arith)
                requires
                    starting_cluster_index == offset / bpc,
                    bpc > 0,
            ;
            assert(end - 1 < (ending_cluster_index + 1) * bpc) by (nonlinear_arith)
                requires
                    ending_cluster_index == (end - 1) as int / bpc as int,
                    bpc > 0,
                    end >= 1,
            ;
        }
        let chain_len = cluster_chain.len();
        let mut m = starting_cluster_index;
        while m <= ending_cluster_index
            invariant
                chain_len == l.len(),
                fat.wf(),
                fat.table() == fat0.table(),
                fat.same_layout(fat0),
                fat0 == *old(fat),
                *self == *old(self),
                l == chain(fat0.table(), self.first_cluster),
                l.no_duplicates(),
                cluster_chain@ == l,
                fat0.chain_readable(l),
                fat0.spec_sectors_per_cluster() > 0,
                bpc == fat0.spec_bytes_per_cluster(),
                bpc > 0,
                end == offset + buffer@.len(),
                end <= self.file_size,
                buffer@.len() > 0,
                end + bpc <= usize::MAX,
                starting_cluster_index <= m <= ending_cluster_index + 1,
                ending_cluster_index < l.len(),
                starting_cluster_index * bpc <= offset < (starting_cluster_index + 1) * bpc,
                ending_cluster_index * bpc <= end - 1 < (ending_cluster_index + 1) * bpc,
                forall|k: int|
                    0 <= k < l.len() ==> #[trigger] fat.cluster_data(l[k]) == if starting_cluster_index <= k < m {
                        written_cluster(fat0.cluster_data(l[k]), k, bpc as int, offset as int, buffer@)
                    } else {
                        fat0.cluster_data(l[k])
                    },
                forall|a: int|
                    a >= fat0.spec_first_data_sector() && (forall|k: int|
                        0 <= k < l.len() ==> a != #[trigger] fat0.sector_of_cluster(l[k])) ==> #[trigger] fat.spec_drive().block(a)
                        == fat0.spec_drive().block(a),
            decreases ending_cluster_index + 1 - m,
        {
            let cluster = cluster_chain[m];
            proof {
                fat.lemma_same_layout(fat0);
                fat0.lemma_data_sector(cluster);
                assert(m * bpc <= end - 1) by (nonlinear_arith)
                    requires
                        m <= ending_cluster_index,
                        ending_cluster_index * bpc <= end - 1,
                        bpc > 0,
                ;
            }
            let cluster_start = m * bpc;
            let lo = if offset > cluster_start {
                offset - cluster_start
            } else {
                0
            };
            let hi = if end < cluster_start + bpc {
                end - cluster_start
            } else {
                bpc
            };
            let mut write_buffer: Vec<u8> = Vec::new();
            write_buffer.resize(bpc, 0u8);
            let ghost fat_before = *fat;
            proof {
                assert(cluster == l[m as int]);
                assert(fat.cluster_data(l[m as int]) == fat0.cluster_data(l[m as int]));
                assert(fat0.cluster_data(l[m as int]).len() == bpc);
                assert(fat0.sector_of_cluster(l[m as int]) <= u32::MAX);
            }
            if m == starting_cluster_index || m == ending_cluster_index {
                match fat.read_cluster(cluster, &mut write_buffer) {
                    Ok(()) => {},
                    Err(e) => {
                        return Err(e);
                    },
                }
                proof {
                    fat.lemma_same_layout_refl_trans(fat_before, fat0);
                    fat.lemma_same_layout(fat0);
                    assert(write_buffer@ == fat0.cluster_data(cluster));
                }
            } else {
                proof {
                    assert(lo == 0) by (nonlinear_arith)
                        requires
                            m > starting_cluster_index,
                            offset < (starting_cluster_index + 1) * bpc,
                            cluster_start == m * bpc,
                            lo == (if offset > cluster_start {
                                offset - cluster_start
                            } else {
                                0int
                            }),
                            bpc > 0,
                    ;
                    assert(hi == bpc) by (nonlinear_arith)
                        requires
                            m < ending_cluster_index,
                            ending_cluster_index * bpc <= end - 1,
                            cluster_start == m * bpc,
                            hi == (if end < cluster_start + bpc {
                                end - cluster_start
                            } else {
                                bpc as int
                            }),
                            bpc > 0,
                    ;
                }
            }
            let ghost base = write_buffer@;
            proof {
                assert((m + 1) * bpc >= (starting_cluster_index + 1) * bpc) by (nonlinear_arith)
                    requires
                        m >= starting_cluster_index,
                        bpc > 0,
                ;
                assert(cluster_start + bpc == (m + 1) * bpc) by (nonlinear_arith)
                    requires
                        cluster_start == m * bpc,
                ;
                assert(lo <= hi && hi <= bpc && cluster_start + lo >= offset && cluster_start + hi <= end);
            }
            let mut r = lo;
            while r < hi
                invariant
                    lo <= r <= hi,
                    hi <= bpc,
                    write_buffer@.len() == bpc,
                    cluster_start == m * bpc,
                    cluster_start + lo >= offset,
                    cluster_start + hi <= end,
                    end == offset + buffer@.len(),
                    base.len() == bpc,
                    forall|q: int|
                        0 <= q < bpc ==> #[trigger] write_buffer@[q] == if lo <= q < r {
                            buffer@[cluster_start + q - offset]
                        } else {
                            base[q]
                        },
                decreases hi - r,
            {
                write_buffer.set(r, buffer[cluster_start + r - offset]);
                r = r + 1;
            }
            proof {
                let expected = written_cluster(fat0.cluster_data(cluster), m as int, bpc as int, offset as int, buffer@);
                assert forall|q: int| 0 <= q < bpc implies #[trigger] write_buffer@[q] == expected[q] by {
                    let i = m * bpc + q;
                    assert((offset <= i < end) <==> (lo <= q < hi));
                }
                assert(write_buffer@ =~= expected);
            }
            let ghost fat_mid = *fat;
            match fat.write_cluster(cluster, &write_buffer) {
                Ok(()) => {},
                Err(e) => {
                    return Err(e);
                },
            }
            proof {
                fat.lemma_same_layout_refl_trans(fat_mid, fat0);
                fat.lemma_same_layout(fat0);
                fat_mid.lemma_same_layout(fat0);
                assert forall|k: int| 0 <= k < l.len() implies #[trigger] fat.cluster_data(l[k]) == if starting_cluster_index
                    <= k < m + 1 {
                    written_cluster(fat0.cluster_data(l[k]), k, bpc as int, offset as int, buffer@)
                } else {
                    fat0.cluster_data(l[k])
                } by {
                    if k != m {
                        assert(l[k] != l[m as int]);
                        fat0.lemma_sector_injective(l[k], l[m as int]);
                        fat_before.lemma_same_layout(fat0);
                        assert(fat.cluster_data(l[k]) == fat_mid.cluster_data(l[k]));
                        assert(fat_mid.cluster_data(l[k]) == fat_before.cluster_data(l[k]));
                    } else {
                        assert(fat.cluster_data(l[k]) == write_buffer@);
                    }
                }
                assert forall|a: int|
                    a >= fat0.spec_first_data_sector() && (forall|k: int|
                        0 <= k < l.len() ==> a != #[trigger] fat0.sector_of_cluster(l[k])) implies #[trigger] fat.spec_drive().block(a)
                    == fat0.spec_drive().block(a) by {
                    assert(a != fat0.sector_of_cluster(l[m as int]));
                    assert(fat.spec_drive().block(a) == fat_mid.spec_drive().block(a));
                }
            }
            m = m + 1;
        }
        proof {
            assert forall|k: int| 0 <= k < l.len() implies #[trigger] fat.cluster_data(l[k]) == written_cluster(
                fat0.cluster_data(l[k]),
                k,
                bpc as int,
                offset as int,
                buffer@,
            ) by {
                if !(starting_cluster_index <= k <= ending_cluster_index) {
                    let w = written_cluster(fat0.cluster_data(l[k]), k, bpc as int, offset as int, buffer@);
                    assert forall|q: int| 0 <= q < bpc implies #[trigger] w[q] == fat0.cluster_data(l[k])[q] by {
                        if k < starting_cluster_index {
                            assert(k * bpc + q < offset) by (nonlinear_arith)
                                requires
                                    k < starting_cluster_index,
                                    starting_cluster_index * bpc <= offset,
                                    0 <= q < bpc,
                            ;
                        } else {
                            assert(k * bpc + q >= end) by (nonlinear_arith)
                                requires
                                    k > ending_cluster_index,
                                    end - 1 < (ending_cluster_index + 1) * bpc,
                                    0 <= q < bpc,
                            ;
                        }
                    }
                    assert(w =~= fat0.cluster_data(l[k]));
                }
            }
        }
        Ok(#[verifier::truncate] (buffer.len() as isize))
    }

    /// Sets the file's length, cutting or lengthening its cluster chain when the number of
    /// clusters it needs changes. Cutting to `n` clusters calls `shrink_cluster_chain` with
    /// `n`, which keeps cluster number `n` as the new end.
    pub fn set_length<D: Device>(&mut self, fat: &mut FAT<D>, new_length: usize) -> (r: Result<(), Status>)
        requires
            old(fat).wf(),
            chain_in_table(old(fat).table(), old(self).spec_first_cluster()),
            old(fat).spec_bytes_per_cluster() > 0,
            old(self).spec_size() + old(fat).spec_bytes_per_cluster() - 1 <= usize::MAX,
            new_length + old(fat).spec_bytes_per_cluster() - 1 <= usize::MAX,
        ensures
            final(fat).same_layout(*old(fat)),
            final(self).spec_first_cluster() == old(self).spec_first_cluster(),
            r is Ok ==> final(self).spec_size() == new_length,
            r is Err ==> final(self).spec_size() == old(self).spec_size(),
            ({
                let bpc = old(fat).spec_bytes_per_cluster() as int;
                let current = (old(self).spec_size() + bpc - 1) / bpc;
                let needed = (new_length + bpc - 1) / bpc;
                let t = old(fat).table();
                let l = chain(t, old(self).spec_first_cluster());
                &&& current == needed ==> r is Ok && *final(fat) == *old(fat)
                &&& current > needed && r is Ok ==> final(fat).wf()
                    && final(fat).table() == shrunk(t, l, needed)
                &&& current < needed && r is Ok ==> final(fat).wf()
                    && final(fat).grown_from(*old(fat), old(self).spec_first_cluster(), needed)
                &&& current > needed && needed >= l.len() ==> r is Err
            }),
    {
        let bytes_per_cluster = fat.bytes_per_cluster();
        let current_cluster_count = (self.file_size + (bytes_per_cluster - 1)) / bytes_per_cluster;
        let new_cluster_count = (new_length + (bytes_per_cluster - 1)) / bytes_per_cluster;
        if current_cluster_count > new_cluster_count {
            match fat.shrink_cluster_chain(self.first_cluster, new_cluster_count) {
                Ok(()) => {},
                Err(e) => {
                    return Err(e);
                },
            }
        } else if current_cluster_count < new_cluster_count {
            match fat.grow_cluster_chain(self.first_cluster, new_cluster_count) {
                Ok(()) => {},
                Err(e) => {
                    return Err(e);
                },
            }
        }
        self.file_size = new_length;
        Ok(())
    }
}

} // verus!
