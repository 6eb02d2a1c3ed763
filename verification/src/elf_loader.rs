use vstd::prelude::*;

verus! {

/// ELF program header type of a loadable segment.
pub const PT_LOAD: u32 = 1;

/// Size of a UEFI page in bytes.
pub const EFI_PAGE_SIZE: usize = 0x1000;

/// Physical address at which the boot loader places the kernel.
pub const KERNEL_BASE_ADDR: usize = 0x100000;

/// The fields of an ELF program header that loading reads.
#[derive(PartialEq, Eq, Structural, Debug, Clone, Copy)]
pub struct ProgramHeader {
    pub p_type: u32,
    pub p_offset: u64,
    pub p_vaddr: u64,
    pub p_filesz: u64,
    pub p_memsz: u64,
}

/// What loading needs of a parsed ELF file: its entry point and its
/// program headers, in file order.
#[derive(Debug)]
pub struct ElfImage {
    pub entry: u64,
    pub program_headers: Vec<ProgramHeader>,
}

/// The entry point and program headers that goblin's `Elf::parse` finds in
/// `bytes`, or `None` where it returns an error.
pub uninterp spec fn elf_parse(bytes: Seq<u8>) -> Option<(u64, Seq<ProgramHeader>)>;

#[verifier::external_type_specification]
#[verifier::external_body]
pub struct ExGoblinError(goblin::error::Error);

/// Calls goblin's `Elf::parse` on `bytes` and keeps the entry point and the
/// program headers. The contract claims only that the result is the one that
/// `elf_parse` names for these bytes: it depends on the bytes alone.
#[verifier::external_body]
fn parse_elf(bytes: &[u8]) -> (r: Result<ElfImage, goblin::error::Error>)
    ensures
        r is Ok <==> elf_parse(bytes@) is Some,
        r matches Ok(img) ==> elf_parse(bytes@) == Some((img.entry, img.program_headers@)),
{
    let elf = goblin::elf::Elf::parse(bytes)?;
    let program_headers = elf.program_headers.iter().map(|ph| ProgramHeader {
        p_type: ph.p_type,
        p_offset: ph.p_offset,
        p_vaddr: ph.p_vaddr,
        p_filesz: ph.p_filesz,
        p_memsz: ph.p_memsz,
    }).collect();
    Ok(ElfImage { entry: elf.entry, program_headers })
}

pub open spec fn min(a: int, b: int) -> int {
    if a <= b {
        a
    } else {
        b
    }
}

pub open spec fn max(a: int, b: int) -> int {
    if a >= b {
        a
    } else {
        b
    }
}

pub open spec fn is_load(ph: ProgramHeader) -> bool {
    ph.p_type == PT_LOAD
}

/// The end address of every loadable segment fits in a `usize`.
pub open spec fn ends_fit(phs: Seq<ProgramHeader>) -> bool {
    forall|i: int| 0 <= i < phs.len() && is_load(#[trigger] phs[i]) ==> phs[i].p_vaddr + phs[i].p_memsz <= usize::MAX
}

/// The pair (first, last) that the address range scan computes over the
/// headers in order: it starts at (usize::MAX, 0) and, at each loadable
/// segment, sets `first` to the smaller of the current `last` and the
/// segment's start, and `last` to the larger of the current `last` and the
/// segment's end.
pub open spec fn load_range(phs: Seq<ProgramHeader>) -> (int, int)
    decreases phs.len(),
{
    if phs.len() == 0 {
        (usize::MAX as int, 0)
    } else {
        let prev = load_range(phs.drop_last());
        let ph = phs.last();
        if is_load(ph) {
            (min(prev.1, ph.p_vaddr as int), max(prev.1, ph.p_vaddr + ph.p_memsz))
        } else {
            prev
        }
    }
}

/// Of the range scan: `last` is the largest end address of a loadable
/// segment, or 0 where there is none; where there is a loadable segment,
/// `first` is at most `last`; where there is none, the pair is
/// (usize::MAX, 0).
pub proof fn lemma_load_range(phs: Seq<ProgramHeader>)
    ensures
        forall|i: int|
            0 <= i < phs.len() && is_load(#[trigger] phs[i]) ==> phs[i].p_vaddr + phs[i].p_memsz
                <= load_range(phs).1,
        load_range(phs).1 == 0 || exists|i: int|
            0 <= i < phs.len() && is_load(#[trigger] phs[i]) && phs[i].p_vaddr + phs[i].p_memsz
                == load_range(phs).1,
        (exists|i: int| 0 <= i < phs.len() && is_load(#[trigger] phs[i])) ==> load_range(phs).0
            <= load_range(phs).1,
        (forall|i: int| 0 <= i < phs.len() ==> !is_load(#[trigger] phs[i])) ==> load_range(phs) == (
            usize::MAX as int,
            0int,
        ),
    decreases phs.len(),
{
    if phs.len() > 0 {
        let prev = phs.drop_last();
        lemma_load_range(prev);
        assert forall|i: int| 0 <= i < prev.len() implies #[trigger] prev[i] == phs[i] by {}
        let n = phs.len() - 1;
        assert forall|i: int|
            0 <= i < phs.len() && is_load(#[trigger] phs[i]) implies phs[i].p_vaddr + phs[i].p_memsz
            <= load_range(phs).1 by {
            if i < n {
                assert(is_load(prev[i]));
            }
        }
        if is_load(phs[n]) {
            assert(is_load(phs[n]));
        } else {
            if exists|i: int| 0 <= i < phs.len() && is_load(#[trigger] phs[i]) {
                let i = choose|i: int| 0 <= i < phs.len() && is_load(#[trigger] phs[i]);
                assert(i < n);
                assert(is_load(prev[i]));
            }
            if load_range(phs).1 != 0 {
                let i = choose|i: int|
                    0 <= i < prev.len() && is_load(#[trigger] prev[i]) && prev[i].p_vaddr + prev[i].p_memsz
                        == load_range(prev).1;
                assert(phs[i] == prev[i]);
            }
        }
    }
}

proof fn lemma_load_range_drop_trailing(phs: Seq<ProgramHeader>, k: int)
    requires
        0 <= k < phs.len(),
        forall|j: int| k < j < phs.len() ==> !is_load(#[trigger] phs[j]),
    ensures
        load_range(phs) == load_range(phs.subrange(0, k + 1)),
    decreases phs.len(),
{
    if phs.len() == k + 1 {
        assert(phs.subrange(0, k + 1) =~= phs);
    } else {
        let prev = phs.drop_last();
        assert(!is_load(phs[phs.len() - 1]));
        assert(phs.last() == phs[phs.len() - 1]);
        assert forall|j: int| k < j < prev.len() implies !is_load(#[trigger] prev[j]) by {
            assert(prev[j] == phs[j]);
        }
        lemma_load_range_drop_trailing(prev, k);
        assert(prev.subrange(0, k + 1) =~= phs.subrange(0, k + 1));
    }
}

/// Where `k` is the last loadable header and `e` the largest end address of
/// the loadable headers before it (0 where there is none), the range scan
/// gives as `first` the smaller of `e` and the start of header `k`, and as
/// `last` the larger of `e` and the end of header `k`.
pub proof fn lemma_load_range_by_last_segment(phs: Seq<ProgramHeader>, k: int, e: int)
    requires
        0 <= k < phs.len(),
        is_load(phs[k]),
        forall|j: int| k < j < phs.len() ==> !is_load(#[trigger] phs[j]),
        forall|j: int|
            0 <= j < k && is_load(#[trigger] phs[j]) ==> phs[j].p_vaddr + phs[j].p_memsz <= e,
        e == 0 || exists|j: int|
            0 <= j < k && is_load(#[trigger] phs[j]) && phs[j].p_vaddr + phs[j].p_memsz == e,
    ensures
        load_range(phs).0 == (if phs[k].p_vaddr <= e {
            phs[k].p_vaddr as int
        } else {
            e
        }),
        load_range(phs).1 == (if e >= phs[k].p_vaddr + phs[k].p_memsz {
            e
        } else {
            phs[k].p_vaddr + phs[k].p_memsz
        }),
{
    lemma_load_range_drop_trailing(phs, k);
    let pre = phs.subrange(0, k);
    let s = phs.subrange(0, k + 1);
    assert(s.drop_last() =~= pre);
    assert(s.last() == phs[k]);
    lemma_load_range(pre);
    assert forall|j: int| 0 <= j < pre.len() implies #[trigger] pre[j] == phs[j] by {}
    let l = load_range(pre).1;
    if l != 0 {
        let j = choose|j: int|
            0 <= j < pre.len() && is_load(#[trigger] pre[j]) && pre[j].p_vaddr + pre[j].p_memsz == l;
        assert(is_load(phs[j]));
        assert(l <= e);
    }
    if e != 0 {
        let i = choose|i: int|
            0 <= i < k && is_load(#[trigger] phs[i]) && phs[i].p_vaddr + phs[i].p_memsz == e;
        assert(is_load(pre[i]));
        assert(e <= l);
    }
    assert(l == e);
}

/// The loadable headers of `phs`, in order.
pub open spec fn loads(phs: Seq<ProgramHeader>) -> Seq<ProgramHeader> {
    phs.filter(|ph: ProgramHeader| is_load(ph))
}

/// The range scan sees the loadable headers only: it gives the same pair on
/// the headers and on their loadable subsequence.
pub proof fn lemma_load_range_loads_only(phs: Seq<ProgramHeader>)
    ensures
        load_range(phs) == load_range(loads(phs)),
    decreases phs.len(),
{
    reveal(Seq::filter);
    if phs.len() > 0 {
        let prev = phs.drop_last();
        lemma_load_range_loads_only(prev);
        let f = loads(prev);
        assert(loads(phs) == if is_load(phs.last()) { f.push(phs.last()) } else { f });
        if is_load(phs.last()) {
            assert(f.push(phs.last()).drop_last() =~= f);
            assert(f.push(phs.last()).last() == phs.last());
        }
    }
}

/// Inserting or removing headers that are not loadable does not change the
/// address range: two header lists with the same loadable headers, in the
/// same order, give the same pair.
pub proof fn lemma_load_range_same_loads(a: Seq<ProgramHeader>, b: Seq<ProgramHeader>)
    requires
        loads(a) == loads(b),
    ensures
        load_range(a) == load_range(b),
{
    lemma_load_range_loads_only(a);
    lemma_load_range_loads_only(b);
}

/// Scans the loadable segments for the address range the kernel occupies.
pub fn calc_load_address_range(elf: &ElfImage) -> (r: (usize, usize))
    requires
        ends_fit(elf.program_headers@),
    ensures
        (r.0 as int, r.1 as int) == load_range(elf.program_headers@),
{
    let ghost phs = elf.program_headers@;
    let mut first = usize::MAX;
    let mut last: usize = 0;
    let mut i: usize = 0;
    while i < elf.program_headers.len()
        invariant
            phs == elf.program_headers@,
            i <= phs.len(),
            ends_fit(phs),
            (first as int, last as int) == load_range(phs.subrange(0, i as int)),
        decreases phs.len() - i,
    {
        let ph = elf.program_headers[i];
        assert(phs.subrange(0, i + 1).drop_last() == phs.subrange(0, i as int));
        if ph.p_type == PT_LOAD {
            assert(is_load(phs[i as int]));
            let start = ph.p_vaddr as usize;
            let end = (ph.p_vaddr + ph.p_memsz) as usize;
            first = if last <= start { last } else { start };
            last = if last >= end { last } else { end };
        }
        i = i + 1;
    }
    assert(phs.subrange(0, phs.len() as int) == phs);
    (first, last)
}

/// Number of UEFI pages that cover the bytes from `first` up to `last`.
pub open spec fn page_count(first: int, last: int) -> int {
    (last - first + EFI_PAGE_SIZE - 1) / (EFI_PAGE_SIZE as int)
}

/// Number of pages to allocate for a kernel that occupies [first, last).
pub fn kernel_page_count(first: usize, last: usize) -> (n: usize)
    requires
        first <= last,
        last - first + EFI_PAGE_SIZE <= usize::MAX,
    ensures
        n == page_count(first as int, last as int),
        n * 0x1000 >= last - first,
        n * 0x1000 < last - first + 0x1000,
{
    proof {
        lemma_page_count(first as int, last as int);
    }
    (last - first + EFI_PAGE_SIZE - 1) / EFI_PAGE_SIZE
}

/// The pages hold the whole range, and one page fewer would not.
pub proof fn lemma_page_count(first: int, last: int)
    requires
        first <= last,
    ensures
        page_count(first, last) * 0x1000 >= last - first,
        page_count(first, last) * 0x1000 < last - first + 0x1000,
{
    let d = last - first;
    let n = (d + 0xfff) / 0x1000;
    assert(n * 0x1000 <= d + 0xfff && d + 0xfff < n * 0x1000 + 0x1000) by (nonlinear_arith)
        requires
            d >= 0,
            n == (d + 0xfff) / 0x1000,
    ;
}

/// A loadable segment can be copied: its file bytes lie inside the file and
/// are no more than its size in memory.
pub open spec fn segment_in_file(ph: ProgramHeader, file_len: int) -> bool {
    is_load(ph) ==> ph.p_filesz <= ph.p_memsz && ph.p_offset + ph.p_filesz <= file_len
}

/// A loadable segment lies inside the memory window of `mem_len` bytes that
/// starts at address `base`.
pub open spec fn segment_in_memory(ph: ProgramHeader, base: int, mem_len: int) -> bool {
    is_load(ph) ==> base <= ph.p_vaddr && ph.p_vaddr + ph.p_memsz <= base + mem_len
}

pub open spec fn all_in_file(phs: Seq<ProgramHeader>, file_len: int) -> bool {
    forall|i: int| 0 <= i < phs.len() ==> segment_in_file(#[trigger] phs[i], file_len)
}

pub open spec fn all_in_memory(phs: Seq<ProgramHeader>, base: int, mem_len: int) -> bool {
    forall|i: int| 0 <= i < phs.len() ==> segment_in_memory(#[trigger] phs[i], base, mem_len)
}

/// The memory window `mem`, which starts at address `base`, after the
/// segment `ph` of the file `src` is loaded: its file bytes, then zeros up
/// to its size in memory.
pub open spec fn load_segment(mem: Seq<u8>, base: int, ph: ProgramHeader, src: Seq<u8>) -> Seq<u8> {
    let start = ph.p_vaddr - base;
    Seq::new(
        mem.len(),
        |i: int|
            if start <= i < start + ph.p_filesz {
                src[ph.p_offset + (i - start)]
            } else if start + ph.p_filesz <= i < start + ph.p_memsz {
                0u8
            } else {
                mem[i]
            },
    )
}

/// The memory window after the loadable segments are loaded in header order.
pub open spec fn load_segments(mem: Seq<u8>, base: int, phs: Seq<ProgramHeader>, src: Seq<u8>) -> Seq<u8>
    decreases phs.len(),
{
    if phs.len() == 0 {
        mem
    } else {
        let prev = load_segments(mem, base, phs.drop_last(), src);
        if is_load(phs.last()) {
            load_segment(prev, base, phs.last(), src)
        } else {
            prev
        }
    }
}

/// Byte `i` of a memory window starting at `base` lies in the loadable segment `ph`.
pub open spec fn in_segment(ph: ProgramHeader, base: int, i: int) -> bool {
    is_load(ph) && ph.p_vaddr - base <= i < ph.p_vaddr - base + ph.p_memsz
}

/// No byte lies in two loadable segments.
pub open spec fn segments_disjoint(phs: Seq<ProgramHeader>, base: int) -> bool {
    forall|a: int, b: int, i: int|
        0 <= a < phs.len() && 0 <= b < phs.len() && a != b && #[trigger] in_segment(phs[a], base, i)
            ==> !#[trigger] in_segment(phs[b], base, i)
}

/// Loading keeps the length of the window.
pub proof fn lemma_load_len(mem: Seq<u8>, base: int, phs: Seq<ProgramHeader>, src: Seq<u8>)
    ensures
        load_segments(mem, base, phs, src).len() == mem.len(),
    decreases phs.len(),
{
    if phs.len() > 0 {
        lemma_load_len(mem, base, phs.drop_last(), src);
    }
}

/// Loading leaves every byte that lies in no loadable segment as it was.
pub proof fn lemma_load_outside(mem: Seq<u8>, base: int, phs: Seq<ProgramHeader>, src: Seq<u8>, i: int)
    requires
        all_in_file(phs, src.len() as int),
        0 <= i < mem.len(),
        forall|k: int| 0 <= k < phs.len() ==> !#[trigger] in_segment(phs[k], base, i),
    ensures
        load_segments(mem, base, phs, src).len() == mem.len(),
        load_segments(mem, base, phs, src)[i] == mem[i],
    decreases phs.len(),
{
    lemma_load_len(mem, base, phs, src);
    if phs.len() > 0 {
        let prev = phs.drop_last();
        assert forall|k: int| 0 <= k < prev.len() implies !#[trigger] in_segment(prev[k], base, i) by {
            assert(prev[k] == phs[k]);
        }
        assert forall|k: int| 0 <= k < prev.len() implies segment_in_file(#[trigger] prev[k], src.len() as int) by {
            assert(prev[k] == phs[k]);
        }
        lemma_load_outside(mem, base, prev, src, i);
        lemma_load_len(mem, base, prev, src);
        let n = phs.len() - 1;
        assert(!in_segment(phs[n], base, i));
        assert(segment_in_file(phs[n], src.len() as int));
        let pm = load_segments(mem, base, prev, src);
        assert(phs.last() == phs[n]);
        if is_load(phs[n]) {
            assert(load_segments(mem, base, phs, src) == load_segment(pm, base, phs[n], src));
        } else {
            assert(load_segments(mem, base, phs, src) == pm);
        }
    }
}

/// Where the loadable segments do not overlap, every byte of a loadable
/// segment holds, after loading, the segment's file byte at that offset, or
/// 0 past the segment's file size.
pub proof fn lemma_load_inside(
    mem: Seq<u8>,
    base: int,
    phs: Seq<ProgramHeader>,
    src: Seq<u8>,
    k: int,
    i: int,
)
    requires
        all_in_file(phs, src.len() as int),
        segments_disjoint(phs, base),
        0 <= k < phs.len(),
        0 <= i < mem.len(),
        in_segment(phs[k], base, i),
    ensures
        load_segments(mem, base, phs, src)[i] == (if i - (phs[k].p_vaddr - base) < phs[k].p_filesz {
            src[phs[k].p_offset + (i - (phs[k].p_vaddr - base))]
        } else {
            0u8
        }),
    decreases phs.len(),
{
    let prev = phs.drop_last();
    let n = phs.len() - 1;
    lemma_load_len(mem, base, prev, src);
    let pm = load_segments(mem, base, prev, src);
    assert(phs.last() == phs[n]);
    if is_load(phs[n]) {
        assert(load_segments(mem, base, phs, src) == load_segment(pm, base, phs[n], src));
    } else {
        assert(load_segments(mem, base, phs, src) == pm);
    }
    if k < n {
        assert(prev[k] == phs[k]);
        assert forall|a: int, b: int, j: int|
            0 <= a < prev.len() && 0 <= b < prev.len() && a != b && #[trigger] in_segment(
                prev[a],
                base,
                j,
            ) implies !#[trigger] in_segment(prev[b], base, j) by {
            assert(prev[a] == phs[a] && prev[b] == phs[b]);
        }
        assert forall|j: int| 0 <= j < prev.len() implies segment_in_file(#[trigger] prev[j], src.len() as int) by {
            assert(prev[j] == phs[j]);
        }
        lemma_load_inside(mem, base, prev, src, k, i);
        if is_load(phs[n]) {
            assert(!in_segment(phs[n], base, i));
            assert(segment_in_file(phs[n], src.len() as int));
        }
    } else {
        assert(segment_in_file(phs[n], src.len() as int));
    }
}

/// Copies every loadable segment of `src` to its address: the window `mem`
/// holds the memory that starts at address `base`.
pub fn copy_load_segments(elf: &ElfImage, src: &[u8], base: u64, mem: &mut [u8])
    requires
        all_in_file(elf.program_headers@, src@.len() as int),
        all_in_memory(elf.program_headers@, base as int, old(mem)@.len() as int),
    ensures
        final(mem)@ == load_segments(old(mem)@, base as int, elf.program_headers@, src@),
{
    let ghost phs = elf.program_headers@;
    let ghost m0 = mem@;
    let mut i: usize = 0;
    while i < elf.program_headers.len()
        invariant
            phs == elf.program_headers@,
            i <= phs.len(),
            all_in_file(phs, src@.len() as int),
            all_in_memory(phs, base as int, mem@.len() as int),
            mem@.len() == m0.len(),
            mem@ == load_segments(m0, base as int, phs.subrange(0, i as int), src@),
        decreases phs.len() - i,
    {
        let ph = elf.program_headers[i];
        assert(phs.subrange(0, i + 1).drop_last() == phs.subrange(0, i as int));
        assert(phs.subrange(0, i + 1).last() == ph);
        if ph.p_type == PT_LOAD {
            assert(segment_in_file(phs[i as int], src@.len() as int));
            assert(segment_in_memory(phs[i as int], base as int, mem@.len() as int));
            copy_segment(ph, src, base, mem);
        }
        i = i + 1;
    }
    assert(phs.subrange(0, phs.len() as int) == phs);
}

fn copy_segment(ph: ProgramHeader, src: &[u8], base: u64, mem: &mut [u8])
    requires
        is_load(ph),
        segment_in_file(ph, src@.len() as int),
        segment_in_memory(ph, base as int, old(mem)@.len() as int),
    ensures
        final(mem)@ == load_segment(old(mem)@, base as int, ph, src@),
{
    let ghost m0 = mem@;
    let ghost start = ph.p_vaddr - base;
    let mem_len = mem.len();
    let src_len = src.len();
    assert(start + ph.p_memsz <= mem_len && ph.p_offset + ph.p_filesz <= src_len);
    let dest = (ph.p_vaddr - base) as usize;
    let ofs = ph.p_offset as usize;
    let fsize = ph.p_filesz as usize;
    let msize = ph.p_memsz as usize;
    let mut j: usize = 0;
    while j < fsize
        invariant
            dest == start,
            ofs == ph.p_offset,
            fsize == ph.p_filesz,
            msize == ph.p_memsz,
            j <= fsize <= msize,
            dest + msize <= mem@.len(),
            ofs + fsize <= src@.len(),
            mem@.len() == m0.len(),
            mem@.len() == mem_len,
            src@.len() == src_len,
            forall|i: int|
                0 <= i < mem@.len() ==> #[trigger] mem@[i] == if dest <= i < dest + j {
                    src@[ofs + (i - dest)]
                } else {
                    m0[i]
                },
        decreases fsize - j,
    {
        mem[dest + j] = src[ofs + j];
        j = j + 1;
    }
    while j < msize
        invariant
            dest == start,
            ofs == ph.p_offset,
            fsize == ph.p_filesz,
            msize == ph.p_memsz,
            fsize <= j <= msize,
            dest + msize <= mem@.len(),
            ofs + fsize <= src@.len(),
            mem@.len() == m0.len(),
            mem@.len() == mem_len,
            src@.len() == src_len,
            forall|i: int|
                0 <= i < mem@.len() ==> #[trigger] mem@[i] == if dest <= i < dest + fsize {
                    src@[ofs + (i - dest)]
                } else if dest + fsize <= i < dest + j {
                    0u8
                } else {
                    m0[i]
                },
        decreases msize - j,
    {
        mem[dest + j] = 0;
        j = j + 1;
    }
    assert(mem@ =~= load_segment(m0, base as int, ph, src@));
}

/// Why a kernel image cannot be loaded.
#[derive(PartialEq, Eq, Structural, Debug, Clone, Copy)]
pub enum LoadError {
    /// goblin could not parse the file as ELF.
    InvalidElf,
    /// A segment's end address, or the size of the address range, does not
    /// fit in a `usize`.
    AddressOverflow,
    /// The file has no loadable segment, so it occupies no address range.
    NoLoadableSegment,
    /// A loadable segment's file bytes lie outside the file, or exceed its
    /// size in memory.
    SegmentOutsideFile,
}

/// What the boot loader needs to place a kernel in memory.
#[derive(Debug)]
pub struct KernelLoadPlan {
    /// Address of the kernel's entry point.
    pub entry: u64,
    /// Range the address scan computes (see `load_range`).
    pub first: usize,
    pub last: usize,
    /// Pages to allocate for [first, last).
    pub num_pages: usize,
    pub image: ElfImage,
}

pub open spec fn has_load(phs: Seq<ProgramHeader>) -> bool {
    exists|i: int| 0 <= i < phs.len() && is_load(#[trigger] phs[i])
}

/// The outcome of planning the load of a file of `file_len` bytes with
/// program headers `phs`: (first, last, number of pages), or the error.
pub open spec fn load_plan(phs: Seq<ProgramHeader>, file_len: int) -> Result<(int, int, int), LoadError> {
    if !ends_fit(phs) {
        Err(LoadError::AddressOverflow)
    } else if !has_load(phs) {
        Err(LoadError::NoLoadableSegment)
    } else if load_range(phs).1 - load_range(phs).0 + EFI_PAGE_SIZE > usize::MAX {
        Err(LoadError::AddressOverflow)
    } else if !all_in_file(phs, file_len) {
        Err(LoadError::SegmentOutsideFile)
    } else {
        Ok((load_range(phs).0, load_range(phs).1, page_count(load_range(phs).0, load_range(phs).1)))
    }
}

/// A successful plan's pages cover its range and no more: one page fewer
/// would leave part of [first, last) uncovered.
pub proof fn lemma_load_plan_pages_cover(phs: Seq<ProgramHeader>, file_len: int)
    ensures
        load_plan(phs, file_len) matches Ok(plan) ==> {
            let (first, last, pages) = plan;
            &&& first <= last
            &&& pages * 0x1000 >= last - first
            &&& pages * 0x1000 < last - first + 0x1000
        },
{
    lemma_load_range(phs);
    if load_plan(phs, file_len) is Ok {
        lemma_page_count(load_range(phs).0, load_range(phs).1);
    }
}

fn check_ends_fit(phs: &Vec<ProgramHeader>) -> (b: bool)
    ensures
        b == ends_fit(phs@),
{
    let mut i: usize = 0;
    while i < phs.len()
        invariant
            i <= phs@.len(),
            forall|j: int| 0 <= j < i && is_load(#[trigger] phs@[j]) ==> phs@[j].p_vaddr + phs@[j].p_memsz <= usize::MAX,
        decreases phs@.len() - i,
    {
        let ph = phs[i];
        if ph.p_type == PT_LOAD {
            if !(ph.p_memsz <= usize::MAX as u64 && ph.p_vaddr <= usize::MAX as u64 - ph.p_memsz) {
                assert(is_load(phs@[i as int]));
                return false;
            }
        }
        i = i + 1;
    }
    true
}

fn check_in_file(phs: &Vec<ProgramHeader>, file_len: usize) -> (b: bool)
    ensures
        b == all_in_file(phs@, file_len as int),
{
    let len = file_len as u64;
    let mut i: usize = 0;
    while i < phs.len()
        invariant
            len == file_len,
            i <= phs@.len(),
            forall|j: int| 0 <= j < i ==> segment_in_file(#[trigger] phs@[j], file_len as int),
        decreases phs@.len() - i,
    {
        let ph = phs[i];
        if ph.p_type == PT_LOAD {
            if !(ph.p_filesz <= ph.p_memsz && ph.p_filesz <= len && ph.p_offset <= len - ph.p_filesz) {
                assert(!segment_in_file(phs@[i as int], file_len as int));
                return false;
            }
        }
        i = i + 1;
    }
    true
}

/// Whether every loadable segment lies in the `mem_len` bytes of memory that
/// start at address `base`.
pub fn segments_fit_memory(elf: &ElfImage, base: u64, mem_len: usize) -> (b: bool)
    ensures
        b == all_in_memory(elf.program_headers@, base as int, mem_len as int),
{
    let len = mem_len as u64;
    let mut i: usize = 0;
    while i < elf.program_headers.len()
        invariant
            len == mem_len,
            i <= elf.program_headers@.len(),
            forall|j: int|
                0 <= j < i ==> segment_in_memory(#[trigger] elf.program_headers@[j], base as int, mem_len as int),
        decreases elf.program_headers@.len() - i,
    {
        let ph = elf.program_headers[i];
        if ph.p_type == PT_LOAD {
            if !(base <= ph.p_vaddr && ph.p_memsz <= len && ph.p_vaddr - base <= len - ph.p_memsz) {
                assert(!segment_in_memory(elf.program_headers@[i as int], base as int, mem_len as int));
                return false;
            }
        }
        i = i + 1;
    }
    true
}

/// Plans the load of a parsed kernel image read from a file of `file_len`
/// bytes: the address range it occupies and the pages it needs.
pub fn plan_from_image(image: ElfImage, file_len: usize) -> (r: Result<KernelLoadPlan, LoadError>)
    ensures
        r matches Ok(p) ==> p.entry == image.entry && p.image.entry == image.entry
            && p.image.program_headers@ == image.program_headers@
            && load_plan(image.program_headers@, file_len as int) == Ok::<(int, int, int), LoadError>(
            (p.first as int, p.last as int, p.num_pages as int),
        ),
        r matches Err(e) ==> load_plan(image.program_headers@, file_len as int) == Err::<
            (int, int, int),
            LoadError,
        >(e),
        r matches Ok(p) ==> p.first <= p.last && p.num_pages * 0x1000 >= p.last - p.first
            && p.num_pages * 0x1000 < p.last - p.first + 0x1000,
{
    let ghost phs = image.program_headers@;
    proof {
        lemma_load_range(phs);
    }
    if !check_ends_fit(&image.program_headers) {
        return Err(LoadError::AddressOverflow);
    }
    let (first, last) = calc_load_address_range(&image);
    if first > last {
        return Err(LoadError::NoLoadableSegment);
    }
    if last - first > usize::MAX - EFI_PAGE_SIZE {
        return Err(LoadError::AddressOverflow);
    }
    if !check_in_file(&image.program_headers, file_len) {
        return Err(LoadError::SegmentOutsideFile);
    }
    let num_pages = kernel_page_count(first, last);
    Ok(KernelLoadPlan { entry: image.entry, first, last, num_pages, image })
}

/// Parses the kernel file with goblin and plans its load.
pub fn plan_kernel_load(bytes: &[u8]) -> (r: Result<KernelLoadPlan, LoadError>)
    ensures
        elf_parse(bytes@) is None ==> r == Err::<KernelLoadPlan, LoadError>(LoadError::InvalidElf),
        elf_parse(bytes@) matches Some(parsed) ==> {
            &&& r matches Ok(p) ==> p.entry == parsed.0 && p.image.entry == parsed.0
                && p.image.program_headers@ == parsed.1
                && load_plan(parsed.1, bytes@.len() as int) == Ok::<(int, int, int), LoadError>(
                (p.first as int, p.last as int, p.num_pages as int),
            )
            &&& r matches Err(e) ==> load_plan(parsed.1, bytes@.len() as int) == Err::<
                (int, int, int),
                LoadError,
            >(e)
        },
        r matches Ok(p) ==> p.first <= p.last && p.num_pages * 0x1000 >= p.last - p.first
            && p.num_pages * 0x1000 < p.last - p.first + 0x1000,
{
    match parse_elf(bytes) {
        Ok(image) => plan_from_image(image, bytes.len()),
        Err(_) => Err(LoadError::InvalidElf),
    }
}

} // verus!
