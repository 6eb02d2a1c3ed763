use vstd::prelude::*;
use vstd::string::StringSliceAdditionalSpecFns;

verus! {

/// The fields of a UEFI memory descriptor that the memory map file shows.
#[derive(PartialEq, Eq, Structural, Debug, Clone, Copy)]
pub struct MemoryDescriptor {
    /// The memory type's number.
    pub ty: u32,
    /// First physical address of the range.
    pub phys_start: u64,
    /// Number of 4 KiB pages in the range.
    pub page_count: u64,
    /// The attribute bits of the range.
    pub att: u64,
}

/// The first line of the memory map file.
pub const MEMORY_MAP_HEADER: &'static str = "Index, Type, Type(name), PhysicalStart, NumberOfPages, Attribute\n";

/// Only the low 20 attribute bits are shown.
pub const ATTRIBUTE_MASK: u64 = 0xfffff;

/// The ASCII character of a digit below 16, in lower case.
pub open spec fn digit_char(d: int) -> u8 {
    if d < 10 {
        (48 + d) as u8
    } else {
        (87 + d) as u8
    }
}

/// `n` in decimal, without leading zeros ("0" for zero).
pub open spec fn decimal(n: nat) -> Seq<u8>
    decreases n,
{
    if n < 10 {
        seq![digit_char(n as int)]
    } else {
        decimal(n / 10).push(digit_char((n % 10) as int))
    }
}

/// `n` in lower-case hexadecimal, without leading zeros ("0" for zero).
pub open spec fn hex(n: nat) -> Seq<u8>
    decreases n,
{
    if n < 16 {
        seq![digit_char(n as int)]
    } else {
        hex(n / 16).push(digit_char((n % 16) as int))
    }
}

/// `s` with '0' characters in front up to `width` characters.
pub open spec fn zero_padded(s: Seq<u8>, width: nat) -> Seq<u8> {
    if s.len() >= width {
        s
    } else {
        Seq::new((width - s.len()) as nat, |i: int| 48u8) + s
    }
}

pub open spec fn separator() -> Seq<u8> {
    seq![44u8, 32u8]
}

/// The line of the memory map file for descriptor `d` at position `index`,
/// where `kind_name` is the printed name of its memory type: the index in
/// decimal, the type number in hex, the type name, the start address in hex
/// padded to eight digits, the page count in hex and the masked attribute
/// bits in hex, separated by ", " and ended by a line feed.
pub open spec fn memory_map_line_bytes(index: nat, d: MemoryDescriptor, kind_name: Seq<u8>) -> Seq<u8> {
    decimal(index) + separator() + hex(d.ty as nat) + separator() + kind_name + separator()
        + zero_padded(hex(d.phys_start as nat), 8) + separator() + hex(d.page_count as nat)
        + separator() + hex((d.att & ATTRIBUTE_MASK) as nat) + seq![10u8]
}

fn digit(d: u64) -> (c: u8)
    requires
        d < 16,
    ensures
        c == digit_char(d as int),
{
    if d < 10 {
        (48 + d) as u8
    } else {
        (87 + d) as u8
    }
}

/// Appends `n` in decimal.
pub fn push_decimal(out: &mut Vec<u8>, n: u64)
    ensures
        final(out)@ == old(out)@ + decimal(n as nat),
    decreases n,
{
    if n >= 10 {
        push_decimal(out, n / 10);
    }
    out.push(digit(n % 10));
}

/// Appends `n` in lower-case hexadecimal.
pub fn push_hex(out: &mut Vec<u8>, n: u64)
    ensures
        final(out)@ == old(out)@ + hex(n as nat),
    decreases n,
{
    if n >= 16 {
        push_hex(out, n / 16);
    }
    out.push(digit(n % 16));
}

/// Appends `n` in lower-case hexadecimal, padded with zeros to eight digits.
pub fn push_hex_padded8(out: &mut Vec<u8>, n: u64)
    ensures
        final(out)@ == old(out)@ + zero_padded(hex(n as nat), 8),
{
    let mut digits: Vec<u8> = Vec::new();
    push_hex(&mut digits, n);
    let mut k = digits.len();
    while k < 8
        invariant
            digits@ == hex(n as nat),
            digits@.len() <= k <= 8 || (k == digits@.len() && k >= 8),
            out@ == old(out)@ + Seq::new((k - digits@.len()) as nat, |i: int| 48u8),
        decreases 8 - k,
    {
        out.push(48);
        k = k + 1;
        assert(out@ =~= old(out)@ + Seq::new((k - digits@.len()) as nat, |i: int| 48u8));
    }
    append_bytes(out, &digits);
    assert(out@ =~= old(out)@ + zero_padded(hex(n as nat), 8));
}

/// Appends the bytes of `bytes`.
pub fn append_bytes(out: &mut Vec<u8>, bytes: &[u8])
    ensures
        final(out)@ == old(out)@ + bytes@,
{
    let mut i: usize = 0;
    while i < bytes.len()
        invariant
            i <= bytes@.len(),
            out@ == old(out)@ + bytes@.subrange(0, i as int),
        decreases bytes@.len() - i,
    {
        out.push(bytes[i]);
        i = i + 1;
        assert(out@ =~= old(out)@ + bytes@.subrange(0, i as int));
    }
    assert(bytes@.subrange(0, bytes@.len() as int) =~= bytes@);
}

fn push_separator(out: &mut Vec<u8>)
    ensures
        final(out)@ == old(out)@ + separator(),
{
    out.push(44);
    out.push(32);
    assert(out@ =~= old(out)@ + separator());
}

/// The line of the memory map file for descriptor `d` at position `index`,
/// given the printed name of its memory type.
pub fn memory_map_line(index: usize, d: &MemoryDescriptor, kind_name: &[u8]) -> (line: Vec<u8>)
    ensures
        line@ == memory_map_line_bytes(index as nat, *d, kind_name@),
{
    let mut line: Vec<u8> = Vec::new();
    push_decimal(&mut line, index as u64);
    push_separator(&mut line);
    push_hex(&mut line, d.ty as u64);
    push_separator(&mut line);
    append_bytes(&mut line, kind_name);
    push_separator(&mut line);
    push_hex_padded8(&mut line, d.phys_start);
    push_separator(&mut line);
    push_hex(&mut line, d.page_count);
    push_separator(&mut line);
    push_hex(&mut line, d.att & ATTRIBUTE_MASK);
    line.push(10);
    assert(line@ =~= memory_map_line_bytes(index as nat, *d, kind_name@));
    line
}

/// The text that uefi's `Debug` for `MemoryType` writes for type number
/// `ty`, as bytes: the name of the constant for the numbers 0 to 16, and
/// otherwise `MemoryType(n)` with `n` in decimal.
pub open spec fn memory_type_text(ty: u32) -> Seq<u8> {
    if ty == 0 {
        "RESERVED".spec_bytes()
    } else if ty == 1 {
        "LOADER_CODE".spec_bytes()
    } else if ty == 2 {
        "LOADER_DATA".spec_bytes()
    } else if ty == 3 {
        "BOOT_SERVICES_CODE".spec_bytes()
    } else if ty == 4 {
        "BOOT_SERVICES_DATA".spec_bytes()
    } else if ty == 5 {
        "RUNTIME_SERVICES_CODE".spec_bytes()
    } else if ty == 6 {
        "RUNTIME_SERVICES_DATA".spec_bytes()
    } else if ty == 7 {
        "CONVENTIONAL".spec_bytes()
    } else if ty == 8 {
        "UNUSABLE".spec_bytes()
    } else if ty == 9 {
        "ACPI_RECLAIM".spec_bytes()
    } else if ty == 10 {
        "ACPI_NON_VOLATILE".spec_bytes()
    } else if ty == 11 {
        "MMIO".spec_bytes()
    } else if ty == 12 {
        "MMIO_PORT_SPACE".spec_bytes()
    } else if ty == 13 {
        "PAL_CODE".spec_bytes()
    } else if ty == 14 {
        "PERSISTENT_MEMORY".spec_bytes()
    } else if ty == 15 {
        "UNACCEPTED".spec_bytes()
    } else if ty == 16 {
        "MAX".spec_bytes()
    } else {
        "MemoryType(".spec_bytes() + decimal(ty as nat) + ")".spec_bytes()
    }
}

/// Formats `uefi::boot::MemoryType(ty)` with `Debug` and returns the bytes.
/// The contract claims what uefi's `newtype_enum!` writes: the constant's
/// name for a known number, otherwise the tuple form with the number in
/// decimal.
#[verifier::external_body]
fn memory_type_name(ty: u32) -> (name: Vec<u8>)
    ensures
        name@ == memory_type_text(ty),
{
    format!("{:?}", uefi::boot::MemoryType(ty)).into_bytes()
}

/// The lines of the memory map file for the descriptors, in order, each
/// numbered by its position.
pub open spec fn memory_map_body(descs: Seq<MemoryDescriptor>) -> Seq<u8>
    decreases descs.len(),
{
    if descs.len() == 0 {
        Seq::empty()
    } else {
        memory_map_body(descs.drop_last()) + memory_map_line_bytes(
            (descs.len() - 1) as nat,
            descs.last(),
            memory_type_text(descs.last().ty),
        )
    }
}

/// The line of the memory map file for descriptor `d` at position `index`.
pub fn memory_map_entry(index: usize, d: &MemoryDescriptor) -> (line: Vec<u8>)
    ensures
        line@ == memory_map_line_bytes(index as nat, *d, memory_type_text(d.ty)),
{
    let name = memory_type_name(d.ty);
    memory_map_line(index, d, name.as_slice())
}

/// The whole memory map file: the header line, then one line per descriptor.
pub fn memory_map_file(descs: &[MemoryDescriptor]) -> (file: Vec<u8>)
    ensures
        file@ == MEMORY_MAP_HEADER.spec_bytes() + memory_map_body(descs@),
{
    let mut file: Vec<u8> = Vec::new();
    append_bytes(&mut file, MEMORY_MAP_HEADER.as_bytes());
    let mut i: usize = 0;
    while i < descs.len()
        invariant
            i <= descs@.len(),
            file@ == MEMORY_MAP_HEADER.spec_bytes() + memory_map_body(descs@.subrange(0, i as int)),
        decreases descs@.len() - i,
    {
        let line = memory_map_entry(i, &descs[i]);
        append_bytes(&mut file, line.as_slice());
        assert(descs@.subrange(0, i + 1).drop_last() =~= descs@.subrange(0, i as int));
        assert(file@ =~= MEMORY_MAP_HEADER.spec_bytes() + memory_map_body(descs@.subrange(0, i + 1)));
        i = i + 1;
    }
    assert(descs@.subrange(0, descs@.len() as int) =~= descs@);
    file
}

/// The value of a digit character (0-9, a-f), or -1 for another byte.
pub open spec fn digit_value(c: u8) -> int {
    if 48 <= c <= 57 {
        c - 48
    } else if 97 <= c <= 102 {
        c - 87
    } else {
        -1
    }
}

/// The number that a text of lower-case hexadecimal digits writes.
pub open spec fn hex_value(t: Seq<u8>) -> int
    decreases t.len(),
{
    if t.len() == 0 {
        0
    } else {
        hex_value(t.drop_last()) * 16 + digit_value(t.last())
    }
}

/// The number that a text of decimal digits writes.
pub open spec fn decimal_value(t: Seq<u8>) -> int
    decreases t.len(),
{
    if t.len() == 0 {
        0
    } else {
        decimal_value(t.drop_last()) * 10 + digit_value(t.last())
    }
}

/// A non-empty text of lower-case hexadecimal digits.
pub open spec fn is_hex_text(t: Seq<u8>) -> bool {
    t.len() > 0 && forall|i: int| 0 <= i < t.len() ==> (48 <= #[trigger] t[i] <= 57 || 97 <= t[i] <= 102)
}

/// A non-empty text of decimal digits.
pub open spec fn is_decimal_text(t: Seq<u8>) -> bool {
    t.len() > 0 && forall|i: int| 0 <= i < t.len() ==> 48 <= #[trigger] t[i] <= 57
}

/// The hexadecimal text of `n` is made of hexadecimal digits and reads back as `n`.
pub proof fn lemma_hex_reads_back(n: nat)
    ensures
        is_hex_text(hex(n)),
        hex_value(hex(n)) == n,
    decreases n,
{
    if n >= 16 {
        lemma_hex_reads_back(n / 16);
        let t = hex(n / 16).push(digit_char((n % 16) as int));
        assert(t.drop_last() =~= hex(n / 16));
        assert(t.last() == digit_char((n % 16) as int));
        assert(digit_value(digit_char((n % 16) as int)) == n % 16);
        assert((n / 16) * 16 + n % 16 == n);
        assert(hex(n) == t);
        assert(hex_value(t) == hex_value(t.drop_last()) * 16 + digit_value(t.last()));
        assert forall|i: int| 0 <= i < t.len() implies (48 <= #[trigger] t[i] <= 57 || 97 <= t[i] <= 102) by {
            if i < t.len() - 1 {
                assert(t[i] == hex(n / 16)[i]);
            }
        }
    } else {
        assert(hex(n) =~= seq![digit_char(n as int)]);
        assert(hex(n).drop_last() =~= Seq::<u8>::empty());
        assert(digit_value(digit_char(n as int)) == n);
        assert(hex_value(hex(n)) == hex_value(hex(n).drop_last()) * 16 + digit_value(hex(n).last()));
    }
}

/// The decimal text of `n` is made of decimal digits and reads back as `n`.
pub proof fn lemma_decimal_reads_back(n: nat)
    ensures
        is_decimal_text(decimal(n)),
        decimal_value(decimal(n)) == n,
    decreases n,
{
    if n >= 10 {
        lemma_decimal_reads_back(n / 10);
        let t = decimal(n / 10).push(digit_char((n % 10) as int));
        assert(t.drop_last() =~= decimal(n / 10));
        assert(t.last() == digit_char((n % 10) as int));
        assert(digit_value(digit_char((n % 10) as int)) == n % 10);
        assert((n / 10) * 10 + n % 10 == n);
        assert(decimal(n) == t);
        assert(decimal_value(t) == decimal_value(t.drop_last()) * 10 + digit_value(t.last()));
        assert forall|i: int| 0 <= i < t.len() implies 48 <= #[trigger] t[i] <= 57 by {
            if i < t.len() - 1 {
                assert(t[i] == decimal(n / 10)[i]);
            }
        }
    } else {
        assert(decimal(n) =~= seq![digit_char(n as int)]);
        assert(decimal(n).drop_last() =~= Seq::<u8>::empty());
        assert(digit_value(digit_char(n as int)) == n);
        assert(decimal_value(decimal(n)) == decimal_value(decimal(n).drop_last()) * 10 + digit_value(decimal(n).last()));
    }
}

proof fn lemma_hex_value_zeros(k: nat, t: Seq<u8>)
    ensures
        hex_value(Seq::new(k, |i: int| 48u8) + t) == hex_value(t),
    decreases t.len(), k,
{
    let z = Seq::new(k, |i: int| 48u8);
    if t.len() == 0 {
        assert(z + t =~= z);
        if k > 0 {
            assert(z.drop_last() =~= Seq::new((k - 1) as nat, |i: int| 48u8));
            lemma_hex_value_zeros((k - 1) as nat, t);
            assert(Seq::new((k - 1) as nat, |i: int| 48u8) + t =~= Seq::new((k - 1) as nat, |i: int| 48u8));
        }
    } else {
        assert((z + t).drop_last() =~= z + t.drop_last());
        assert((z + t).last() == t.last());
        lemma_hex_value_zeros(k, t.drop_last());
    }
}

/// The address field has at least eight hexadecimal digits and reads back
/// as the address.
pub proof fn lemma_padded_hex_reads_back(n: nat)
    ensures
        is_hex_text(zero_padded(hex(n), 8)),
        zero_padded(hex(n), 8).len() >= 8,
        hex_value(zero_padded(hex(n), 8)) == n,
{
    lemma_hex_reads_back(n);
    let h = hex(n);
    if h.len() < 8 {
        let z = Seq::new((8 - h.len()) as nat, |i: int| 48u8);
        lemma_hex_value_zeros((8 - h.len()) as nat, h);
        assert forall|i: int| 0 <= i < (z + h).len() implies (48 <= #[trigger] (z + h)[i] <= 57 || 97
            <= (z + h)[i] <= 102) by {
            if i >= z.len() {
                assert((z + h)[i] == h[i - z.len()]);
            }
        }
    }
}

/// A line of the memory map file is six fields separated by ", " and ended
/// by a line feed: the index, the type number, the type name, the start
/// address with at least eight digits, the page count and the low 20
/// attribute bits; each number field reads back as its number.
pub proof fn lemma_line_fields(index: nat, d: MemoryDescriptor, kind_name: Seq<u8>)
    ensures
        memory_map_line_bytes(index, d, kind_name) == decimal(index) + separator() + hex(d.ty as nat)
            + separator() + kind_name + separator() + zero_padded(hex(d.phys_start as nat), 8)
            + separator() + hex(d.page_count as nat) + separator() + hex((d.att & ATTRIBUTE_MASK) as nat)
            + seq![10u8],
        decimal_value(decimal(index)) == index,
        hex_value(hex(d.ty as nat)) == d.ty,
        hex_value(zero_padded(hex(d.phys_start as nat), 8)) == d.phys_start,
        hex_value(hex(d.page_count as nat)) == d.page_count,
        hex_value(hex((d.att & ATTRIBUTE_MASK) as nat)) == d.att % 0x100000,
        separator() == seq![44u8, 32u8],
{
    lemma_decimal_reads_back(index);
    lemma_hex_reads_back(d.ty as nat);
    lemma_padded_hex_reads_back(d.phys_start as nat);
    lemma_hex_reads_back(d.page_count as nat);
    lemma_hex_reads_back((d.att & ATTRIBUTE_MASK) as nat);
    let a = d.att;
    assert(a & 0xfffff == a % 0x100000) by (bit_vector);
}

/// The file body has one line per descriptor: adding a descriptor at the
/// end adds exactly its line, numbered by its position, whatever the
/// descriptors before it; no descriptors give no lines.
pub proof fn lemma_body_one_line_each(descs: Seq<MemoryDescriptor>, d: MemoryDescriptor)
    ensures
        memory_map_body(Seq::empty()) == Seq::<u8>::empty(),
        memory_map_body(descs.push(d)) == memory_map_body(descs) + memory_map_line_bytes(
            descs.len(),
            d,
            memory_type_text(d.ty),
        ),
{
    assert(descs.push(d).drop_last() =~= descs);
    assert(descs.push(d).last() == d);
}

} // verus!
