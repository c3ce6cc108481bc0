//! What the loader reads of an ELF image: the header fields that locate
//! the program headers, and the program headers themselves.

use vstd::prelude::*;
use xmas_elf::program::Type;

verus! {

/// The fields of an ELF header that locate the program headers.
#[derive(Clone, Copy, PartialEq, Eq, Structural, Debug)]
pub struct ElfHeader {
    /// Offset of the program header table in the image.
    pub ph_offset: u64,
    /// Size of one program header.
    pub ph_entry_size: u16,
    /// Number of program headers.
    pub ph_count: u16,
}

/// The kind of a program header.
#[derive(Clone, Copy, PartialEq, Eq, Structural, Debug)]
pub enum SegmentType {
    Null,
    Load,
    Dynamic,
    Interp,
    Note,
    ShLib,
    Phdr,
    Tls,
    GnuRelro,
    OsSpecific,
    ProcessorSpecific,
}

/// The placement of a segment: where it lies in the image and in the
/// address space, and what access it asks for.
#[derive(Clone, Copy, PartialEq, Eq, Structural, Debug)]
pub struct SegmentPlace {
    pub offset: u64,
    pub file_size: u64,
    pub virtual_addr: u64,
    pub mem_size: u64,
    pub read: bool,
    pub write: bool,
    pub execute: bool,
}

/// One program header as the loader uses it.
#[derive(Clone, Copy, PartialEq, Eq, Structural, Debug)]
pub struct ProgramSegment {
    pub kind: SegmentType,
    pub place: SegmentPlace,
}

/// What `xmas_elf::ElfFile::new` makes of an image, reduced to the
/// fields of `ElfHeader`; `None` where it refuses the image. `xmas_elf`
/// reads the fields in the byte order of the machine, so this and the
/// two names below are functions of the bytes on machines of one byte
/// order, as those that this kernel runs on are.
pub uninterp spec fn elf_header(image: Seq<u8>) -> Option<ElfHeader>;

/// The type that `xmas_elf` reads from program header `index` of an
/// image; `None` where it finds no such header or no known type.
pub uninterp spec fn elf_segment_type(image: Seq<u8>, index: u16) -> Option<SegmentType>;

/// The placement that `xmas_elf` reads from program header `index` of an
/// image; `None` where it finds no such header.
pub uninterp spec fn elf_segment_place(image: Seq<u8>, index: u16) -> Option<SegmentPlace>;

/// Whether program header `index` of an image with header `h` lies
/// within the image, is large enough for a 64-bit program header and
/// starts at a multiple of eight bytes. The program headers of a 32-bit
/// image are smaller than that, so no 32-bit image is in bounds: the
/// kernel loads 64-bit programs only.
pub open spec fn header_in_bounds(h: ElfHeader, len: int, index: u16) -> bool {
    &&& index < h.ph_count
    &&& h.ph_offset > 0
    &&& h.ph_entry_size >= 56
    &&& h.ph_offset % 8 == 0
    &&& h.ph_entry_size % 8 == 0
    &&& h.ph_offset + (index + 1) * h.ph_entry_size <= len
}

/// The bytes of an ELF image in a buffer of their own, where they start
/// at an address that is a multiple of eight. Only `read_header` makes
/// one.
pub struct AlignedImage {
    buf: Vec<u8>,
    start: usize,
    end: usize,
}

impl AlignedImage {
    /// The bytes lie within the buffer.
    pub closed spec fn wf(&self) -> bool {
        self.start <= self.end <= self.buf@.len()
    }

    /// The bytes of the image.
    pub closed spec fn bytes(&self) -> Seq<u8> {
        self.buf@.subrange(self.start as int, self.end as int)
    }
}

/// Parses the ELF header with `xmas_elf::ElfFile::new` and hands out
/// the location of the program header table. `xmas_elf` reads the
/// header structures in place and asserts that they are aligned, so the
/// image is first copied into a buffer seven bytes longer, from the
/// first address in it that is a multiple of eight, and `xmas_elf` gets
/// the copy, which is handed out for the program headers to be read
/// from. The length of the buffer and the place of the copy in it are
/// computed in this body, which is not verified. The header is taken on
/// trust to be a function of the image's bytes.
#[verifier::external_body]
fn read_header(image: &[u8]) -> (r: Option<(ElfHeader, AlignedImage)>)
    ensures
        match elf_header(image@) {
            Some(h) => r.is_some() && r.unwrap().0 == h && r.unwrap().1.wf() && r.unwrap().1.bytes()
                == image@,
            None => r.is_none(),
        },
{
    let mut buf = vec![0u8; image.len() + 7];
    let start = (8 - buf.as_ptr() as usize % 8) % 8;
    let end = start + image.len();
    buf[start..end].copy_from_slice(image);
    let header = match xmas_elf::ElfFile::new(&buf[start..end]) {
        Ok(elf) => ElfHeader {
            ph_offset: elf.header.pt2.ph_offset(),
            ph_entry_size: elf.header.pt2.ph_entry_size(),
            ph_count: elf.header.pt2.ph_count(),
        },
        Err(_) => return None,
    };
    Some((header, AlignedImage { buf, start, end }))
}

/// Reads the type of program header `index` with
/// `xmas_elf::ElfFile::program_header` and `ProgramHeader::get_type`.
/// `xmas_elf` slices the image at the header's place without a check
/// and asserts an aligned structure of 56 bytes at most there, so the
/// caller shows that the header lies in the image, is that large and
/// starts at a multiple of eight bytes from the start of the image,
/// which itself starts at such an address. The result is taken on trust
/// to be a function of the image's bytes and the index.
#[verifier::external_body]
fn read_segment_type(image: &AlignedImage, index: u16) -> (r: Option<SegmentType>)
    requires
        image.wf(),
        elf_header(image.bytes()).is_some(),
        header_in_bounds(elf_header(image.bytes()).unwrap(), image.bytes().len() as int, index),
    ensures
        r == elf_segment_type(image.bytes(), index),
{
    let elf = xmas_elf::ElfFile::new(&image.buf[image.start..image.end]).ok()?;
    Some(match elf.program_header(index).ok()?.get_type().ok()? {
        Type::Null => SegmentType::Null,
        Type::Load => SegmentType::Load,
        Type::Dynamic => SegmentType::Dynamic,
        Type::Interp => SegmentType::Interp,
        Type::Note => SegmentType::Note,
        Type::ShLib => SegmentType::ShLib,
        Type::Phdr => SegmentType::Phdr,
        Type::Tls => SegmentType::Tls,
        Type::GnuRelro => SegmentType::GnuRelro,
        Type::OsSpecific(_) => SegmentType::OsSpecific,
        Type::ProcessorSpecific(_) => SegmentType::ProcessorSpecific,
    })
}

/// Reads the placement of program header `index` with
/// `xmas_elf::ElfFile::program_header` and the getters of
/// `ProgramHeader` and `Flags`, under the same conditions as
/// `read_segment_type`. The result is taken on trust to be a function of
/// the image's bytes and the index.
#[verifier::external_body]
fn read_segment_place(image: &AlignedImage, index: u16) -> (r: Option<SegmentPlace>)
    requires
        image.wf(),
        elf_header(image.bytes()).is_some(),
        header_in_bounds(elf_header(image.bytes()).unwrap(), image.bytes().len() as int, index),
    ensures
        r == elf_segment_place(image.bytes(), index),
{
    let elf = xmas_elf::ElfFile::new(&image.buf[image.start..image.end]).ok()?;
    let ph = elf.program_header(index).ok()?;
    Some(SegmentPlace {
        offset: ph.offset(),
        file_size: ph.file_size(),
        virtual_addr: ph.virtual_addr(),
        mem_size: ph.mem_size(),
        read: ph.flags().is_read(),
        write: ph.flags().is_write(),
        execute: ph.flags().is_execute(),
    })
}

/// The program headers of an image as the loader sees them: `None`
/// where the header is refused, a program header lies out of bounds, or
/// a program header has no known type.
pub open spec fn elf_segments(image: Seq<u8>) -> Option<Seq<ProgramSegment>> {
    match elf_header(image) {
        None => None,
        Some(h) => if forall|i: u16|
            i < h.ph_count ==> {
                &&& header_in_bounds(h, image.len() as int, i)
                &&& (#[trigger] elf_segment_type(image, i)).is_some()
                &&& elf_segment_place(image, i).is_some()
            } {
            Some(
                Seq::new(
                    h.ph_count as nat,
                    |i: int|
                        ProgramSegment {
                            kind: elf_segment_type(image, i as u16).unwrap(),
                            place: elf_segment_place(image, i as u16).unwrap(),
                        },
                ),
            )
        } else {
            None
        },
    }
}

/// Reads the program headers of an image.
pub fn read_segments(bytes: &[u8]) -> (r: Option<Vec<ProgramSegment>>)
    ensures
        match elf_segments(bytes@) {
            Some(s) => r.is_some() && r.unwrap()@ == s,
            None => r.is_none(),
        },
{
    let (h, copy) = match read_header(bytes) {
        Some(read) => read,
        None => {
            return None;
        },
    };
    let image = &copy;
    let len: usize = bytes.len();
    let mut segments: Vec<ProgramSegment> = Vec::new();
    let mut i: u16 = 0;
    while i < h.ph_count
        invariant
            i <= h.ph_count,
            image.wf(),
            image.bytes() == bytes@,
            len == bytes@.len(),
            elf_header(bytes@) == Some(h),
            segments@.len() == i,
            forall|j: u16|
                j < i ==> {
                    &&& header_in_bounds(h, bytes@.len() as int, j)
                    &&& (#[trigger] elf_segment_type(bytes@, j)).is_some()
                    &&& elf_segment_place(bytes@, j).is_some()
                    &&& segments@[j as int] == ProgramSegment {
                        kind: elf_segment_type(bytes@, j).unwrap(),
                        place: elf_segment_place(bytes@, j).unwrap(),
                    }
                },
        decreases h.ph_count - i,
    {
        let count: u64 = i as u64 + 1;
        let size: u64 = h.ph_entry_size as u64;
        assert(count * size <= 0x1_0000 * 0xffff) by (nonlinear_arith)
            requires
                count <= 0x1_0000,
                size <= 0xffff,
        ;
        let in_bounds = h.ph_offset > 0 && h.ph_entry_size >= 56 && h.ph_offset % 8 == 0
            && h.ph_entry_size % 8 == 0 && h.ph_offset <= len as u64 && count * size
            <= len as u64 - h.ph_offset;
        let ghost kind_spec = elf_segment_type(bytes@, i);
        if !in_bounds {
            assert(!header_in_bounds(h, bytes@.len() as int, i));
            return None;
        }
        let kind = match read_segment_type(image, i) {
            Some(k) => k,
            None => {
                return None;
            },
        };
        let place = match read_segment_place(image, i) {
            Some(p) => p,
            None => {
                return None;
            },
        };
        segments.push(ProgramSegment { kind, place });
        i = i + 1;
    }
    proof {
        let s = elf_segments(bytes@).unwrap();
        assert(segments@ =~= s);
    }
    Some(segments)
}

} // verus!
