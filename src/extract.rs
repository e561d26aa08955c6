//! Finding PNG images laid one after another in a byte buffer.

use vstd::prelude::*;
use vstd::string::StringSliceAdditionalSpecFns;
use vstd::utf8::valid_utf8;

verus! {

/// The eight bytes that open every PNG stream.
pub open spec fn png_signature() -> Seq<u8> {
    seq![137u8, 80u8, 78u8, 71u8, 13u8, 10u8, 26u8, 10u8]
}

/// Big-endian 32-bit integer at `i`.
pub open spec fn be32(b: Seq<u8>, i: int) -> int {
    16777216 * b[i] + 65536 * b[i + 1] + 256 * b[i + 2] + b[i + 3]
}

/// The chunk type `IEND`.
pub const IEND: u32 = 0x49454e44;

/// The chunk type `tEXt`.
pub const TEXT: u32 = 0x74455874;

/// A PNG stream starts at `i`.
pub open spec fn signature_at(b: Seq<u8>, i: int) -> bool {
    0 <= i && i + 8 <= b.len() && b.subrange(i, i + 8) == png_signature()
}

/// Where the chunks that start at `pos` end: just past the `IEND` chunk, or at
/// the end of the buffer; None when a chunk runs past the end.
pub open spec fn chunks_end(b: Seq<u8>, pos: int) -> Option<int>
    decreases b.len() - pos,
{
    if pos >= b.len() {
        Some(pos)
    } else if pos + 8 > b.len() {
        None
    } else if be32(b, pos + 4) == IEND {
        if pos + 12 <= b.len() {
            Some(pos + 12)
        } else {
            None
        }
    } else if pos + 12 + be32(b, pos) > b.len() {
        None
    } else {
        chunks_end(b, pos + 12 + be32(b, pos))
    }
}

/// One image found in the buffer.
pub struct Png<'a> {
    pub buffer: &'a [u8],
    pub file_name: Option<&'a str>,
    pub index: usize,
}

/// Walks a buffer for PNG images, in order.
pub struct ExtractPng<'a> {
    buffer: &'a [u8],
    offset: usize,
    index: usize,
}

fn read_be32(b: &[u8], i: usize) -> (r: u32)
    requires
        i + 4 <= b@.len(),
    ensures
        r == be32(b@, i as int),
{
    16777216 * b[i] as u32 + 65536 * b[i + 1] as u32 + 256 * b[i + 2] as u32 + b[i + 3] as u32
}

fn has_png_signature(b: &[u8], i: usize) -> (r: bool)
    requires
        i + 8 <= b@.len(),
    ensures
        r == signature_at(b@, i as int),
{
    let r = b[i] == 137 && b[i + 1] == 80 && b[i + 2] == 78 && b[i + 3] == 71 && b[i + 4] == 13 && b[i
        + 5] == 10 && b[i + 6] == 26 && b[i + 7] == 10;
    proof {
        if r {
            assert(b@.subrange(i as int, i + 8) =~= png_signature());
        } else {
            if b@.subrange(i as int, i + 8) == png_signature() {
                assert(b@.subrange(i as int, i + 8)[0] == png_signature()[0]);
                assert(b@.subrange(i as int, i + 8)[1] == png_signature()[1]);
                assert(b@.subrange(i as int, i + 8)[2] == png_signature()[2]);
                assert(b@.subrange(i as int, i + 8)[3] == png_signature()[3]);
                assert(b@.subrange(i as int, i + 8)[4] == png_signature()[4]);
                assert(b@.subrange(i as int, i + 8)[5] == png_signature()[5]);
                assert(b@.subrange(i as int, i + 8)[6] == png_signature()[6]);
                assert(b@.subrange(i as int, i + 8)[7] == png_signature()[7]);
            }
        }
    }
    r
}

/// Relies on std::str::from_utf8: the bytes as a string exactly when they are
/// valid UTF-8.
#[verifier::external_body]
fn utf8<'a>(b: &'a [u8]) -> (r: Option<&'a str>)
    ensures
        r is Some <==> valid_utf8(b@),
        r matches Some(s) ==> s.spec_bytes() == b@,
{
    std::str::from_utf8(b).ok()
}

/// The keyword `File Name` and its terminating zero.
pub open spec fn name_key() -> Seq<u8> {
    seq![70u8, 105u8, 108u8, 101u8, 32u8, 78u8, 97u8, 109u8, 101u8, 0u8]
}

/// What a `tEXt` chunk's data says of the file name: None when its keyword
/// is not `File Name`; else the text, when it is valid UTF-8.
pub open spec fn text_name(d: Seq<u8>) -> Option<Option<Seq<u8>>> {
    if d.len() >= 10 && d.take(10) == name_key() {
        Some(
            if valid_utf8(d.skip(10)) {
                Some(d.skip(10))
            } else {
                None
            },
        )
    } else {
        None
    }
}

/// The file name that the chunks from `pos` on leave, starting from `acc`:
/// each `tEXt` chunk of more than 14 bytes with the `File Name` keyword
/// replaces it.
pub open spec fn chunks_name(b: Seq<u8>, pos: int, acc: Option<Seq<u8>>) -> Option<Seq<u8>>
    decreases b.len() - pos,
{
    if pos >= b.len() || pos + 8 > b.len() || be32(b, pos + 4) == IEND || pos + 12 + be32(b, pos)
        > b.len() {
        acc
    } else {
        let size = be32(b, pos);
        let next = if be32(b, pos + 4) == TEXT && size > 14 {
            match text_name(b.subrange(pos + 8, pos + 8 + size)) {
                Some(n) => n,
                None => acc,
            }
        } else {
            acc
        };
        chunks_name(b, pos + 12 + size, next)
    }
}

pub open spec fn name_view(n: Option<&str>) -> Option<Seq<u8>> {
    match n {
        Some(s) => Some(s.spec_bytes()),
        None => None,
    }
}

/// The text of a `tEXt` chunk's data when its keyword is `File Name`, if it
/// is valid UTF-8.
fn file_name_of<'a>(data: &'a [u8]) -> (r: Option<Option<&'a str>>)
    ensures
        match r {
            Some(x) => text_name(data@) == Some(name_view(x)),
            None => text_name(data@) is None,
        },
{
    let key: [u8; 10] = [70, 105, 108, 101, 32, 78, 97, 109, 101, 0];
    proof {
        assert(key@ =~= name_key());
    }
    if data.len() < 10 {
        return None;
    }
    let mut i: usize = 0;
    while i < 10
        invariant
            i <= 10,
            data@.len() >= 10,
            key@ == name_key(),
            forall|j: int| 0 <= j < i ==> data@[j] == key@[j],
        decreases 10 - i,
    {
        if data[i] != key[i] {
            proof {
                assert(data@.take(10)[i as int] != name_key()[i as int]);
            }
            return None;
        }
        i = i + 1;
    }
    proof {
        assert(data@.take(10) =~= name_key());
    }
    let rest = &data[10..data.len()];
    proof {
        assert(rest@ =~= data@.skip(10));
    }
    Some(utf8(rest))
}

impl<'a> ExtractPng<'a> {
    pub closed spec fn data(&self) -> Seq<u8> {
        self.buffer@
    }

    pub closed spec fn position(&self) -> int {
        self.offset as int
    }

    pub closed spec fn count(&self) -> int {
        self.index as int
    }

    pub fn new(buffer: &'a [u8]) -> (r: ExtractPng<'a>)
        ensures
            r.data() == buffer@,
            r.position() == 0,
            r.count() == 0,
    {
        ExtractPng { buffer, offset: 0, index: 0 }
    }

    /// The next image: from the next PNG signature through its `IEND` chunk
    /// (or the end of the buffer), numbered in the order found, with the file
    /// name its last `File Name` text chunk gives. None when no
    /// signature is left, or when the next image's chunks run past the end.
    pub fn next(&mut self) -> (r: Option<Png<'a>>)
        ensures
            final(self).data() == old(self).data(),
            r matches Some(p) ==> exists|start: int|
                {
                    &&& old(self).position() <= start
                    &&& signature_at(old(self).data(), start)
                    &&& forall|j: int| old(self).position() <= j < start ==> !signature_at(old(self).data(), j)
                    &&& chunks_end(old(self).data(), start + 8) == Some(final(self).position())
                    &&& p.buffer@ == old(self).data().subrange(start, final(self).position())
                    &&& chunks_name(old(self).data(), start + 8, None) == name_view(p.file_name)
                },
            r matches Some(p) ==> p.index == old(self).count() && final(self).count() == old(self).count() + 1,
            r is None ==> final(self).position() == final(self).data().len() && final(self).count() == old(self).count(),
    {
        let buf = self.buffer;
        let n = buf.len();
        let mut start = self.offset;
        if start > n {
            start = n;
        }
        while n - start >= 8 && !has_png_signature(buf, start)
            invariant
                n == buf@.len(),
                buf == self.buffer,
                self.buffer == old(self).buffer,
                self.index == old(self).index,
                start <= n,
                old(self).position() <= start || start == n,
                forall|j: int| old(self).position() <= j < start ==> !signature_at(buf@, j),
            decreases n - start,
        {
            start = start + 1;
        }
        if n - start < 8 {
            self.offset = n;
            return None;
        }
        let mut file_name: Option<&'a str> = None;
        let mut pos = start + 8;
        loop
            invariant_except_break
                chunks_end(buf@, start + 8) == chunks_end(buf@, pos as int),
                chunks_name(buf@, start + 8, None) == chunks_name(buf@, pos as int, name_view(file_name)),
            invariant
                n == buf@.len(),
                buf == self.buffer,
                self.buffer == old(self).buffer,
                self.index == old(self).index,
                start + 8 <= pos <= n,
                old(self).position() <= start,
                signature_at(buf@, start as int),
                forall|j: int| old(self).position() <= j < start ==> !signature_at(buf@, j),
            ensures
                start + 8 <= pos <= n,
                chunks_end(buf@, start + 8) == Some(pos as int),
                chunks_name(buf@, start + 8, None) == name_view(file_name),
            decreases n - pos,
        {
            if pos >= n {
                break;
            }
            if n - pos < 8 {
                self.offset = n;
                return None;
            }
            let size = read_be32(buf, pos);
            let ty = read_be32(buf, pos + 4);
            if ty == IEND {
                if n - pos < 12 {
                    self.offset = n;
                    return None;
                }
                proof {
                    assert(chunks_end(buf@, pos as int) == Some(pos + 12));
                }
                pos = pos + 12;
                break;
            }
            if n - pos < 12 || size as usize > n - pos - 12 {
                self.offset = n;
                return None;
            }
            if ty == TEXT && size > 14 {
                let data = &buf[pos + 8..pos + 8 + size as usize];
                if let Some(name) = file_name_of(data) {
                    file_name = name;
                }
            }
            pos = pos + 12 + size as usize;
        }
        if self.index == usize::MAX {
            self.offset = n;
            return None;
        }
        let index = self.index;
        self.index = self.index + 1;
        self.offset = pos;
        let image = &buf[start..pos];
        proof {
            assert(signature_at(old(self).data(), start as int));
            assert(image@ == old(self).data().subrange(start as int, self.offset as int));
        }
        Some(Png { buffer: image, file_name, index })
    }
}

} // verus!
