//! Archived text: a fixed-size tagged record with two mutually exclusive
//! forms.  Short strings are stored inline in the record itself; longer
//! strings are written out of line and referenced through a relative pointer
//! plus a byte length.

use vstd::prelude::*;
use vstd::slice::slice_subrange;
use vstd::string::StringSliceAdditionalSpecFns;
use vstd::utf8::{valid_utf8, decode_utf8, encode_utf8};
use crate::MAX_LEN;
use crate::bytes::{
    le_bytes, offset_val, offset_word, u32_at, u32_to_le, read_u32, back_offset_word,
    try_offset_target, zeros, lemma_le_bytes_at, lemma_offset_word_val, lemma_prefix_trans,
    lemma_prefix_extend,
};
use crate::writer::{Writer, WriterExt, WriteError};
use crate::resolve::Archive;

verus! {

/// Byte length up to which a string is stored inline in its record.
pub const INLINE_CAPACITY: usize = 15;

/// The resolver for a string: the position of its out-of-line bytes, or zero
/// for a string short enough to be stored inline.
pub struct StringResolver {
    /// Position of the out-of-line UTF-8 bytes.
    pub pos: usize,
}

/// The tag byte of the text record at `pos`: an inline length, or 0xff for
/// the out-of-line form.
pub open spec fn str_tag(buf: Seq<u8>, pos: int) -> u8 {
    buf[pos + 15]
}

/// Whether the text record at `pos` uses the inline form.
pub open spec fn str_is_inline(buf: Seq<u8>, pos: int) -> bool {
    str_tag(buf, pos) <= 15
}

/// Absolute position of the out-of-line bytes of the text record at `pos`.
pub open spec fn str_target(buf: Seq<u8>, pos: int) -> int {
    pos + offset_val(u32_at(buf, pos))
}

/// Byte length of the text record at `pos`.
pub open spec fn str_len(buf: Seq<u8>, pos: int) -> int {
    if str_is_inline(buf, pos) {
        str_tag(buf, pos) as int
    } else {
        u32_at(buf, pos + 4) as int
    }
}

/// The UTF-8 content bytes of the text record at `pos`.
pub open spec fn str_content(buf: Seq<u8>, pos: int) -> Seq<u8> {
    if str_is_inline(buf, pos) {
        buf.subrange(pos, pos + str_tag(buf, pos) as int)
    } else {
        buf.subrange(str_target(buf, pos), str_target(buf, pos) + str_len(buf, pos))
    }
}

/// Well-formedness of a text record at `pos`: a legal tag, in-bounds content,
/// and valid UTF-8.
pub open spec fn str_wf(buf: Seq<u8>, pos: int) -> bool {
    &&& 0 <= pos
    &&& pos % 4 == 0
    &&& pos + 16 <= buf.len()
    &&& buf.len() <= MAX_LEN
    &&& (str_is_inline(buf, pos) || str_tag(buf, pos) == 0xff)
    &&& (!str_is_inline(buf, pos) ==> 0 <= str_target(buf, pos) && str_target(buf, pos) + str_len(
        buf,
        pos,
    ) <= buf.len())
    &&& valid_utf8(str_content(buf, pos))
}

/// The bytes of the text record for content `chars`, placed at `pos`, with
/// out-of-line bytes (if any) at `rpos`.
pub open spec fn str_archived(chars: Seq<char>, pos: int, rpos: int) -> Seq<u8> {
    let bytes = encode_utf8(chars);
    if bytes.len() <= 15 {
        bytes + zeros((15 - bytes.len()) as nat) + seq![bytes.len() as u8]
    } else {
        le_bytes(offset_word(rpos - pos)) + le_bytes(bytes.len() as u32) + zeros(7) + seq![0xffu8]
    }
}

/// The number of payload bytes the serialize phase writes for a string of
/// byte length `bl`: nothing inline, everything out of line.
pub open spec fn str_extra(bl: int) -> int {
    if bl <= 15 {
        0
    } else {
        bl
    }
}

/// Relies on core::str::from_utf8: it succeeds on exactly the valid UTF-8
/// byte strings, and decodes them to their characters.
#[verifier::external_body]
pub(crate) fn utf8_to_str(bytes: &[u8]) -> (r: Option<&str>)
    ensures
        r is Some <==> valid_utf8(bytes@),
        r is Some ==> r.unwrap()@ == decode_utf8(bytes@),
{
    core::str::from_utf8(bytes).ok()
}

/// A typed view of an archived string: the position of its record inside
/// some buffer.
#[derive(Clone, Copy, Debug, PartialEq, Eq, Structural)]
pub struct ArchivedString {
    /// Position of the text record.
    pub pos: usize,
}

impl ArchivedString {
    /// Well-formedness of the viewed record in `buf`.
    pub open spec fn wf(&self, buf: Seq<u8>) -> bool {
        str_wf(buf, self.pos as int)
    }

    /// The content bytes the view denotes in `buf`.
    pub open spec fn content(&self, buf: Seq<u8>) -> Seq<u8> {
        str_content(buf, self.pos as int)
    }

    /// Creates a view of the record at `pos`.
    pub fn new(pos: usize) -> (r: ArchivedString)
        ensures
            r.pos == pos,
    {
        ArchivedString { pos }
    }

    /// Extracts the string content of the record, dispatching on its tag;
    /// both forms yield the recorded UTF-8 content.
    pub fn as_str<'a>(&self, buf: &'a Vec<u8>) -> (r: &'a str)
        requires
            self.wf(buf@),
        ensures
            r@ == decode_utf8(self.content(buf@)),
            encode_utf8(r@) =~= self.content(buf@),
    {
        let tag: u8 = buf[self.pos + 15];
        let content: &[u8] = if tag <= 15 {
            slice_subrange(buf.as_slice(), self.pos, self.pos + tag as usize)
        } else {
            let w: u32 = read_u32(buf, self.pos);
            let len: usize = read_u32(buf, self.pos + 4) as usize;
            let target: usize = match try_offset_target(self.pos, w) {
                Some(t) => t,
                None => {
                    proof {
                        assert(false);
                    }
                    0
                },
            };
            slice_subrange(buf.as_slice(), target, target + len)
        };
        match utf8_to_str(content) {
            Some(s) => {
                proof {
                    vstd::utf8::decode_utf8_encode_utf8(content@);
                }
                s
            },
            None => {
                proof {
                    assert(false);
                }
                ""
            },
        }
    }

    /// Builds the text record for `value` placed at `pos`: inline when the
    /// UTF-8 byte length is at most [`INLINE_CAPACITY`], otherwise a relative
    /// pointer to the out-of-line bytes at `resolver.pos`.
    pub fn resolve_from_str(value: &str, pos: usize, resolver: StringResolver) -> (out: Vec<u8>)
        requires
            pos <= MAX_LEN,
            value.spec_bytes().len() > 15 ==> resolver.pos + value.spec_bytes().len() <= pos,
        ensures
            out@ =~= str_archived(value@, pos as int, resolver.pos as int),
    {
        let bytes: &[u8] = value.as_bytes();
        let bl: usize = bytes.len();
        let mut out: Vec<u8> = Vec::new();
        if bl <= INLINE_CAPACITY {
            let mut j: usize = 0;
            while j < bl
                invariant
                    j <= bl,
                    bl == bytes@.len(),
                    out@ =~= bytes@.subrange(0, j as int),
                decreases bl - j,
            {
                out.push(bytes[j]);
                j = j + 1;
                assert(out@ =~= bytes@.subrange(0, j as int));
            }
            assert(out@ =~= bytes@);
            while out.len() < INLINE_CAPACITY
                invariant
                    bl == bytes@.len(),
                    bl <= out@.len() <= 15,
                    out@ =~= bytes@ + zeros((out@.len() - bl) as nat),
                decreases 15 - out@.len(),
            {
                out.push(0u8);
                assert(out@ =~= bytes@ + zeros((out@.len() - bl) as nat));
            }
            out.push(bl as u8);
            assert(out@ =~= str_archived(value@, pos as int, resolver.pos as int));
        } else {
            let w: u32 = back_offset_word(pos, resolver.pos);
            out = u32_to_le(w);
            let mut lenb: Vec<u8> = u32_to_le(bl as u32);
            out.append(&mut lenb);
            while out.len() < INLINE_CAPACITY
                invariant
                    8 <= out@.len() <= 15,
                    out@ =~= le_bytes(offset_word(resolver.pos as int - pos as int)) + le_bytes(
                        bl as u32,
                    ) + zeros((out@.len() - 8) as nat),
                    bl == bytes@.len(),
                decreases 15 - out@.len(),
            {
                out.push(0u8);
                assert(out@ =~= le_bytes(offset_word(resolver.pos as int - pos as int)) + le_bytes(
                    bl as u32,
                ) + zeros((out@.len() - 8) as nat));
            }
            out.push(0xffu8);
            assert(out@ =~= str_archived(value@, pos as int, resolver.pos as int));
        }
        out
    }

    /// First phase for strings: writes nothing for an inline-sized string,
    /// and the raw UTF-8 bytes for a longer one, recording their position.
    pub fn serialize_from_str<W: Writer>(value: &str, serializer: &mut W) -> (r: Result<
        StringResolver,
        WriteError,
    >)
        requires
            old(serializer).written().len() <= MAX_LEN,
        ensures
            old(serializer).written().is_prefix_of(final(serializer).written()),
            r is Err ==> r->Err_0 == WriteError::SinkFull,
            value.spec_bytes().len() <= 15 ==> r is Ok,
            old(serializer).accepts(str_extra(value.spec_bytes().len() as int)) ==> r is Ok,
            r is Ok ==> ({
                let res = r.unwrap();
                let bytes = value.spec_bytes();
                &&& (bytes.len() <= 15 ==> final(serializer).written() =~= old(
                    serializer,
                ).written() && res.pos == 0)
                &&& (bytes.len() > 15 ==> res.pos as int == old(serializer).written().len()
                    && final(serializer).written() =~= old(serializer).written() + bytes)
                &&& final(serializer).written().len() <= MAX_LEN
                &&& (forall|m: int|
                    0 <= m && old(serializer).accepts(m + str_extra(bytes.len() as int))
                        ==> #[trigger] final(serializer).accepts(m))
            }),
    {
        let bytes: &[u8] = value.as_bytes();
        if bytes.len() <= INLINE_CAPACITY {
            Ok(StringResolver { pos: 0 })
        } else {
            let start: usize = serializer.pos();
            proof {
                serializer.pos_is_len();
            }
            match serializer.write(bytes) {
                Ok(()) => {
                    proof {
                        lemma_prefix_extend(old(serializer).written(), bytes@);
                    }
                    Ok(StringResolver { pos: start })
                },
                Err(e) => Err(e),
            }
        }
    }
}

impl Archive for str {
    type Resolver = StringResolver;

    open spec fn archived_align(&self) -> int {
        4
    }

    fn record_align(&self) -> (r: usize) {
        4
    }

    open spec fn resolver_wf(&self, pos: int, resolver: StringResolver) -> bool {
        &&& pos <= MAX_LEN
        &&& self.spec_bytes().len() > 15 ==> resolver.pos + self.spec_bytes().len() <= pos
    }

    open spec fn archived(&self, pos: int, resolver: StringResolver) -> Seq<u8> {
        str_archived(self@, pos, resolver.pos as int)
    }

    fn resolve(&self, pos: usize, resolver: StringResolver) -> (out: Vec<u8>) {
        ArchivedString::resolve_from_str(self, pos, resolver)
    }
}

/// Serializes a string: out-of-line bytes first if needed, then the fixed
/// text record.  Returns the position of the record.
pub fn serialize_text<W: Writer>(value: &str, serializer: &mut W) -> (r: Result<usize, WriteError>)
    requires
        old(serializer).written().len() <= MAX_LEN,
    ensures
        old(serializer).written().is_prefix_of(final(serializer).written()),
        r is Err ==> r->Err_0 == WriteError::SinkFull,
        old(serializer).accepts(19 + value.spec_bytes().len() as int) ==> r is Ok,
        r is Ok ==> ({
            let buf = final(serializer).written();
            let pos = r.unwrap() as int;
            let base = old(serializer).written().len() as int;
            let mid = base + str_extra(value.spec_bytes().len() as int);
            &&& pos == mid + crate::writer::pad_len(mid, 4)
            &&& buf.subrange(mid, pos) =~= zeros(crate::writer::pad_len(mid, 4) as nat)
            &&& pos + 16 == buf.len()
            &&& str_wf(buf, pos)
            &&& (value.spec_bytes().len() > 15 ==> str_target(buf, pos) == base)
            &&& str_content(buf, pos) =~= value.spec_bytes()
        }),
{
    let ghost base = old(serializer).written();
    let ghost bl = value.spec_bytes().len() as int;
    let res: StringResolver = match ArchivedString::serialize_from_str(value, serializer) {
        Ok(res) => res,
        Err(e) => {
            proof {
                if old(serializer).accepts(19 + bl) {
                    old(serializer).accepts_mono(str_extra(bl), 19 + bl);
                }
            }
            return Err(e);
        },
    };
    let ghost mid = serializer.written();
    let ghost w_mid = *serializer;
    let ghost rpos = res.pos as int;
    proof {
        crate::writer::lemma_pad_len(mid.len() as int, 4);
        if old(serializer).accepts(19 + bl) {
            old(serializer).accepts_mono(
                16 + crate::writer::pad_len(mid.len() as int, 4) + str_extra(bl),
                19 + bl,
            );
            assert(w_mid.accepts(16 + crate::writer::pad_len(mid.len() as int, 4)));
            w_mid.accepts_mono(3, 16 + crate::writer::pad_len(mid.len() as int, 4));
        }
    }
    match serializer.align(4) {
        Ok(_) => {},
        Err(e) => {
            proof {
                lemma_prefix_trans(base, mid, serializer.written());
            }
            return Err(e);
        },
    }
    proof {
        lemma_prefix_extend(mid, serializer.written().subrange(mid.len() as int, serializer.written().len() as int));
        assert(mid + serializer.written().subrange(mid.len() as int, serializer.written().len() as int) =~= serializer.written());
        lemma_prefix_trans(base, mid, serializer.written());
    }
    let ghost pre = serializer.written();
    proof {
        serializer.pos_is_len();
        if old(serializer).accepts(19 + bl) {
            assert(serializer.accepts(16int));
        }
    }
    let pos: usize = match serializer.resolve_aligned(value, res) {
        Ok(p) => p,
        Err(e) => {
            proof {
                lemma_prefix_trans(base, pre, serializer.written());
            }
            return Err(e);
        },
    };
    proof {
        let buf = serializer.written();
        assert(pre.is_prefix_of(buf)) by {
            lemma_prefix_extend(pre, buf.subrange(pre.len() as int, buf.len() as int));
            assert(pre + buf.subrange(pre.len() as int, buf.len() as int) =~= buf);
        }
        lemma_prefix_trans(base, pre, buf);
        let bytes = value.spec_bytes();
        vstd::utf8::encode_utf8_valid_utf8(value@);
        if bl <= 15 {
            assert(str_tag(buf, pos as int) == bl as u8);
            assert(str_is_inline(buf, pos as int));
            assert(buf.subrange(pos as int, pos + bl) =~= bytes);
            assert(str_content(buf, pos as int) =~= bytes);
            assert(str_wf(buf, pos as int));
        } else {
            let w1 = offset_word(rpos - pos);
            assert(str_tag(buf, pos as int) == 0xff);
            assert(!str_is_inline(buf, pos as int));
            assert(buf.subrange(pos as int, pos + 4) =~= le_bytes(w1));
            lemma_le_bytes_at(buf, pos as int, w1);
            lemma_offset_word_val(rpos - pos);
            assert(str_target(buf, pos as int) == rpos);
            assert(buf.subrange(pos + 4, pos + 8) =~= le_bytes(bl as u32));
            lemma_le_bytes_at(buf, pos + 4, bl as u32);
            assert(bl as u32 as int == bl);
            assert(str_len(buf, pos as int) == bl);
            assert(buf.subrange(rpos, rpos + bl) =~= bytes) by {
                assert(forall|k: int|
                    0 <= k < bl ==> buf[rpos + k] == #[trigger] bytes[k]);
            }
            assert(str_content(buf, pos as int) =~= bytes);
            assert(str_wf(buf, pos as int));
        }
    }
    Ok(pos)
}

/// Text boundary: content of byte length at most [`INLINE_CAPACITY`] is
/// archived in the inline form, whose tag byte is the length; anything
/// longer is archived in the out-of-line form, whose tag byte is the marker
/// 0xff.  Either way the record is sixteen bytes.
pub proof fn lemma_text_boundary(chars: Seq<char>, pos: int, rpos: int)
    ensures
        str_archived(chars, pos, rpos).len() == 16,
        encode_utf8(chars).len() <= 15 ==> str_archived(chars, pos, rpos)[15] == encode_utf8(
            chars,
        ).len() as u8,
        encode_utf8(chars).len() > 15 ==> str_archived(chars, pos, rpos)[15] == 0xff,
{
    let bytes = encode_utf8(chars);
    if bytes.len() <= 15 {
        assert((bytes + zeros((15 - bytes.len()) as nat) + seq![bytes.len() as u8])[15]
            == bytes.len() as u8);
    } else {
        assert((le_bytes(offset_word(rpos - pos)) + le_bytes(bytes.len() as u32) + zeros(7)
            + seq![0xffu8])[15] == 0xffu8);
    }
}

} // verus!
