//! The fixed-size file header: magic, format generation, flags, and the
//! section directory (offset and length of every section of the image).
//!
//! Layout of the `HEADER_LEN` bytes: the four magic bytes, the version byte,
//! the sixteen bytes of the content hash, then as varints the scalar fields in
//! declaration order, the number of extra sections and each extra section as
//! `(kind, offset, length)`; zeros up to `HEADER_LEN`.
use vstd::prelude::*;

use crate::varint::{
    lemma_leb_decode_bounds, lemma_read_write_uvarint, read_uvarint_at, spec_read_uvarint,
    uvarint_bytes, write_uvarint,
};

verus! {

/// Size of the header at the start of every file image.
pub const HEADER_LEN: usize = 1024;

/// Magic bytes at offset 0, repeated as the footer marker at the very end.
pub const MAGIC: [u8; 4] = [0x52, 0x45, 0x54, 0x45];

/// Format generation with one independently tiled section per permutation.
pub const LEGACY_FORMAT_VERSION: u8 = 0x05;

/// Format generation with the paired-family index container.
pub const NEXT_FORMAT_VERSION: u8 = 0x06;

/// The generation the writers of this crate emit.
pub const CURRENT_FORMAT_VERSION: u8 = 0x05;

/// The dataset carries named graphs.
pub const FLAG_HAS_QUADS: u32 = 1;

/// The dictionary holds quoted (RDF-star) triples.
pub const FLAG_HAS_QUOTED_TRIPLES: u32 = 2;

/// Tiled sections end with a per-tile synopsis trailer.
pub const FLAG_TILE_SYNOPSIS: u32 = 4;

/// Section kind of the build-information section in the directory.
pub const SECTION_KIND_BUILD_INFO: u8 = 7;

/// Most extra sections a header can list.
pub const MAX_EXTRA_SECTIONS: usize = 24;

/// A section the fixed fields do not name: kind, absolute offset, length.
#[derive(Clone, Copy, Debug, PartialEq, Eq)]
pub struct ExtraSection {
    pub kind: u8,
    pub offset: u64,
    pub length: u64,
}

/// Why a header could not be read.
#[derive(Clone, Copy, Debug, PartialEq, Eq)]
pub enum HeaderError {
    /// Fewer than `HEADER_LEN` bytes.
    Truncated,
    /// The magic bytes are wrong.
    BadMagic,
    /// A field is malformed or out of its range.
    Malformed,
}

/// The decoded header.
#[derive(Clone, Debug, PartialEq, Eq)]
pub struct Header {
    pub version: u8,
    pub flags: u32,
    pub metadata_offset: u64,
    pub metadata_len: u64,
    pub dictionary_offset: u64,
    pub dictionary_len: u64,
    pub root_dir_offset: u64,
    pub root_dir_len: u64,
    pub pyramid_meta_offset: u64,
    pub pyramid_meta_len: u64,
    pub dict_codec: u8,
    pub block_codec: u8,
    pub pyramid_levels: u16,
    /// Bit mask of the permutations the index carries (`crate::index::PermSet`).
    pub perms: u8,
    pub quad_count: u64,
    pub term_count: u64,
    pub content_hash: [u8; 16],
    pub named_graphs_offset: u64,
    pub named_graphs_len: u64,
    pub schema_meta_len: u32,
    pub text_index_offset: u64,
    pub text_index_len: u64,
    pub build_info_offset: u64,
    pub build_info_len: u64,
    pub extra_sections: Vec<ExtraSection>,
}

/// The scalar fields, in the order they are stored.
pub open spec fn scalar_fields(h: Header) -> Seq<u64> {
    seq![
        h.flags as u64,
        h.metadata_offset,
        h.metadata_len,
        h.dictionary_offset,
        h.dictionary_len,
        h.root_dir_offset,
        h.root_dir_len,
        h.pyramid_meta_offset,
        h.pyramid_meta_len,
        h.dict_codec as u64,
        h.block_codec as u64,
        h.pyramid_levels as u64,
        h.perms as u64,
        h.quad_count,
        h.term_count,
        h.named_graphs_offset,
        h.named_graphs_len,
        h.schema_meta_len as u64,
        h.text_index_offset,
        h.text_index_len,
        h.build_info_offset,
        h.build_info_len,
    ]
}

/// Each stored scalar value of a header, by its position.
pub proof fn lemma_scalar_fields(h: Header)
    ensures
        ({
            let f = scalar_fields(h);
            &&& f.len() == 22
            &&& f[0] == h.flags as u64
            &&& f[1] == h.metadata_offset
            &&& f[2] == h.metadata_len
            &&& f[3] == h.dictionary_offset
            &&& f[4] == h.dictionary_len
            &&& f[5] == h.root_dir_offset
            &&& f[6] == h.root_dir_len
            &&& f[7] == h.pyramid_meta_offset
            &&& f[8] == h.pyramid_meta_len
            &&& f[9] == h.dict_codec as u64
            &&& f[10] == h.block_codec as u64
            &&& f[11] == h.pyramid_levels as u64
            &&& f[12] == h.perms as u64
            &&& f[13] == h.quad_count
            &&& f[14] == h.term_count
            &&& f[15] == h.named_graphs_offset
            &&& f[16] == h.named_graphs_len
            &&& f[17] == h.schema_meta_len as u64
            &&& f[18] == h.text_index_offset
            &&& f[19] == h.text_index_len
            &&& f[20] == h.build_info_offset
            &&& f[21] == h.build_info_len
        }),
{
}

/// Whether stored scalar values fit the fields they are read back into.
pub open spec fn scalar_fields_in_range(f: Seq<u64>) -> bool {
    &&& f.len() == 22
    &&& f[0] <= u32::MAX
    &&& f[9] <= u8::MAX
    &&& f[10] <= u8::MAX
    &&& f[11] <= u16::MAX
    &&& f[12] <= u8::MAX
    &&& f[17] <= u32::MAX
}

/// The varints of the extra-section list, three per section.
pub open spec fn extra_fields(extras: Seq<ExtraSection>) -> Seq<u64> {
    Seq::new(
        3 * extras.len(),
        |k: int|
            if k % 3 == 0 {
                extras[k / 3].kind as u64
            } else if k % 3 == 1 {
                extras[k / 3].offset
            } else {
                extras[k / 3].length
            },
    )
}

/// Whether every kind in a run of stored extra-section varints fits a byte.
pub open spec fn extra_kinds_in_range(f: Seq<u64>) -> bool {
    forall|i: int| 0 <= i < f.len() / 3 ==> #[trigger] f[3 * i] <= u8::MAX
}

/// The extra sections a run of stored varints describes.
pub open spec fn extras_of(f: Seq<u64>) -> Seq<ExtraSection> {
    Seq::new(
        f.len() / 3,
        |i: int| ExtraSection { kind: f[3 * i] as u8, offset: f[3 * i + 1], length: f[3 * i + 2] },
    )
}

pub proof fn lemma_extras_roundtrip(extras: Seq<ExtraSection>)
    ensures
        extra_fields(extras).len() == 3 * extras.len(),
        extra_kinds_in_range(extra_fields(extras)),
        extras_of(extra_fields(extras)) == extras,
{
    let f = extra_fields(extras);
    assert forall|i: int| 0 <= i < f.len() / 3 implies #[trigger] f[3 * i] <= u8::MAX by {
        assert((3 * i) % 3 == 0 && (3 * i) / 3 == i);
    }
    assert forall|i: int| 0 <= i < extras.len() implies #[trigger] extras_of(f)[i] == extras[i] by {
        assert((3 * i) % 3 == 0 && (3 * i) / 3 == i);
        assert((3 * i + 1) % 3 == 1 && (3 * i + 1) / 3 == i);
        assert((3 * i + 2) % 3 == 2 && (3 * i + 2) / 3 == i);
    }
    assert(extras_of(f) =~= extras);
}

/// Concatenated canonical varints.
pub open spec fn varints_bytes(vs: Seq<u64>) -> Seq<u8>
    decreases vs.len(),
{
    if vs.len() == 0 {
        seq![]
    } else {
        uvarint_bytes(vs[0] as nat) + varints_bytes(vs.drop_first())
    }
}

/// Read `n` varints one after the other from the front of `s`.
pub open spec fn read_varints(s: Seq<u8>, n: nat) -> Option<(Seq<u64>, nat)>
    decreases n,
{
    if n == 0 {
        Some((seq![], 0))
    } else {
        match spec_read_uvarint(s) {
            Some((v, k)) => match read_varints(s.skip(k as int), (n - 1) as nat) {
                Some((vs, m)) => Some((seq![v] + vs, k + m)),
                None => None,
            },
            None => None,
        }
    }
}

pub proof fn lemma_read_varints_bounds(s: Seq<u8>, n: nat)
    ensures
        read_varints(s, n) matches Some((vs, m)) ==> vs.len() == n && m <= s.len(),
    decreases n,
{
    if n > 0 {
        lemma_leb_decode_bounds(s, 10);
        if let Some((v, k)) = spec_read_uvarint(s) {
            lemma_read_varints_bounds(s.skip(k as int), (n - 1) as nat);
        }
    }
}

/// Reading one more varint after `n` of them extends the result by it.
pub proof fn lemma_read_varints_snoc(s: Seq<u8>, n: nat)
    requires
        read_varints(s, n) is Some,
    ensures
        ({
            let (vs, m) = read_varints(s, n).unwrap();
            read_varints(s, n + 1) == match spec_read_uvarint(s.skip(m as int)) {
                Some((v, k)) => Some((vs.push(v), m + k)),
                None => None::<(Seq<u64>, nat)>,
            }
        }),
    decreases n,
{
    lemma_read_varints_bounds(s, n);
    if n == 0 {
        assert(s.skip(0) =~= s);
        if let Some((v, k)) = spec_read_uvarint(s) {
            assert(read_varints(s.skip(k as int), 0) == Some((Seq::<u64>::empty(), 0nat)));
            assert(seq![v] + Seq::<u64>::empty() =~= Seq::<u64>::empty().push(v));
        }
    } else {
        let (v, k) = spec_read_uvarint(s).unwrap();
        lemma_leb_decode_bounds(s, 10);
        lemma_read_varints_snoc(s.skip(k as int), (n - 1) as nat);
        let (vs, m) = read_varints(s, n).unwrap();
        let (vs2, m2) = read_varints(s.skip(k as int), (n - 1) as nat).unwrap();
        assert(s.skip(k as int).skip(m2 as int) =~= s.skip(m as int));
        if let Some((w, j)) = spec_read_uvarint(s.skip(m as int)) {
            assert(seq![v] + vs2.push(w) =~= vs.push(w));
        }
    }
}

pub proof fn lemma_read_varints(vs: Seq<u64>, rest: Seq<u8>)
    ensures
        read_varints(varints_bytes(vs) + rest, vs.len()) == Some((vs, varints_bytes(vs).len())),
        varints_bytes(vs).len() <= 10 * vs.len(),
    decreases vs.len(),
{
    if vs.len() > 0 {
        let tail = varints_bytes(vs.drop_first()) + rest;
        lemma_read_write_uvarint(vs[0], tail);
        lemma_read_varints(vs.drop_first(), rest);
        let s = varints_bytes(vs) + rest;
        let k = uvarint_bytes(vs[0] as nat).len();
        assert(s =~= uvarint_bytes(vs[0] as nat) + tail);
        assert(s.skip(k as int) =~= tail);
        assert(seq![vs[0]] + vs.drop_first() =~= vs);
    }
}

pub proof fn lemma_varints_bytes_append(a: Seq<u64>, b: Seq<u64>)
    ensures
        varints_bytes(a + b) == varints_bytes(a) + varints_bytes(b),
    decreases a.len(),
{
    if a.len() == 0 {
        assert(a + b =~= b);
        assert(varints_bytes(a) + varints_bytes(b) =~= varints_bytes(b));
    } else {
        lemma_varints_bytes_append(a.drop_first(), b);
        assert((a + b).drop_first() =~= a.drop_first() + b);
        assert(varints_bytes(a + b) =~= varints_bytes(a) + varints_bytes(b));
    }
}

/// A header as plain values: version, content hash, the scalar fields in
/// stored order, and the extra sections.
pub type HeaderView = (u8, Seq<u8>, Seq<u64>, Seq<ExtraSection>);

/// Every value a header holds, as plain values.
pub open spec fn header_view(h: Header) -> HeaderView {
    (h.version, h.content_hash@, scalar_fields(h), h.extra_sections@)
}

/// Whether a view is one a header can store.
pub open spec fn view_wf(v: HeaderView) -> bool {
    &&& v.1.len() == 16
    &&& scalar_fields_in_range(v.2)
    &&& v.3.len() <= MAX_EXTRA_SECTIONS
}

/// All stored varints: the scalar fields, the extra-section count, and the
/// extra sections.
pub open spec fn view_fields(v: HeaderView) -> Seq<u64> {
    v.2 + seq![v.3.len() as u64] + extra_fields(v.3)
}

/// Everything up to the zero padding.
pub open spec fn view_body(v: HeaderView) -> Seq<u8> {
    MAGIC@ + seq![v.0] + v.1 + varints_bytes(view_fields(v))
}

/// The `HEADER_LEN` bytes that store a view.
pub open spec fn view_bytes(v: HeaderView) -> Seq<u8> {
    view_body(v) + Seq::new((HEADER_LEN - view_body(v).len()) as nat, |i: int| 0u8)
}

/// The `HEADER_LEN` bytes [`Header::to_bytes`] writes.
pub open spec fn header_bytes(h: Header) -> Seq<u8> {
    view_bytes(header_view(h))
}

/// A header whose extra-section list fits the fixed size.
pub open spec fn header_wf(h: Header) -> bool {
    h.extra_sections@.len() <= MAX_EXTRA_SECTIONS
}

/// What [`Header::from_bytes`] reads from `s`: version, hash, scalar fields
/// and extra sections, or `None` when `s` is too short, the magic is wrong, a
/// varint is malformed, or a value does not fit its field.
pub open spec fn spec_parse_header(s: Seq<u8>) -> Option<HeaderView> {
    if s.len() < HEADER_LEN || s.subrange(0, 4) != MAGIC@ {
        None
    } else {
        let body = s.subrange(21, HEADER_LEN as int);
        match read_varints(body, 23) {
            Some((f, m)) => {
                let count = f[22];
                if !scalar_fields_in_range(f.subrange(0, 22)) || count > MAX_EXTRA_SECTIONS {
                    None
                } else {
                    match read_varints(body.skip(m as int), 3 * count as nat) {
                        Some((ef, _)) => if extra_kinds_in_range(ef) {
                            Some((s[4], s.subrange(5, 21), f.subrange(0, 22), extras_of(ef)))
                        } else {
                            None
                        },
                        None => None,
                    }
                }
            },
            None => None,
        }
    }
}

/// The header law: reading back a stored view gives the view.
pub proof fn lemma_view_roundtrip(v: HeaderView)
    requires
        view_wf(v),
    ensures
        view_body(v).len() <= HEADER_LEN,
        view_bytes(v).len() == HEADER_LEN,
        view_bytes(v).subrange(0, 4) == MAGIC@,
        spec_parse_header(view_bytes(v)) == Some(v),
{
    let f = view_fields(v);
    let first = v.2 + seq![v.3.len() as u64];
    let ef = extra_fields(v.3);
    lemma_extras_roundtrip(v.3);
    assert(f =~= first + ef);
    lemma_varints_bytes_append(first, ef);
    lemma_read_varints(f, Seq::empty());
    let body = view_body(v);
    assert(body.len() <= HEADER_LEN);
    let s = view_bytes(v);
    let zeros = Seq::new((HEADER_LEN - body.len()) as nat, |i: int| 0u8);
    assert(s.subrange(0, 4) =~= MAGIC@);
    assert(s.subrange(5, 21) =~= v.1);
    let b = s.subrange(21, HEADER_LEN as int);
    assert(b =~= varints_bytes(first) + (varints_bytes(ef) + zeros));
    lemma_read_varints(first, varints_bytes(ef) + zeros);
    let m = varints_bytes(first).len();
    assert(b.skip(m as int) =~= varints_bytes(ef) + zeros);
    lemma_read_varints(ef, zeros);
    assert(first.subrange(0, 22) =~= v.2);
    assert(first[22] == v.3.len());
}

/// Reading back a written header gives the header's values.
pub proof fn lemma_header_roundtrip(h: Header)
    requires
        header_wf(h),
    ensures
        header_bytes(h).len() == HEADER_LEN,
        spec_parse_header(header_bytes(h)) == Some(header_view(h)),
{
    lemma_view_roundtrip(header_view(h));
}

/// Append `fields`, in order, as varints.
fn write_fields(out: &mut Vec<u8>, fields: &Vec<u64>)
    ensures
        final(out)@ == old(out)@ + varints_bytes(fields@),
{
    let mut i: usize = 0;
    while i < fields.len()
        invariant
            i <= fields@.len(),
            out@ == old(out)@ + varints_bytes(fields@.take(i as int)),
        decreases fields@.len() - i,
    {
        let ghost before = out@;
        write_uvarint(out, fields[i]);
        proof {
            lemma_varints_bytes_append(fields@.take(i as int), seq![fields@[i as int]]);
            assert(fields@.take(i as int) + seq![fields@[i as int]] =~= fields@.take(i + 1));
            assert(seq![fields@[i as int]].drop_first() =~= Seq::<u64>::empty());
            assert(varints_bytes(Seq::<u64>::empty()) =~= Seq::<u8>::empty());
            assert(varints_bytes(seq![fields@[i as int]]) =~= uvarint_bytes(fields@[i as int] as nat));
        }
        i = i + 1;
    }
    proof {
        assert(fields@.take(fields@.len() as int) =~= fields@);
    }
}

/// Read `n` varints starting at `pos`, appending them to `out`; the position
/// after the last one.
pub(crate) fn read_fields(bytes: &[u8], pos: usize, n: usize, out: &mut Vec<u64>) -> (r: Option<usize>)
    requires
        pos <= bytes@.len(),
    ensures
        match read_varints(bytes@.skip(pos as int), n as nat) {
            Some((vs, m)) => r == Some((pos + m) as usize) && final(out)@ == old(out)@ + vs,
            None => r is None,
        },
        r matches Some(q) ==> pos <= q <= bytes@.len(),
{
    proof {
        lemma_read_varints_bounds(bytes@.skip(pos as int), n as nat);
    }
    let ghost s = bytes@.skip(pos as int);
    let ghost start = out@;
    let mut p = pos;
    let mut i: usize = 0;
    proof {
        assert(read_varints(s, 0) == Some((Seq::<u64>::empty(), 0nat)));
        assert(start + Seq::<u64>::empty() =~= start);
    }
    while i < n
        invariant
            i <= n,
            pos <= p <= bytes@.len(),
            s == bytes@.skip(pos as int),
            read_varints(s, i as nat) == Some((out@.subrange(start.len() as int, out@.len() as int), (p - pos) as nat)),
            out@.len() >= start.len(),
            out@.subrange(0, start.len() as int) == start,
        decreases n - i,
    {
        let blen = bytes.len();
        proof {
            lemma_read_varints_snoc(s, i as nat);
            assert(s.skip((p - pos) as int) =~= bytes@.skip(p as int));
            lemma_leb_decode_bounds(bytes@.skip(p as int), 10);
        }
        match read_uvarint_at(bytes, p) {
            Some((v, k)) => {
                assert(p + k <= bytes@.len());
                let ghost old_out = out@;
                let ghost vs = out@.subrange(start.len() as int, out@.len() as int);
                assert(read_varints(s, (i + 1) as nat) == Some((vs.push(v), (p - pos + k) as nat)));
                out.push(v);
                proof {
                    assert(out@.subrange(start.len() as int, out@.len() as int) =~= old_out.subrange(start.len() as int, old_out.len() as int).push(v));
                    assert(out@.subrange(0, start.len() as int) =~= old_out.subrange(0, start.len() as int));
                }
                p = p + k;
                i = i + 1;
            },
            None => {
                proof {
                    lemma_read_varints_none(s, i as nat, n as nat);
                }
                return None;
            },
        }
    }
    proof {
        assert(out@ =~= start + out@.subrange(start.len() as int, out@.len() as int));
    }
    Some(p)
}

/// Once reading `i` varints fails, reading more fails too.
proof fn lemma_read_varints_none(s: Seq<u8>, i: nat, n: nat)
    requires
        i < n,
        read_varints(s, i) is Some,
        spec_read_uvarint(s.skip(read_varints(s, i).unwrap().1 as int)) is None,
    ensures
        read_varints(s, n) is None,
    decreases i,
{
    if i == 0 {
        assert(s.skip(0) =~= s);
    } else {
        let (v, k) = spec_read_uvarint(s).unwrap();
        let (vs, m) = read_varints(s, i).unwrap();
        let (vs2, m2) = read_varints(s.skip(k as int), (i - 1) as nat).unwrap();
        lemma_leb_decode_bounds(s, 10);
        lemma_read_varints_bounds(s.skip(k as int), (i - 1) as nat);
        assert(s.skip(k as int).skip(m2 as int) =~= s.skip(m as int));
        lemma_read_varints_none(s.skip(k as int), (i - 1) as nat, (n - 1) as nat);
    }
}

/// The extra sections stored in `ef` (three varints each), or `None` when a
/// kind does not fit a byte.
fn extras_from_fields(ef: &Vec<u64>) -> (r: Option<Vec<ExtraSection>>)
    requires
        ef@.len() % 3 == 0,
    ensures
        extra_kinds_in_range(ef@) ==> (r matches Some(v) && v@ == extras_of(ef@)),
        !extra_kinds_in_range(ef@) ==> r is None,
{
    let total = ef.len();
    let count = total / 3;
    let mut extras: Vec<ExtraSection> = Vec::new();
    let mut i: usize = 0;
    while i < count
        invariant
            i <= count,
            count == ef@.len() / 3,
            total == ef@.len(),
            ef@.len() % 3 == 0,
            extras@ =~= extras_of(ef@).take(i as int),
            forall|j: int| 0 <= j < i ==> #[trigger] ef@[3 * j] <= u8::MAX,
        decreases count - i,
    {
        let kind = ef[3 * i];
        if kind > u8::MAX as u64 {
            proof {
                assert(ef@[3 * (i as int)] > u8::MAX);
            }
            return None;
        }
        extras.push(ExtraSection { kind: kind as u8, offset: ef[3 * i + 1], length: ef[3 * i + 2] });
        i = i + 1;
    }
    proof {
        assert(extras_of(ef@).take(count as int) =~= extras_of(ef@));
    }
    Some(extras)
}

impl Header {
    /// The stored varints of this header.
    fn fields_vec(&self) -> (r: Vec<u64>)
        ensures
            r@ == view_fields(header_view(*self)),
    {
        let mut v: Vec<u64> = Vec::new();
        v.push(self.flags as u64);
        v.push(self.metadata_offset);
        v.push(self.metadata_len);
        v.push(self.dictionary_offset);
        v.push(self.dictionary_len);
        v.push(self.root_dir_offset);
        v.push(self.root_dir_len);
        v.push(self.pyramid_meta_offset);
        v.push(self.pyramid_meta_len);
        v.push(self.dict_codec as u64);
        v.push(self.block_codec as u64);
        v.push(self.pyramid_levels as u64);
        v.push(self.perms as u64);
        v.push(self.quad_count);
        v.push(self.term_count);
        v.push(self.named_graphs_offset);
        v.push(self.named_graphs_len);
        v.push(self.schema_meta_len as u64);
        v.push(self.text_index_offset);
        v.push(self.text_index_len);
        v.push(self.build_info_offset);
        v.push(self.build_info_len);
        v.push(self.extra_sections.len() as u64);
        let ghost prefix = v@;
        assert(prefix =~= scalar_fields(*self) + seq![self.extra_sections@.len() as u64]);
        let mut i: usize = 0;
        while i < self.extra_sections.len()
            invariant
                i <= self.extra_sections@.len(),
                v@ == prefix + extra_fields(self.extra_sections@.take(i as int)),
            decreases self.extra_sections@.len() - i,
        {
            let e = self.extra_sections[i];
            v.push(e.kind as u64);
            v.push(e.offset);
            v.push(e.length);
            proof {
                let a = extra_fields(self.extra_sections@.take(i as int));
                let b = extra_fields(self.extra_sections@.take(i + 1));
                assert forall|k: int| 0 <= k < b.len() implies #[trigger] b[k] == (a + seq![e.kind as u64, e.offset, e.length])[k] by {
                    if k < a.len() {
                        assert(k / 3 < i);
                    } else {
                        assert(k / 3 == i);
                    }
                }
                assert(b =~= a + seq![e.kind as u64, e.offset, e.length]);
            }
            i = i + 1;
        }
        proof {
            assert(self.extra_sections@.take(i as int) =~= self.extra_sections@);
        }
        v
    }

    /// The `HEADER_LEN` bytes of this header.
    pub fn to_bytes(&self) -> (r: Vec<u8>)
        requires
            header_wf(*self),
        ensures
            r@ == header_bytes(*self),
            r@.len() == HEADER_LEN,
    {
        proof {
            lemma_header_roundtrip(*self);
        }
        let mut out: Vec<u8> = Vec::new();
        out.push(MAGIC[0]);
        out.push(MAGIC[1]);
        out.push(MAGIC[2]);
        out.push(MAGIC[3]);
        out.push(self.version);
        out.extend_from_slice(self.content_hash.as_slice());
        let fields = self.fields_vec();
        write_fields(&mut out, &fields);
        assert(out@ =~= view_body(header_view(*self)));
        let ghost body = out@;
        while out.len() < HEADER_LEN
            invariant
                out@.len() <= HEADER_LEN,
                body.len() <= out@.len(),
                out@ =~= body + Seq::new((out@.len() - body.len()) as nat, |i: int| 0u8),
            decreases HEADER_LEN - out@.len(),
        {
            out.push(0u8);
        }
        out
    }

    /// Read a header from the front of `bytes`.
    pub fn from_bytes(bytes: &[u8]) -> (r: Result<Header, HeaderError>)
        ensures
            match spec_parse_header(bytes@) {
                Some(v) => r matches Ok(h) && header_view(h) == v && header_wf(h),
                None => r is Err,
            },
    {
        if bytes.len() < HEADER_LEN {
            return Err(HeaderError::Truncated);
        }
        if bytes[0] != MAGIC[0] || bytes[1] != MAGIC[1] || bytes[2] != MAGIC[2] || bytes[3] != MAGIC[3] {
            proof {
                assert(bytes@.subrange(0, 4)[0] == bytes@[0]);
                assert(bytes@.subrange(0, 4)[1] == bytes@[1]);
                assert(bytes@.subrange(0, 4)[2] == bytes@[2]);
                assert(bytes@.subrange(0, 4)[3] == bytes@[3]);
            }
            return Err(HeaderError::BadMagic);
        }
        proof {
            assert(bytes@.subrange(0, 4) =~= MAGIC@);
        }
        let body = vstd::slice::slice_subrange(bytes, 21, HEADER_LEN);
        proof {
            assert(body@.skip(0) =~= body@);
        }
        let ghost sb = bytes@.subrange(21, HEADER_LEN as int);
        assert(body@ == sb);
        assert(bytes@.len() >= HEADER_LEN && bytes@.subrange(0, 4) == MAGIC@);
        let mut f: Vec<u64> = Vec::new();
        let m = match read_fields(body, 0, 23, &mut f) {
            Some(m) => m,
            None => {
                assert(read_varints(sb, 23) is None);
                assert(spec_parse_header(bytes@) is None);
                return Err(HeaderError::Malformed);
            },
        };
        proof {
            lemma_read_varints_bounds(sb, 23);
            let (vs, mm) = read_varints(sb, 23).unwrap();
            assert(Seq::<u64>::empty() + vs =~= vs);
            assert(vs =~= f@);
            assert(mm == m);
        }
        let count = f[22];
        if f[0] > u32::MAX as u64 || f[9] > u8::MAX as u64 || f[10] > u8::MAX as u64
            || f[11] > u16::MAX as u64 || f[12] > u8::MAX as u64 || f[17] > u32::MAX as u64
            || count > MAX_EXTRA_SECTIONS as u64
        {
            return Err(HeaderError::Malformed);
        }
        proof {
            assert(f@.subrange(0, 22) =~= f@.subrange(0, 22));
            assert(Seq::<u64>::empty() + f@ =~= f@);
        }
        let mut ef: Vec<u64> = Vec::new();
        match read_fields(body, m, 3 * count as usize, &mut ef) {
            Some(_) => {},
            None => {
                assert(read_varints(sb.skip(m as int), 3 * count as nat) is None);
                assert(spec_parse_header(bytes@) is None);
                return Err(HeaderError::Malformed);
            },
        };
        proof {
            lemma_read_varints_bounds(sb.skip(m as int), 3 * count as nat);
            let (vs, mm) = read_varints(sb.skip(m as int), 3 * count as nat).unwrap();
            assert(Seq::<u64>::empty() + vs =~= vs);
            assert(vs =~= ef@);
        }
        let extras = match extras_from_fields(&ef) {
            Some(e) => e,
            None => {
                assert(spec_parse_header(bytes@) is None);
                return Err(HeaderError::Malformed);
            },
        };
        let mut hash = [0u8; 16];
        let mut k: usize = 0;
        while k < 16
            invariant
                k <= 16,
                bytes@.len() >= HEADER_LEN,
                forall|j: int| 0 <= j < k ==> hash@[j] == bytes@[5 + j],
            decreases 16 - k,
        {
            hash[k] = bytes[5 + k];
            k = k + 1;
        }
        let h = Header {
            version: bytes[4],
            flags: f[0] as u32,
            metadata_offset: f[1],
            metadata_len: f[2],
            dictionary_offset: f[3],
            dictionary_len: f[4],
            root_dir_offset: f[5],
            root_dir_len: f[6],
            pyramid_meta_offset: f[7],
            pyramid_meta_len: f[8],
            dict_codec: f[9] as u8,
            block_codec: f[10] as u8,
            pyramid_levels: f[11] as u16,
            perms: f[12] as u8,
            quad_count: f[13],
            term_count: f[14],
            content_hash: hash,
            named_graphs_offset: f[15],
            named_graphs_len: f[16],
            schema_meta_len: f[17] as u32,
            text_index_offset: f[18],
            text_index_len: f[19],
            build_info_offset: f[20],
            build_info_len: f[21],
            extra_sections: extras,
        };
        proof {
            assert(h.content_hash@ =~= bytes@.subrange(5, 21));
            assert(scalar_fields(h) =~= f@.subrange(0, 22));
            assert(h.extra_sections@ =~= extras_of(ef@));
        }
        Ok(h)
    }
}

/// Only the first `HEADER_LEN` bytes decide what a header reads.
pub proof fn lemma_parse_header_prefix(s: Seq<u8>, t: Seq<u8>)
    requires
        s.len() >= HEADER_LEN,
    ensures
        spec_parse_header(s + t) == spec_parse_header(s),
{
    let st = s + t;
    assert(st.subrange(0, 4) =~= s.subrange(0, 4));
    assert(st.subrange(5, 21) =~= s.subrange(5, 21));
    assert(st.subrange(21, HEADER_LEN as int) =~= s.subrange(21, HEADER_LEN as int));
    assert(st[4] == s[4]);
}

/// A header only reads from at least `HEADER_LEN` bytes.
pub proof fn lemma_parse_header_len(s: Seq<u8>)
    ensures
        spec_parse_header(s) is Some ==> s.len() >= HEADER_LEN,
{
}

} // verus!
