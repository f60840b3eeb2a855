//! Length-prefixed containers: `[count][per section: len, payload]`, each
//! payload compressed on its own so a range reader decompresses only the
//! sections it fetches.
use vstd::prelude::*;

use crate::codec::{compress, decompress, spec_decompress, FileError};
use crate::image::ByteRange;
use crate::varint::{
    lemma_leb_decode_bounds, lemma_read_write_uvarint, read_uvarint_at, spec_read_uvarint,
    uvarint_bytes, write_uvarint,
};

verus! {

/// The bytes of one framed section: its length, then the payload.
pub open spec fn framed(s: Seq<u8>) -> Seq<u8> {
    uvarint_bytes(s.len() as nat) + s
}

/// The framed sections, concatenated.
pub open spec fn framed_all(ss: Seq<Seq<u8>>) -> Seq<u8>
    decreases ss.len(),
{
    if ss.len() == 0 {
        seq![]
    } else {
        framed(ss[0]) + framed_all(ss.drop_first())
    }
}

/// A container of `ss` (payloads stored as given).
pub open spec fn container_bytes(ss: Seq<Seq<u8>>) -> Seq<u8> {
    uvarint_bytes(ss.len() as nat) + framed_all(ss)
}

/// The `n` framed sections from `pos` on, each decompressed with `codec`, and
/// the position after the last one; or the first failure, in reading order.
pub open spec fn decode_sections(s: Seq<u8>, pos: nat, n: nat, codec: u8) -> Result<
    (Seq<Seq<u8>>, nat),
    FileError,
>
    decreases n,
{
    if n == 0 {
        Ok((seq![], pos))
    } else {
        match spec_read_uvarint(s.skip(pos as int)) {
            None => Err(FileError::Container("truncated length")),
            Some((len, used)) => {
                let start = pos + used;
                if len > usize::MAX {
                    Err(FileError::Container("section length too large"))
                } else if start + len > s.len() {
                    Err(FileError::Container("section overruns buffer"))
                } else {
                    match spec_decompress(codec, s.subrange(start as int, start + len)) {
                        Err(e) => Err(e),
                        Ok(d) => match decode_sections(s, (start + len) as nat, (n - 1) as nat, codec) {
                            Ok((rest, end)) => Ok((seq![d] + rest, end)),
                            Err(e) => Err(e),
                        },
                    }
                }
            },
        }
    }
}

/// What [`decode_container`] returns.
pub open spec fn spec_decode_container(s: Seq<u8>, codec: u8, expected: nat) -> Result<
    Seq<Seq<u8>>,
    FileError,
> {
    match spec_read_uvarint(s) {
        None => Err(FileError::Container("truncated count")),
        Some((n, used)) => if n != expected {
            Err(FileError::Container("unexpected container section count"))
        } else {
            match decode_sections(s, used, expected, codec) {
                Ok((ss, _)) => Ok(ss),
                Err(e) => Err(e),
            }
        },
    }
}

/// Encode a container of byte sections, each compressed with `codec`; the
/// stored length is the compressed length.
pub fn encode_container(sections: &Vec<Vec<u8>>, codec: u8) -> (r: Vec<u8>)
    ensures
        r@ == container_bytes(sections@.map_values(|s: Vec<u8>| s@)),
{
    let ghost ss = sections@.map_values(|s: Vec<u8>| s@);
    let mut out: Vec<u8> = Vec::new();
    write_uvarint(&mut out, sections.len() as u64);
    let ghost head = out@;
    let mut i: usize = 0;
    while i < sections.len()
        invariant
            i <= sections@.len(),
            ss == sections@.map_values(|s: Vec<u8>| s@),
            head == uvarint_bytes(sections@.len() as nat),
            out@ == head + framed_all(ss.take(i as int)),
        decreases sections@.len() - i,
    {
        let payload = compress(codec, sections[i].as_slice());
        let ghost before = out@;
        write_uvarint(&mut out, payload.len() as u64);
        out.extend_from_slice(payload.as_slice());
        proof {
            lemma_framed_all_push(ss.take(i as int), ss[i as int]);
            assert(ss.take(i as int).push(ss[i as int]) =~= ss.take(i + 1));
        }
        i = i + 1;
    }
    proof {
        assert(ss.take(sections@.len() as int) =~= ss);
    }
    out
}

pub proof fn lemma_framed_all_push(ss: Seq<Seq<u8>>, s: Seq<u8>)
    ensures
        framed_all(ss.push(s)) == framed_all(ss) + framed(s),
    decreases ss.len(),
{
    if ss.len() == 0 {
        assert(ss.push(s).drop_first() =~= Seq::<Seq<u8>>::empty());
        assert(framed_all(ss.push(s)) =~= framed(s) + framed_all(Seq::<Seq<u8>>::empty()));
        assert(framed_all(ss) + framed(s) =~= framed(s));
    } else {
        lemma_framed_all_push(ss.drop_first(), s);
        assert(ss.push(s).drop_first() =~= ss.drop_first().push(s));
        assert(framed_all(ss.push(s)) =~= framed_all(ss) + framed(s));
    }
}

/// Reading back framed sections of uncompressed payloads gives the payloads.
pub proof fn lemma_decode_framed(ss: Seq<Seq<u8>>, prefix: Seq<u8>, rest: Seq<u8>)
    requires
        forall|i: int| 0 <= i < ss.len() ==> #[trigger] ss[i].len() <= usize::MAX,
    ensures
        decode_sections(prefix + framed_all(ss) + rest, prefix.len(), ss.len(), 0) == Ok::<
            (Seq<Seq<u8>>, nat),
            FileError,
        >((ss, prefix.len() + framed_all(ss).len())),
    decreases ss.len(),
{
    let s = prefix + framed_all(ss) + rest;
    if ss.len() > 0 {
        let a = ss[0];
        let tail = framed_all(ss.drop_first()) + rest;
        assert(s.skip(prefix.len() as int) =~= uvarint_bytes(a.len() as nat) + (a + tail));
        lemma_read_write_uvarint(a.len() as u64, a + tail);
        let used = uvarint_bytes(a.len() as nat).len();
        let start = prefix.len() + used;
        assert(s.subrange(start as int, start + a.len() as int) =~= a);
        let p2 = prefix + framed(a);
        assert(s =~= p2 + framed_all(ss.drop_first()) + rest);
        assert forall|i: int| 0 <= i < ss.drop_first().len() implies #[trigger] ss.drop_first()[i].len() <= usize::MAX by {
            assert(ss.drop_first()[i] == ss[i + 1]);
        }
        lemma_decode_framed(ss.drop_first(), p2, rest);
        assert(seq![a] + ss.drop_first() =~= ss);
        assert(spec_read_uvarint(s.skip(prefix.len() as int)) == Some((a.len() as u64, used)));
        assert(p2.len() == start + a.len());
        assert(spec_decompress(0, a) == Ok::<Seq<u8>, FileError>(a));
        assert(framed_all(ss).len() == framed(a).len() + framed_all(ss.drop_first()).len());
    } else {
        assert(ss =~= Seq::<Seq<u8>>::empty());
    }
}

/// The container law: decoding an uncompressed container gives back its
/// sections.
pub proof fn lemma_container_roundtrip(ss: Seq<Seq<u8>>)
    requires
        forall|i: int| 0 <= i < ss.len() ==> #[trigger] ss[i].len() <= usize::MAX,
        ss.len() <= u64::MAX,
    ensures
        spec_decode_container(container_bytes(ss), 0, ss.len()) == Ok::<Seq<Seq<u8>>, FileError>(ss),
{
    let c = container_bytes(ss);
    lemma_read_write_uvarint(ss.len() as u64, framed_all(ss));
    lemma_decode_framed(ss, uvarint_bytes(ss.len() as nat), Seq::empty());
    assert(c =~= uvarint_bytes(ss.len() as nat) + framed_all(ss) + Seq::<u8>::empty());
}

/// Decode a container into owned, decompressed sections, checking the section
/// count against `expected_sections` before reading any section.
pub fn decode_container(bytes: &[u8], codec: u8, expected_sections: usize) -> (r: Result<
    Vec<Vec<u8>>,
    FileError,
>)
    ensures
        match spec_decode_container(bytes@, codec, expected_sections as nat) {
            Ok(ss) => r matches Ok(v) && v@.map_values(|x: Vec<u8>| x@) == ss,
            Err(e) => r == Err::<Vec<Vec<u8>>, FileError>(e),
        },
{
    let (n, used) = match read_uvarint_at(bytes, 0) {
        Some(x) => x,
        None => {
            proof {
                assert(bytes@.skip(0) =~= bytes@);
            }
            return Err(FileError::Container("truncated count"));
        },
    };
    proof {
        assert(bytes@.skip(0) =~= bytes@);
    }
    if n != expected_sections as u64 {
        return Err(FileError::Container("unexpected container section count"));
    }
    let mut out: Vec<Vec<u8>> = Vec::new();
    let mut pos = used;
    let mut i: usize = 0;
    let blen = bytes.len();
    assert(spec_decode_container(bytes@, codec, expected_sections as nat) == match decode_sections(bytes@, used as nat, expected_sections as nat, codec) {
        Ok((ss, _)) => Ok(ss),
        Err(e) => Err(e),
    });
    while i < expected_sections
        invariant
            i <= expected_sections,
            pos <= bytes@.len(),
            blen == bytes@.len(),
            spec_decode_container(bytes@, codec, expected_sections as nat) == match decode_sections(bytes@, used as nat, expected_sections as nat, codec) {
                Ok((ss, _)) => Ok(ss),
                Err(e) => Err::<Seq<Seq<u8>>, FileError>(e),
            },
            decode_sections(bytes@, used as nat, expected_sections as nat, codec) == match decode_sections(
                bytes@,
                pos as nat,
                (expected_sections - i) as nat,
                codec,
            ) {
                Ok((rest, end)) => Ok((out@.map_values(|x: Vec<u8>| x@) + rest, end)),
                Err(e) => Err(e),
            },
        decreases expected_sections - i,
    {
        let (len, lused) = match read_uvarint_at(bytes, pos) {
            Some(x) => x,
            None => return Err(FileError::Container("truncated length")),
        };
        let start = pos + lused;
        if len > usize::MAX as u64 {
            return Err(FileError::Container("section length too large"));
        }
        if len as usize > bytes.len() - start {
            return Err(FileError::Container("section overruns buffer"));
        }
        let end = start + len as usize;
        let payload = vstd::slice::slice_subrange(bytes, start, end);
        let d = match decompress(codec, payload) {
            Ok(d) => d,
            Err(e) => return Err(e),
        };
        let ghost before = out@;
        out.push(d);
        proof {
            assert(out@.map_values(|x: Vec<u8>| x@) =~= before.map_values(|x: Vec<u8>| x@).push(d@));
            let nr = decode_sections(bytes@, end as nat, (expected_sections - i - 1) as nat, codec);
            if let Ok((rest, e2)) = nr {
                assert(before.map_values(|x: Vec<u8>| x@) + (seq![d@] + rest) =~= out@.map_values(|x: Vec<u8>| x@) + rest);
            }
        }
        pos = end;
        i = i + 1;
    }
    proof {
        assert(out@.map_values(|x: Vec<u8>| x@) + Seq::<Seq<u8>>::empty() =~= out@.map_values(|x: Vec<u8>| x@));
    }
    Ok(out)
}

/// The payload byte ranges (absolute, from `container_offset`) of the `n`
/// framed sections from `pos` on, and the end position; or the first failure.
pub open spec fn section_ranges(s: Seq<u8>, pos: nat, n: nat, container_offset: u64) -> Result<
    (Seq<ByteRange>, nat),
    FileError,
>
    decreases n,
{
    if n == 0 {
        Ok((seq![], pos))
    } else {
        match spec_read_uvarint(s.skip(pos as int)) {
            None => Err(FileError::Container("truncated length")),
            Some((len, used)) => {
                let start = pos + used;
                if len > usize::MAX {
                    Err(FileError::Container("section length too large"))
                } else if start + len > s.len() {
                    Err(FileError::Container("section overruns buffer"))
                } else if container_offset + start > u64::MAX {
                    Err(FileError::Container("section range overflows"))
                } else {
                    match section_ranges(s, (start + len) as nat, (n - 1) as nat, container_offset) {
                        Ok((rest, end)) => Ok(
                            (
                                seq![ByteRange { offset: (container_offset + start) as u64, len }]
                                    + rest,
                                end,
                            ),
                        ),
                        Err(e) => Err(e),
                    }
                }
            },
        }
    }
}

/// What [`container_section_payload_ranges`] returns.
pub open spec fn spec_container_ranges(s: Seq<u8>, container_offset: u64, expected: nat) -> Result<
    Seq<ByteRange>,
    FileError,
> {
    match spec_read_uvarint(s) {
        None => Err(FileError::Container("truncated count")),
        Some((n, used)) => if n != expected {
            Err(FileError::Container("unexpected section count"))
        } else {
            match section_ranges(s, used, expected, container_offset) {
                Ok((rs, _)) => Ok(rs),
                Err(e) => Err(e),
            }
        },
    }
}

/// The absolute byte ranges of a container's section payloads, where the
/// container itself starts at `container_offset` of the file.
pub fn container_section_payload_ranges(
    bytes: &[u8],
    container_offset: u64,
    expected_sections: usize,
) -> (r: Result<Vec<ByteRange>, FileError>)
    ensures
        match spec_container_ranges(bytes@, container_offset, expected_sections as nat) {
            Ok(rs) => r matches Ok(v) && v@ == rs,
            Err(e) => r == Err::<Vec<ByteRange>, FileError>(e),
        },
{
    proof {
        assert(bytes@.skip(0) =~= bytes@);
    }
    let (n, used) = match read_uvarint_at(bytes, 0) {
        Some(x) => x,
        None => return Err(FileError::Container("truncated count")),
    };
    if n != expected_sections as u64 {
        return Err(FileError::Container("unexpected section count"));
    }
    let mut out: Vec<ByteRange> = Vec::new();
    let mut pos = used;
    let mut i: usize = 0;
    let blen = bytes.len();
    assert(spec_container_ranges(bytes@, container_offset, expected_sections as nat) == match section_ranges(bytes@, used as nat, expected_sections as nat, container_offset) {
        Ok((rs, _)) => Ok(rs),
        Err(e) => Err(e),
    });
    while i < expected_sections
        invariant
            i <= expected_sections,
            pos <= bytes@.len(),
            blen == bytes@.len(),
            spec_container_ranges(bytes@, container_offset, expected_sections as nat) == match section_ranges(bytes@, used as nat, expected_sections as nat, container_offset) {
                Ok((rs, _)) => Ok(rs),
                Err(e) => Err::<Seq<ByteRange>, FileError>(e),
            },
            section_ranges(bytes@, used as nat, expected_sections as nat, container_offset)
                == match section_ranges(
                bytes@,
                pos as nat,
                (expected_sections - i) as nat,
                container_offset,
            ) {
                Ok((rest, end)) => Ok((out@ + rest, end)),
                Err(e) => Err(e),
            },
        decreases expected_sections - i,
    {
        let (len, lused) = match read_uvarint_at(bytes, pos) {
            Some(x) => x,
            None => return Err(FileError::Container("truncated length")),
        };
        let start = pos + lused;
        if len > usize::MAX as u64 {
            return Err(FileError::Container("section length too large"));
        }
        if len as usize > bytes.len() - start {
            return Err(FileError::Container("section overruns buffer"));
        }
        if start as u64 > u64::MAX - container_offset {
            return Err(FileError::Container("section range overflows"));
        }
        let end = start + len as usize;
        let ghost before = out@;
        out.push(ByteRange { offset: container_offset + start as u64, len });
        proof {
            let nr = section_ranges(bytes@, end as nat, (expected_sections - i - 1) as nat, container_offset);
            if let Ok((rest, e2)) = nr {
                assert(before + (seq![ByteRange { offset: (container_offset + start) as u64, len }] + rest) =~= out@ + rest);
            }
        }
        pos = end;
        i = i + 1;
    }
    proof {
        assert(out@ + Seq::<ByteRange>::empty() =~= out@);
    }
    Ok(out)
}

/// Decoding `n` sections yields `n` sections.
pub proof fn lemma_decode_sections_len(s: Seq<u8>, pos: nat, n: nat, codec: u8)
    ensures
        decode_sections(s, pos, n, codec) matches Ok((ss, _)) ==> ss.len() == n,
    decreases n,
{
    if n > 0 {
        if let Some((len, used)) = spec_read_uvarint(s.skip(pos as int)) {
            lemma_decode_sections_len(s, (pos + used + len) as nat, (n - 1) as nat, codec);
        }
    }
}

/// A decoded container has the expected number of sections.
pub proof fn lemma_decode_container_len(s: Seq<u8>, codec: u8, expected: nat)
    ensures
        spec_decode_container(s, codec, expected) matches Ok(ss) ==> ss.len() == expected,
{
    if let Some((n, used)) = spec_read_uvarint(s) {
        lemma_decode_sections_len(s, used, expected, codec);
    }
}

/// Reading `n` section ranges yields `n` ranges.
pub proof fn lemma_section_ranges_len(s: Seq<u8>, pos: nat, n: nat, container_offset: u64)
    ensures
        section_ranges(s, pos, n, container_offset) matches Ok((rs, _)) ==> rs.len() == n,
    decreases n,
{
    if n > 0 {
        if let Some((len, used)) = spec_read_uvarint(s.skip(pos as int)) {
            lemma_section_ranges_len(s, (pos + used + len) as nat, (n - 1) as nat, container_offset);
        }
    }
}

/// A container's ranges are as many as it was expected to hold.
pub proof fn lemma_container_ranges_len(s: Seq<u8>, container_offset: u64, expected: nat)
    ensures
        spec_container_ranges(s, container_offset, expected) matches Ok(rs) ==> rs.len() == expected,
{
    if let Some((n, used)) = spec_read_uvarint(s) {
        lemma_section_ranges_len(s, used, expected, container_offset);
    }
}

/// Reading section ranges fails only on the container's framing.
pub proof fn lemma_section_ranges_error(s: Seq<u8>, pos: nat, n: nat, container_offset: u64)
    ensures
        section_ranges(s, pos, n, container_offset) matches Err(e) ==> e is Container,
    decreases n,
{
    if n > 0 {
        if let Some((len, used)) = spec_read_uvarint(s.skip(pos as int)) {
            lemma_section_ranges_error(s, (pos + used + len) as nat, (n - 1) as nat, container_offset);
        }
    }
}

/// A container's ranges fail only on its framing.
pub proof fn lemma_container_ranges_error(s: Seq<u8>, container_offset: u64, expected: nat)
    ensures
        spec_container_ranges(s, container_offset, expected) matches Err(e) ==> e is Container,
{
    if let Some((n, used)) = spec_read_uvarint(s) {
        lemma_section_ranges_error(s, used, expected, container_offset);
    }
}

} // verus!
