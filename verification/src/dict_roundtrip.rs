//! The dictionary law: a section laid out, chunked and framed reads back as
//! the terms it was made from, and so does a whole dictionary container.
use vstd::prelude::*;

use crate::codec::{FileError, CODEC_NONE};
use crate::dict::{
    dict_payloads, spec_dictionary, terms_of, Dictionary,
    body_bytes, chunk_bodies, chunk_dir, chunk_firsts, chunk_dir_entry, chunk_end, chunk_key, chunk_ranges, concat_bodies, lemma_body_len, spec_chunked_section, spec_section_decode, decoded_chunks, dir_entries, chunked_payload, spec_chunked_dir, lemma_body_prefix, lemma_chunk_firsts, lemma_section_offsets_ok, raw_offsets, take_varint, lemma_section_meta,
    lemma_three_varints, run_count, run_offsets, section_header, section_raw, spec_section_meta, RESTART_INTERVAL,
};
use crate::container::container_bytes;
use crate::header::varints_bytes;
use crate::varint::{canonicals_bytes, uvarint_bytes};

verus! {

/// A section's header reads back, whatever follows it: the term count, the
/// interval, and the run offsets made absolute by the header's length.
pub proof fn lemma_header_meta(ts: Seq<Seq<u8>>, k: nat, rest: Seq<u8>)
    requires
        0 < k <= u32::MAX,
        ts.len() <= u32::MAX,
        section_raw(ts, k).len() <= u64::MAX,
    ensures
        spec_section_meta(section_header(ts, k) + rest) == Some(
            (
                ts.len() as u32,
                k as u32,
                run_offsets(ts, k).map_values(|o: u64| (o + section_header(ts, k).len()) as u64),
                section_header(ts, k).len(),
            ),
        ),
{
    let n = ts.len();
    let nr = run_count(n, k);
    let offs = run_offsets(ts, k);
    let s = section_header(ts, k) + rest;
    let f: Seq<u64> = seq![n as u64, k as u64, nr as u64];
    assert(nr <= n + 1) by (nonlinear_arith)
        requires
            k > 0,
            nr == (n + k - 1) / (k as int),
    ;
    crate::dict::lemma_canonicals_are_varints(offs);
    lemma_three_varints(n, k, nr);
    let tail = varints_bytes(offs) + rest;
    assert(s =~= varints_bytes(f) + tail);
    crate::header::lemma_read_varints(f, tail);
    let m = varints_bytes(f).len();
    assert(s.skip(m as int) =~= tail);
    crate::header::lemma_read_varints(offs, rest);
    let h = section_header(ts, k).len();
    assert(h == m + varints_bytes(offs).len());
    lemma_section_meta(ts, k);
    assert forall|r: int| 0 <= r < offs.len() implies #[trigger] offs[r] + h <= u64::MAX by {
        assert(r * (k as int) <= n) by (nonlinear_arith)
            requires
                0 <= r < nr,
                k > 0,
                nr == (n + k - 1) / (k as int),
        ;
        lemma_body_prefix(ts, k, r * (k as int), n as int);
    }
}

/// Where chunk `j` starts in the raw section; the section's end past the
/// last chunk.
pub open spec fn chunk_start(raw_len: nat, offs: Seq<u64>, fs: Seq<int>, j: int) -> int {
    if j < fs.len() {
        offs[fs[j]] as int
    } else {
        raw_len as int
    }
}

/// The chunking facts every proof below rests on: chunk first runs are
/// increasing runs of the table, the first being run 0, and the run
/// offsets lie, in order, within the raw section.
pub open spec fn chunking_ok(raw_len: nat, offs: Seq<u64>, fs: Seq<int>) -> bool {
    &&& fs.len() > 0
    &&& fs[0] == 0
    &&& forall|i: int| 0 <= i < fs.len() ==> 0 <= #[trigger] fs[i] < offs.len()
    &&& forall|i: int, j: int| 0 <= i < j < fs.len() ==> #[trigger] fs[i] < #[trigger] fs[j]
    &&& forall|r: int| 0 <= r < offs.len() ==> #[trigger] offs[r] <= raw_len
    &&& forall|a: int, b: int| 0 <= a <= b < offs.len() ==> #[trigger] offs[a] <= #[trigger] offs[b]
}

/// Chunk starts rise, from the first run's offset to the section's end.
pub proof fn lemma_chunk_start_mono(raw_len: nat, offs: Seq<u64>, fs: Seq<int>, i: int, j: int)
    requires
        chunking_ok(raw_len, offs, fs),
        0 <= i <= j <= fs.len(),
    ensures
        offs[0] <= chunk_start(raw_len, offs, fs, i) <= chunk_start(raw_len, offs, fs, j) <= raw_len,
{
    if j < fs.len() {
        if i < j {
            assert(fs[i] < fs[j]);
        }
        assert(offs[0] <= offs[fs[i]]);
        assert(offs[fs[i]] <= offs[fs[j]]);
    } else if i < fs.len() {
        assert(offs[0] <= offs[fs[i]]);
    }
}

/// The first `j` chunk bodies are the raw section from the first run to
/// chunk `j`'s start.
pub proof fn lemma_chunk_bodies(raw: Seq<u8>, offs: Seq<u64>, fs: Seq<int>, j: int)
    requires
        chunking_ok(raw.len(), offs, fs),
        0 <= j <= fs.len(),
    ensures
        chunk_bodies(raw, offs, fs, j) == raw.subrange(offs[0] as int, chunk_start(raw.len(), offs, fs, j)),
    decreases j,
{
    lemma_chunk_start_mono(raw.len(), offs, fs, 0, j);
    if j == 0 {
        assert(raw.subrange(offs[0] as int, offs[0] as int) =~= Seq::<u8>::empty());
    } else {
        lemma_chunk_bodies(raw, offs, fs, j - 1);
        lemma_chunk_start_mono(raw.len(), offs, fs, j - 1, j);
        assert(chunk_end(raw.len(), offs, fs, j - 1) == chunk_start(raw.len(), offs, fs, j));
        assert(raw.subrange(offs[0] as int, chunk_start(raw.len(), offs, fs, j)) =~= raw.subrange(
            offs[0] as int,
            chunk_start(raw.len(), offs, fs, j - 1),
        ) + raw.subrange(chunk_start(raw.len(), offs, fs, j - 1), chunk_start(raw.len(), offs, fs, j)));
    }
}

/// Every directory entry takes at least three bytes.
pub proof fn lemma_chunk_dir_len(raw: Seq<u8>, offs: Seq<u64>, fs: Seq<int>, j: int)
    ensures
        j >= 0 ==> chunk_dir(raw, offs, fs, j).len() >= 3 * j,
    decreases j,
{
    if j > 0 {
        lemma_chunk_dir_len(raw, offs, fs, j - 1);
        let key = chunk_key(raw, offs, fs, j - 1);
        crate::varint::lemma_uvarint_len((fs[j - 1] - if j - 1 == 0 { 0 } else { fs[j - 2] }) as nat, 1);
        crate::varint::lemma_uvarint_len(key.len(), 1);
        crate::varint::lemma_uvarint_len(
            (chunk_end(raw.len(), offs, fs, j - 1) - offs[fs[j - 1]]) as nat,
            1,
        );
    }
}

/// The directory of the first `i` chunks is a prefix of that of the first
/// `j`.
pub proof fn lemma_chunk_dir_prefix(raw: Seq<u8>, offs: Seq<u64>, fs: Seq<int>, i: int, j: int)
    requires
        0 <= i <= j,
    ensures
        chunk_dir(raw, offs, fs, i).len() <= chunk_dir(raw, offs, fs, j).len(),
        chunk_dir(raw, offs, fs, j).subrange(0, chunk_dir(raw, offs, fs, i).len() as int) == chunk_dir(
            raw,
            offs,
            fs,
            i,
        ),
    decreases j - i,
{
    if i < j {
        lemma_chunk_dir_prefix(raw, offs, fs, i, j - 1);
        let a = chunk_dir(raw, offs, fs, j - 1);
        let b = chunk_dir(raw, offs, fs, j);
        assert(b == a + chunk_dir_entry(raw, offs, fs, j - 1));
        assert(b.subrange(0, chunk_dir(raw, offs, fs, i).len() as int) =~= a.subrange(
            0,
            chunk_dir(raw, offs, fs, i).len() as int,
        ));
    } else {
        assert(chunk_dir(raw, offs, fs, j).subrange(0, chunk_dir(raw, offs, fs, j).len() as int) =~= chunk_dir(
            raw,
            offs,
            fs,
            j,
        ));
    }
}

/// What the directory entry of chunk `j` parses to: its first run, its
/// key, where that run starts and the chunk's stored length.
pub open spec fn dir_entry_values(raw: Seq<u8>, offs: Seq<u64>, fs: Seq<int>, j: int) -> (u64, Seq<u8>, u64, u64) {
    (
        fs[j] as u64,
        chunk_key(raw, offs, fs, j),
        offs[fs[j]],
        (chunk_end(raw.len(), offs, fs, j) - offs[fs[j]]) as u64,
    )
}

/// The three varints and the key of one directory entry, wherever it
/// stands in `b`, read back.
pub proof fn lemma_read_dir_entry(b: Seq<u8>, pos: int, drun: nat, key: Seq<u8>, clen: nat)
    requires
        drun <= u64::MAX,
        key.len() <= u64::MAX,
        clen <= u64::MAX,
        0 <= pos,
        pos + (uvarint_bytes(drun) + uvarint_bytes(key.len()) + key + uvarint_bytes(clen)).len() <= b.len(),
        b.subrange(pos, pos + (uvarint_bytes(drun) + uvarint_bytes(key.len()) + key + uvarint_bytes(clen)).len())
            == uvarint_bytes(drun) + uvarint_bytes(key.len()) + key + uvarint_bytes(clen),
    ensures
        take_varint(b, pos) == Some((drun as u64, pos + uvarint_bytes(drun).len())),
        take_varint(b, pos + uvarint_bytes(drun).len()) == Some(
            (key.len() as u64, pos + uvarint_bytes(drun).len() + uvarint_bytes(key.len()).len()),
        ),
        b.subrange(
            pos + uvarint_bytes(drun).len() + uvarint_bytes(key.len()).len(),
            pos + uvarint_bytes(drun).len() + uvarint_bytes(key.len()).len() + key.len(),
        ) == key,
        take_varint(b, pos + uvarint_bytes(drun).len() + uvarint_bytes(key.len()).len() + key.len()) == Some(
            (clen as u64, pos + (uvarint_bytes(drun) + uvarint_bytes(key.len()) + key + uvarint_bytes(clen)).len()),
        ),
{
    let u1 = uvarint_bytes(drun);
    let u2 = uvarint_bytes(key.len());
    let u3 = uvarint_bytes(clen);
    let e = u1 + u2 + key + u3;
    let q = pos + e.len();
    let tail = b.skip(q);
    assert(b.skip(pos) =~= e + tail) by {
        assert forall|x: int| 0 <= x < b.skip(pos).len() implies b.skip(pos)[x] == (e + tail)[x] by {
            if x < e.len() {
                assert(b.subrange(pos, q)[x] == b[pos + x]);
            }
        }
    }
    crate::varint::lemma_read_write_uvarint(drun as u64, u2 + key + u3 + tail);
    assert(b.skip(pos) =~= u1 + (u2 + key + u3 + tail));
    let p1 = pos + u1.len();
    assert(b.skip(p1) =~= u2 + (key + u3 + tail)) by {
        assert(b.skip(p1) =~= (e + tail).skip(u1.len() as int));
    }
    crate::varint::lemma_read_write_uvarint(key.len() as u64, key + u3 + tail);
    let p2 = p1 + u2.len();
    assert(b.subrange(p2, p2 + key.len()) =~= key) by {
        assert forall|x: int| 0 <= x < key.len() implies b.subrange(p2, p2 + key.len())[x] == key[x] by {
            assert(b.skip(pos)[u1.len() + u2.len() + x] == b[p2 + x]);
            assert((e + tail)[u1.len() + u2.len() + x] == key[x]);
        }
    }
    let p3 = p2 + key.len();
    assert(b.skip(p3) =~= u3 + tail) by {
        assert(b.skip(p3) =~= (e + tail).skip((u1.len() + u2.len() + key.len()) as int));
    }
    crate::varint::lemma_read_write_uvarint(clen as u64, tail);
}

/// One step of reading a chunk directory: an entry that reads back and
/// passes every check is followed by the rest of the directory.
pub proof fn lemma_dir_entries_step(
    b: Seq<u8>,
    pos: int,
    i: nat,
    n: nat,
    prev: Option<u64>,
    expected: u64,
    offs: Seq<u64>,
    drun: nat,
    key: Seq<u8>,
    clen: nat,
)
    requires
        i < n,
        drun <= u64::MAX,
        key.len() <= u64::MAX,
        clen <= isize::MAX,
        b.len() <= usize::MAX,
        0 <= pos,
        pos + (uvarint_bytes(drun) + uvarint_bytes(key.len()) + key + uvarint_bytes(clen)).len() <= b.len(),
        b.subrange(pos, pos + (uvarint_bytes(drun) + uvarint_bytes(key.len()) + key + uvarint_bytes(clen)).len())
            == uvarint_bytes(drun) + uvarint_bytes(key.len()) + key + uvarint_bytes(clen),
        ({
            let fr = (match prev { Some(q) => q as int, None => 0 }) + drun;
            &&& fr <= u32::MAX
            &&& fr < expected
            &&& fr < offs.len()
            &&& i == 0 ==> fr == 0
            &&& (prev matches Some(q) ==> q < fr)
        }),
    ensures
        ({
            let fr = (match prev { Some(q) => q as int, None => 0 }) + drun;
            let len = (uvarint_bytes(drun) + uvarint_bytes(key.len()) + key + uvarint_bytes(clen)).len();
            dir_entries(b, pos, i, n, prev, expected, offs) == match dir_entries(
                b,
                pos + len,
                i + 1,
                n,
                Some(fr as u64),
                expected,
                offs,
            ) {
                Err(e) => Err(e),
                Ok((rest, end)) => Ok((seq![(fr as u64, key, offs[fr], clen as u64)] + rest, end)),
            }
        }),
{
    lemma_read_dir_entry(b, pos, drun, key, clen);
}

/// The chunk directory, wherever it stands in `b`, parses from entry `i`
/// on to the entries it was written from.
#[verifier::rlimit(100)]
#[verifier::spinoff_prover]
pub proof fn lemma_dir_entries(b: Seq<u8>, base: int, raw: Seq<u8>, offs: Seq<u64>, fs: Seq<int>, i: int)
    requires
        chunking_ok(raw.len(), offs, fs),
        0 <= i <= fs.len(),
        offs.len() <= u32::MAX,
        raw.len() <= isize::MAX,
        b.len() <= usize::MAX,
        0 <= base,
        base + chunk_dir(raw, offs, fs, fs.len() as int).len() <= b.len(),
        b.subrange(base, base + chunk_dir(raw, offs, fs, fs.len() as int).len()) == chunk_dir(
            raw,
            offs,
            fs,
            fs.len() as int,
        ),
    ensures
        dir_entries(
            b,
            base + chunk_dir(raw, offs, fs, i).len(),
            i as nat,
            fs.len(),
            if i == 0 { None } else { Some(fs[i - 1] as u64) },
            offs.len() as u64,
            offs,
        ) == Ok::<(Seq<(u64, Seq<u8>, u64, u64)>, int), FileError>(
            (
                Seq::new((fs.len() - i) as nat, |x: int| dir_entry_values(raw, offs, fs, i + x)),
                base + chunk_dir(raw, offs, fs, fs.len() as int).len(),
            ),
        ),
    decreases fs.len() - i,
{
    let nf = fs.len() as int;
    let d = chunk_dir(raw, offs, fs, nf);
    let pos = base + chunk_dir(raw, offs, fs, i).len();
    if i == nf {
        assert(Seq::new((fs.len() - i) as nat, |x: int| dir_entry_values(raw, offs, fs, i + x)) =~= Seq::<
            (u64, Seq<u8>, u64, u64),
        >::empty());
    } else {
        let e = chunk_dir_entry(raw, offs, fs, i);
        let key = chunk_key(raw, offs, fs, i);
        let drun = (fs[i] - if i == 0 { 0 } else { fs[i - 1] }) as nat;
        let end = chunk_end(raw.len(), offs, fs, i);
        let clen = (end - offs[fs[i]]) as nat;
        lemma_chunk_dir_prefix(raw, offs, fs, i + 1, nf);
        let d0 = chunk_dir(raw, offs, fs, i);
        let d1 = chunk_dir(raw, offs, fs, i + 1);
        assert(d1 == d0 + e);
        let q = pos + e.len();
        assert(b.subrange(pos, q) =~= e) by {
            assert forall|x: int| 0 <= x < e.len() implies b.subrange(pos, q)[x] == e[x] by {
                assert(b.subrange(base, base + d.len())[d0.len() + x] == b[pos + x]);
                assert(d.subrange(0, d1.len() as int)[d0.len() + x] == d1[d0.len() + x]);
            }
        }
        if i > 0 {
            assert(fs[i - 1] < fs[i]);
        }
        assert(fs[i] < offs.len());
        lemma_chunk_start_mono(raw.len(), offs, fs, i, i + 1);
        assert(end == chunk_start(raw.len(), offs, fs, i + 1));
        assert(key.len() <= b.len());
        assert(e == uvarint_bytes(drun) + uvarint_bytes(key.len()) + key + uvarint_bytes(clen));
        lemma_dir_entries_step(
            b,
            pos,
            i as nat,
            fs.len(),
            if i == 0 { None } else { Some(fs[i - 1] as u64) },
            offs.len() as u64,
            offs,
            drun,
            key,
            clen,
        );
        assert(q == base + d1.len());
        lemma_dir_entries(b, base, raw, offs, fs, i + 1);
        let rest = Seq::new((fs.len() - i - 1) as nat, |x: int| dir_entry_values(raw, offs, fs, i + 1 + x));
        assert(seq![dir_entry_values(raw, offs, fs, i)] + rest =~= Seq::new(
            (fs.len() - i) as nat,
            |x: int| dir_entry_values(raw, offs, fs, i + x),
        ));
    }
}

/// The stored ranges of the chunks from `j` on: end to end from where
/// chunk `j` lands, the bodies being stored as written.
pub proof fn lemma_chunk_ranges(raw: Seq<u8>, offs: Seq<u64>, fs: Seq<int>, j: int, p0: int, total: u64)
    requires
        chunking_ok(raw.len(), offs, fs),
        0 <= j <= fs.len(),
        0 <= p0,
        p0 + raw.len() - offs[0] <= total,
    ensures
        chunk_ranges(
            Seq::new((fs.len() - j) as nat, |x: int| dir_entry_values(raw, offs, fs, j + x).3),
            p0 + chunk_start(raw.len(), offs, fs, j) - offs[0],
            total,
        ) == Some(
            Seq::new(
                (fs.len() - j) as nat,
                |x: int|
                    (
                        (p0 + chunk_start(raw.len(), offs, fs, j + x) - offs[0]) as u64,
                        (p0 + chunk_start(raw.len(), offs, fs, j + x + 1) - offs[0]) as u64,
                    ),
            ),
        ),
    decreases fs.len() - j,
{
    let nf = fs.len() as int;
    let lens = Seq::new((fs.len() - j) as nat, |x: int| dir_entry_values(raw, offs, fs, j + x).3);
    let want = Seq::new(
        (fs.len() - j) as nat,
        |x: int|
            (
                (p0 + chunk_start(raw.len(), offs, fs, j + x) - offs[0]) as u64,
                (p0 + chunk_start(raw.len(), offs, fs, j + x + 1) - offs[0]) as u64,
            ),
    );
    if j == nf {
        assert(want =~= Seq::<(u64, u64)>::empty());
    } else {
        lemma_chunk_start_mono(raw.len(), offs, fs, j, j + 1);
        lemma_chunk_start_mono(raw.len(), offs, fs, j + 1, nf);
        let a = chunk_start(raw.len(), offs, fs, j);
        let c = chunk_start(raw.len(), offs, fs, j + 1);
        assert(chunk_end(raw.len(), offs, fs, j) == c);
        assert(lens[0] == c - a);
        lemma_chunk_ranges(raw, offs, fs, j + 1, p0, total);
        assert(lens.drop_first() =~= Seq::new(
            (fs.len() - (j + 1)) as nat,
            |x: int| dir_entry_values(raw, offs, fs, j + 1 + x).3,
        ));
        let rest = Seq::new(
            (fs.len() - (j + 1)) as nat,
            |x: int|
                (
                    (p0 + chunk_start(raw.len(), offs, fs, j + 1 + x) - offs[0]) as u64,
                    (p0 + chunk_start(raw.len(), offs, fs, j + 1 + x + 1) - offs[0]) as u64,
                ),
        );
        assert(seq![((p0 + a - offs[0]) as u64, (p0 + a - offs[0] + lens[0]) as u64)] + rest =~= want);
    }
}

/// Chunks stored as written decode to their stored bytes.
pub proof fn lemma_decoded_plain(payload: Seq<u8>, es: Seq<(int, Seq<u8>, u64, u64, u64)>)
    requires
        payload.len() <= usize::MAX,
        forall|j: int| 0 <= j < es.len() ==> (#[trigger] es[j]).3 <= es[j].4 <= payload.len(),
    ensures
        decoded_chunks(payload, CODEC_NONE, es) == Ok::<Seq<(int, Seq<u8>, u64, Seq<u8>)>, FileError>(
            Seq::new(es.len(), |j: int| (es[j].0, es[j].1, es[j].2, payload.subrange(es[j].3 as int, es[j].4 as int))),
        ),
    decreases es.len(),
{
    let want = Seq::new(
        es.len(),
        |j: int| (es[j].0, es[j].1, es[j].2, payload.subrange(es[j].3 as int, es[j].4 as int)),
    );
    if es.len() == 0 {
        assert(want =~= Seq::<(int, Seq<u8>, u64, Seq<u8>)>::empty());
    } else {
        let t = es.drop_first();
        assert forall|j: int| 0 <= j < t.len() implies (#[trigger] t[j]).3 <= t[j].4 <= payload.len() by {
            assert(t[j] == es[j + 1]);
        }
        lemma_decoded_plain(payload, t);
        let e = es[0];
        assert(e.3 <= e.4 <= payload.len());
        let rest = Seq::new(t.len(), |j: int| (t[j].0, t[j].1, t[j].2, payload.subrange(t[j].3 as int, t[j].4 as int)));
        assert(seq![(e.0, e.1, e.2, payload.subrange(e.3 as int, e.4 as int))] + rest =~= want);
    }
}

/// Chunk bodies that are consecutive pieces of the raw section lay end to
/// end as the raw section from the first run to chunk `j`'s start.
pub proof fn lemma_concat_bodies(
    cs: Seq<(int, Seq<u8>, u64, Seq<u8>)>,
    raw: Seq<u8>,
    offs: Seq<u64>,
    fs: Seq<int>,
    j: int,
)
    requires
        chunking_ok(raw.len(), offs, fs),
        cs.len() == fs.len(),
        0 <= j <= fs.len(),
        forall|x: int|
            0 <= x < cs.len() ==> (#[trigger] cs[x]).3 == raw.subrange(
                chunk_start(raw.len(), offs, fs, x),
                chunk_start(raw.len(), offs, fs, x + 1),
            ),
    ensures
        crate::dict::concat_bodies(cs.take(j)) == raw.subrange(offs[0] as int, chunk_start(raw.len(), offs, fs, j)),
    decreases j,
{
    lemma_chunk_start_mono(raw.len(), offs, fs, 0, j);
    if j == 0 {
        assert(raw.subrange(offs[0] as int, offs[0] as int) =~= Seq::<u8>::empty());
    } else {
        lemma_concat_bodies(cs, raw, offs, fs, j - 1);
        lemma_chunk_start_mono(raw.len(), offs, fs, j - 1, j);
        assert(cs.take(j).drop_last() =~= cs.take(j - 1));
        assert(cs.take(j).last() == cs[j - 1]);
        assert(raw.subrange(offs[0] as int, chunk_start(raw.len(), offs, fs, j)) =~= raw.subrange(
            offs[0] as int,
            chunk_start(raw.len(), offs, fs, j - 1),
        ) + raw.subrange(chunk_start(raw.len(), offs, fs, j - 1), chunk_start(raw.len(), offs, fs, j)));
    }
}

/// The layout facts of a section laid out from `ts`: its run table is the
/// body-relative one shifted past the header, the body starts right after
/// the header, and its chunks start at run 0 when it has any terms.
pub proof fn lemma_section_layout(ts: Seq<Seq<u8>>)
    requires
        ts.len() <= u32::MAX,
        section_raw(ts, RESTART_INTERVAL as nat).len() <= u64::MAX,
    ensures
        ({
            let k = RESTART_INTERVAL as nat;
            let raw = section_raw(ts, k);
            let h = section_header(ts, k).len();
            let offs = raw_offsets(raw);
            let fs = chunk_firsts(offs, 0);
            &&& offs == run_offsets(ts, k).map_values(|o: u64| (o + h) as u64)
            &&& offs.len() == run_count(ts.len(), k)
            &&& offs.len() <= u32::MAX
            &&& raw.skip(h as int) == body_bytes(ts, k, ts.len() as int)
            &&& raw.take(h as int) == section_header(ts, k)
            &&& (offs.len() > 0 ==> offs[0] == h)
            &&& (fs.len() == 0 <==> ts.len() == 0)
            &&& (ts.len() > 0 ==> chunking_ok(raw.len(), offs, fs))
            &&& forall|r: int| 0 <= r < offs.len() ==> #[trigger] offs[r] >= h
        }),
{
    let k = RESTART_INTERVAL as nat;
    let raw = section_raw(ts, k);
    let h = section_header(ts, k).len();
    let n = ts.len();
    lemma_section_meta(ts, k);
    lemma_section_offsets_ok(ts);
    let offs = raw_offsets(raw);
    let fs = chunk_firsts(offs, 0);
    assert(offs.len() == run_count(n, k));
    assert(run_count(n, 16) == (n + 15) / 16);
    assert(raw.skip(h as int) =~= body_bytes(ts, k, n as int));
    assert(raw.take(h as int) =~= section_header(ts, k));
    if offs.len() > 0 {
        assert(run_offsets(ts, k)[0] == body_bytes(ts, k, 0).len());
    }
    lemma_chunk_firsts(offs, 0);
    assert(n == 0 <==> offs.len() == 0);
}

/// A section's run table is its body-relative one shifted, exactly, past
/// the header.
pub proof fn lemma_offsets_shift(ts: Seq<Seq<u8>>)
    requires
        ts.len() <= u32::MAX,
        section_raw(ts, RESTART_INTERVAL as nat).len() <= u64::MAX,
    ensures
        raw_offsets(section_raw(ts, RESTART_INTERVAL as nat)).len() == run_offsets(ts, RESTART_INTERVAL as nat).len(),
        forall|r: int|
            0 <= r < run_offsets(ts, RESTART_INTERVAL as nat).len() ==> #[trigger] raw_offsets(
                section_raw(ts, RESTART_INTERVAL as nat),
            )[r] == run_offsets(ts, RESTART_INTERVAL as nat)[r] + section_header(ts, RESTART_INTERVAL as nat).len(),
{
    let k = RESTART_INTERVAL as nat;
    let n = ts.len();
    let h = section_header(ts, k).len();
    lemma_section_meta(ts, k);
    let offs = raw_offsets(section_raw(ts, k));
    assert forall|r: int| 0 <= r < run_offsets(ts, k).len() implies #[trigger] offs[r] == run_offsets(ts, k)[r] + h by {
        assert(r * 16 <= n) by (nonlinear_arith)
            requires
                0 <= r < run_count(n, 16),
                run_count(n, 16) == (n + 15) / 16,
        ;
        lemma_body_prefix(ts, k, r * 16, n as int);
    }
}

/// How a chunk directory finishes once its front has read back: the
/// entries from `p2`, then their stored ranges.
pub open spec fn dir_after_front(
    b: Seq<u8>,
    p2: int,
    nc: nat,
    expected: u64,
    total: u64,
    m: (u32, u32, Seq<u64>),
) -> Result<((u32, u32, Seq<u64>), Seq<(int, Seq<u8>, u64, u64, u64)>), FileError> {
    match dir_entries(b, p2, 0, nc, None, expected, m.2) {
        Err(e) => Err(e),
        Ok((es, p3)) => match chunk_ranges(es.map_values(|e: (u64, Seq<u8>, u64, u64)| e.3), p3, total) {
            None => Err(FileError::Container("dict chunk overruns section")),
            Some(rs) => Ok((m, Seq::new(es.len(), |j: int| (es[j].0 as int, es[j].1, es[j].2, rs[j].0, rs[j].1)))),
        },
    }
}

/// The front of a chunk directory: a header length, a header that reads
/// back, and a chunk count that agrees with the header and fits the bytes
/// left; what follows decides the rest.
#[verifier::rlimit(30)]
#[verifier::spinoff_prover]
pub proof fn lemma_chunked_dir_front(
    header: Seq<u8>,
    nc: nat,
    rest: Seq<u8>,
    total: u64,
    m: (u32, u32, Seq<u64>),
)
    requires
        (uvarint_bytes(header.len()) + header + uvarint_bytes(nc) + rest).len() <= usize::MAX,
        nc <= u64::MAX,
        spec_section_meta(header) == Some((m.0, m.1, m.2, header.len())),
        (run_count(m.0 as nat, m.1 as nat) == 0) == (nc == 0),
        3 * nc <= rest.len(),
    ensures
        ({
            let b = uvarint_bytes(header.len()) + header + uvarint_bytes(nc) + rest;
            let p2 = (uvarint_bytes(header.len()) + header + uvarint_bytes(nc)).len() as int;
            spec_chunked_dir(b, total) == dir_after_front(b, p2, nc, run_count(m.0 as nat, m.1 as nat) as u64, total, m)
        }),
{
    let hl = header.len();
    let b = uvarint_bytes(hl) + header + uvarint_bytes(nc) + rest;
    crate::varint::lemma_read_write_uvarint(hl as u64, header + uvarint_bytes(nc) + rest);
    assert(b =~= uvarint_bytes(hl) + (header + uvarint_bytes(nc) + rest));
    assert(b.skip(0) =~= b);
    let q = uvarint_bytes(hl).len() as int;
    assert(b.subrange(q, q + hl) =~= header);
    assert(b.skip(q + hl) =~= uvarint_bytes(nc) + rest);
    crate::varint::lemma_read_write_uvarint(nc as u64, rest);
    let p2 = (uvarint_bytes(hl) + header + uvarint_bytes(nc)).len() as int;
    assert(b.len() - p2 == rest.len());
}

/// A chunked section laid out from `ts`, in parts: the header's length,
/// the header, the chunk count, the directory, then the raw body.
pub proof fn lemma_payload_parts(ts: Seq<Seq<u8>>)
    requires
        0 < ts.len() <= u32::MAX,
        section_raw(ts, RESTART_INTERVAL as nat).len() <= isize::MAX,
    ensures
        ({
            let k = RESTART_INTERVAL as nat;
            let raw = section_raw(ts, k);
            let h = section_header(ts, k).len();
            let offs = raw_offsets(raw);
            let fs = chunk_firsts(offs, 0);
            chunked_payload(raw) == uvarint_bytes(h) + section_header(ts, k) + uvarint_bytes(fs.len()) + chunk_dir(
                raw,
                offs,
                fs,
                fs.len() as int,
            ) + raw.skip(h as int)
        }),
{
    reveal(chunked_payload);
    let k = RESTART_INTERVAL as nat;
    let raw = section_raw(ts, k);
    let h = section_header(ts, k).len();
    lemma_section_layout(ts);
    let offs = raw_offsets(raw);
    let fs = chunk_firsts(offs, 0);
    lemma_chunk_bodies(raw, offs, fs, fs.len() as int);
}

/// A directory whose front has read back, laid out from a chunking of
/// `raw` and followed by the raw body, parses to one entry per chunk.
#[verifier::rlimit(100)]
#[verifier::spinoff_prover]
proof fn lemma_dir_assemble(
    raw: Seq<u8>,
    offs: Seq<u64>,
    fs: Seq<int>,
    p: Seq<u8>,
    p2: int,
    m: (u32, u32, Seq<u64>),
)
    requires
        chunking_ok(raw.len(), offs, fs),
        m.2 == offs,
        offs.len() <= u32::MAX,
        raw.len() <= isize::MAX,
        p.len() <= usize::MAX,
        0 <= p2,
        p.len() == p2 + chunk_dir(raw, offs, fs, fs.len() as int).len() + raw.len() - offs[0],
        p.subrange(p2, p2 + chunk_dir(raw, offs, fs, fs.len() as int).len()) == chunk_dir(
            raw,
            offs,
            fs,
            fs.len() as int,
        ),
    ensures
        ({
            let p3 = p2 + chunk_dir(raw, offs, fs, fs.len() as int).len();
            dir_after_front(p, p2, fs.len(), offs.len() as u64, p.len() as u64, m) == Ok::<
                ((u32, u32, Seq<u64>), Seq<(int, Seq<u8>, u64, u64, u64)>),
                FileError,
            >(
                (
                    m,
                    Seq::new(
                        fs.len(),
                        |j: int|
                            (
                                fs[j],
                                chunk_key(raw, offs, fs, j),
                                offs[fs[j]],
                                (p3 + chunk_start(raw.len(), offs, fs, j) - offs[0]) as u64,
                                (p3 + chunk_start(raw.len(), offs, fs, j + 1) - offs[0]) as u64,
                            ),
                    ),
                ),
            )
        }),
{
    let nf = fs.len() as int;
    let p3 = p2 + chunk_dir(raw, offs, fs, nf).len();
    lemma_dir_entries(p, p2, raw, offs, fs, 0);
    assert(chunk_dir(raw, offs, fs, 0).len() == 0);
    let es = Seq::new(fs.len(), |x: int| dir_entry_values(raw, offs, fs, 0 + x));
    assert(es.map_values(|e: (u64, Seq<u8>, u64, u64)| e.3) =~= Seq::new(
        (fs.len() - 0) as nat,
        |x: int| dir_entry_values(raw, offs, fs, 0 + x).3,
    ));
    assert(chunk_start(raw.len(), offs, fs, 0) == offs[0]);
    lemma_chunk_ranges(raw, offs, fs, 0, p3, p.len() as u64);
    let rs = Seq::new(
        (fs.len() - 0) as nat,
        |x: int|
            (
                (p3 + chunk_start(raw.len(), offs, fs, 0 + x) - offs[0]) as u64,
                (p3 + chunk_start(raw.len(), offs, fs, 0 + x + 1) - offs[0]) as u64,
            ),
    );
    assert forall|j: int| 0 <= j < nf implies (es[j].0 as int) == fs[j] by {
        assert(0 <= fs[j] < offs.len());
    }
    assert(Seq::new(fs.len(), |j: int| (es[j].0 as int, es[j].1, es[j].2, rs[j].0, rs[j].1)) =~= Seq::new(
        fs.len(),
        |j: int|
            (
                fs[j],
                chunk_key(raw, offs, fs, j),
                offs[fs[j]],
                (p3 + chunk_start(raw.len(), offs, fs, j) - offs[0]) as u64,
                (p3 + chunk_start(raw.len(), offs, fs, j + 1) - offs[0]) as u64,
            ),
    ));
}

/// The directory of a chunked section laid out from `ts` parses to the
/// section's meta and one entry per chunk, whose stored range holds that
/// chunk's piece of the raw section.
#[verifier::rlimit(100)]
#[verifier::spinoff_prover]
pub proof fn lemma_payload_dir(ts: Seq<Seq<u8>>)
    requires
        0 < ts.len() <= u32::MAX,
        section_raw(ts, RESTART_INTERVAL as nat).len() <= isize::MAX,
        chunked_payload(section_raw(ts, RESTART_INTERVAL as nat)).len() <= usize::MAX,
    ensures
        ({
            let k = RESTART_INTERVAL as nat;
            let raw = section_raw(ts, k);
            let h = section_header(ts, k).len();
            let offs = raw_offsets(raw);
            let fs = chunk_firsts(offs, 0);
            let p = chunked_payload(raw);
            let p3 = p.len() - (raw.len() - h);
            &&& h <= p3
            &&& p.skip(p3) == raw.skip(h as int)
            &&& spec_chunked_dir(p, p.len() as u64) == Ok::<
                ((u32, u32, Seq<u64>), Seq<(int, Seq<u8>, u64, u64, u64)>),
                FileError,
            >(
                (
                    (ts.len() as u32, RESTART_INTERVAL, offs),
                    Seq::new(
                        fs.len(),
                        |j: int|
                            (
                                fs[j],
                                chunk_key(raw, offs, fs, j),
                                offs[fs[j]],
                                (p3 + chunk_start(raw.len(), offs, fs, j) - h) as u64,
                                (p3 + chunk_start(raw.len(), offs, fs, j + 1) - h) as u64,
                            ),
                    ),
                ),
            )
        }),
{
    let k = RESTART_INTERVAL as nat;
    let n = ts.len();
    let raw = section_raw(ts, k);
    let h = section_header(ts, k).len();
    let header = section_header(ts, k);
    lemma_section_layout(ts);
    lemma_payload_parts(ts);
    let offs = raw_offsets(raw);
    let fs = chunk_firsts(offs, 0);
    let nf = fs.len() as int;
    let p = chunked_payload(raw);
    let d = chunk_dir(raw, offs, fs, nf);
    let bodies = raw.skip(h as int);
    let a = uvarint_bytes(h) + header + uvarint_bytes(nf as nat);
    assert(p == a + d + bodies);
    let p2 = a.len() as int;
    let p3 = p2 + d.len();
    assert(p.len() == p3 + raw.len() - h);
    assert(p.skip(p3) =~= bodies);
    lemma_header_meta(ts, k, Seq::empty());
    assert(header + Seq::<u8>::empty() =~= header);
    lemma_chunk_dir_len(raw, offs, fs, nf);
    lemma_chunked_dir_front(header, nf as nat, d + bodies, p.len() as u64, (n as u32, RESTART_INTERVAL, offs));
    assert(p =~= uvarint_bytes(h) + header + uvarint_bytes(nf as nat) + (d + bodies));
    assert(p.subrange(p2, p2 + d.len()) =~= d);
    lemma_dir_assemble(raw, offs, fs, p, p2, (n as u32, RESTART_INTERVAL, offs));
}

/// A section with no terms: header, a zero chunk count and nothing else
/// reads back as no terms.
proof fn lemma_empty_section_roundtrip(ts: Seq<Seq<u8>>)
    requires
        ts.len() == 0,
    ensures
        spec_section_decode(chunked_payload(section_raw(ts, RESTART_INTERVAL as nat)), CODEC_NONE) == Ok::<
            Seq<Seq<u8>>,
            FileError,
        >(ts),
{
    reveal(chunked_payload);
    let k = RESTART_INTERVAL as nat;
    let raw = section_raw(ts, k);
    let header = section_header(ts, k);
    let h = header.len();
    assert(body_bytes(ts, k, 0) =~= Seq::<u8>::empty());
    lemma_body_len(ts, k, 0);
    assert(run_count(0, 16) == 0);
    assert(run_offsets(ts, k) =~= Seq::<u64>::empty());
    crate::varint::lemma_uvarint_len(0, 1);
    crate::varint::lemma_uvarint_len(16, 1);
    crate::varint::lemma_uvarint_len(0, 1);
    assert(h <= 3) by {
        assert(canonicals_bytes(Seq::<u64>::empty()) =~= Seq::<u8>::empty());
        assert(uvarint_bytes(0) == seq![0u8]);
        assert(uvarint_bytes(16) == seq![16u8]);
    }
    lemma_section_layout(ts);
    let offs = raw_offsets(raw);
    let fs = chunk_firsts(offs, 0);
    assert(fs.len() == 0);
    let p = chunked_payload(raw);
    assert(chunk_dir(raw, offs, fs, 0) =~= Seq::<u8>::empty());
    assert(chunk_bodies(raw, offs, fs, 0) =~= Seq::<u8>::empty());
    assert(raw.take(h as int) =~= raw);
    assert(p =~= uvarint_bytes(h) + header + uvarint_bytes(0) + Seq::<u8>::empty());
    lemma_header_meta(ts, k, Seq::empty());
    assert(header + Seq::<u8>::empty() =~= header);
    lemma_chunked_dir_front(header, 0, Seq::empty(), p.len() as u64, (0u32, RESTART_INTERVAL, offs));
    let pre = uvarint_bytes(h) + header + uvarint_bytes(0);
    let e = Seq::<(u64, Seq<u8>, u64, u64)>::empty();
    assert(e.map_values(|x: (u64, Seq<u8>, u64, u64)| x.3) =~= Seq::<u64>::empty());
    assert(Seq::new(e.len(), |j: int| (e[j].0 as int, e[j].1, e[j].2, 0u64, 0u64)) =~= Seq::<
        (int, Seq<u8>, u64, u64, u64),
    >::empty());
    assert(concat_bodies(Seq::<(int, Seq<u8>, u64, Seq<u8>)>::empty()) =~= Seq::<u8>::empty());
    assert(p.len() == pre.len());
    let m3 = (0u32, RESTART_INTERVAL, offs);
    assert(dir_entries(p, pre.len() as int, 0, 0, None, 0, offs) == Ok::<(Seq<(u64, Seq<u8>, u64, u64)>, int), FileError>((e, pre.len() as int)));
    assert(crate::dict::chunk_ranges(e.map_values(|x: (u64, Seq<u8>, u64, u64)| x.3), pre.len() as int, p.len() as u64) == Some(Seq::<(u64, u64)>::empty()));
    let r = spec_chunked_dir(p, p.len() as u64);
    assert(r is Ok);
    let xs = r->Ok_0.1;
    assert(xs.len() == 0);
    assert(r->Ok_0.0 == m3);
    assert(xs =~= Seq::<(int, Seq<u8>, u64, u64, u64)>::empty());
    assert(spec_chunked_dir(p, p.len() as u64) == Ok::<((u32, u32, Seq<u64>), Seq<(int, Seq<u8>, u64, u64, u64)>), FileError>((m3, Seq::empty())));
    assert(decoded_chunks(p, CODEC_NONE, Seq::empty()) == Ok::<Seq<(int, Seq<u8>, u64, Seq<u8>)>, FileError>(Seq::empty()));
    assert(spec_chunked_section(p, CODEC_NONE) == Ok::<((u32, u32, Seq<u64>), Seq<(int, Seq<u8>, u64, Seq<u8>)>), FileError>((m3, Seq::empty())));
    assert(offs =~= Seq::<u64>::empty());
    assert(crate::dict::relative_offsets(offs) == Some(Seq::<u64>::empty()));
    assert(ts =~= Seq::<Seq<u8>>::empty());
}

/// The decoded chunks of a section laid out from `ts`: one per chunk,
/// each holding its piece of the raw section.
pub open spec fn section_pieces(ts: Seq<Seq<u8>>) -> Seq<(int, Seq<u8>, u64, Seq<u8>)> {
    let raw = section_raw(ts, RESTART_INTERVAL as nat);
    let offs = raw_offsets(raw);
    let fs = chunk_firsts(offs, 0);
    Seq::new(
        fs.len(),
        |j: int|
            (
                fs[j],
                chunk_key(raw, offs, fs, j),
                offs[fs[j]],
                raw.subrange(chunk_start(raw.len(), offs, fs, j), chunk_start(raw.len(), offs, fs, j + 1)),
            ),
    )
}

/// A chunked section laid out from `ts` decodes, stored as written, to its
/// meta and its pieces.
#[verifier::rlimit(50)]
#[verifier::spinoff_prover]
proof fn lemma_payload_chunks(ts: Seq<Seq<u8>>)
    requires
        0 < ts.len() <= u32::MAX,
        section_raw(ts, RESTART_INTERVAL as nat).len() <= isize::MAX,
        chunked_payload(section_raw(ts, RESTART_INTERVAL as nat)).len() <= usize::MAX,
    ensures
        spec_chunked_section(chunked_payload(section_raw(ts, RESTART_INTERVAL as nat)), CODEC_NONE) == Ok::<
            ((u32, u32, Seq<u64>), Seq<(int, Seq<u8>, u64, Seq<u8>)>),
            FileError,
        >(((ts.len() as u32, RESTART_INTERVAL, raw_offsets(section_raw(ts, RESTART_INTERVAL as nat))), section_pieces(ts))),
{
    let k = RESTART_INTERVAL as nat;
    let raw = section_raw(ts, k);
    let h = section_header(ts, k).len();
    lemma_section_layout(ts);
    lemma_payload_dir(ts);
    let offs = raw_offsets(raw);
    let fs = chunk_firsts(offs, 0);
    let nf = fs.len() as int;
    let p = chunked_payload(raw);
    let p3 = p.len() - (raw.len() - h);
    let es = Seq::new(
        fs.len(),
        |j: int|
            (
                fs[j],
                chunk_key(raw, offs, fs, j),
                offs[fs[j]],
                (p3 + chunk_start(raw.len(), offs, fs, j) - h) as u64,
                (p3 + chunk_start(raw.len(), offs, fs, j + 1) - h) as u64,
            ),
    );
    assert forall|j: int| 0 <= j < es.len() implies (#[trigger] es[j]).3 <= es[j].4 <= p.len() by {
        lemma_chunk_start_mono(raw.len(), offs, fs, j, j + 1);
        lemma_chunk_start_mono(raw.len(), offs, fs, j + 1, nf);
    }
    lemma_decoded_plain(p, es);
    let cs = Seq::new(
        es.len(),
        |j: int| (es[j].0, es[j].1, es[j].2, p.subrange(es[j].3 as int, es[j].4 as int)),
    );
    assert forall|x: int| 0 <= x < cs.len() implies (#[trigger] cs[x]) == section_pieces(ts)[x] by {
        lemma_chunk_start_mono(raw.len(), offs, fs, x, x + 1);
        lemma_chunk_start_mono(raw.len(), offs, fs, x + 1, nf);
        let a = chunk_start(raw.len(), offs, fs, x);
        let c = chunk_start(raw.len(), offs, fs, x + 1);
        assert(h <= a);
        assert(p.subrange(p3 + a - h, p3 + c - h) =~= raw.subrange(a, c)) by {
            assert forall|y: int| 0 <= y < c - a implies p.subrange(p3 + a - h, p3 + c - h)[y] == raw.subrange(a, c)[y] by {
                assert(p.skip(p3)[a - h + y] == raw.skip(h as int)[a - h + y]);
            }
        }
    }
    assert(cs =~= section_pieces(ts));
}

/// The pieces of a section laid out from `ts`, laid end to end and read
/// against its header, are `ts`.
#[verifier::rlimit(50)]
#[verifier::spinoff_prover]
proof fn lemma_pieces_terms(ts: Seq<Seq<u8>>)
    requires
        0 < ts.len() <= u32::MAX,
        forall|j: int| 0 <= j < ts.len() ==> (#[trigger] ts[j]).len() <= u64::MAX,
        section_raw(ts, RESTART_INTERVAL as nat).len() <= isize::MAX,
    ensures
        crate::dict::spec_section_terms(
            (ts.len() as u32, RESTART_INTERVAL, raw_offsets(section_raw(ts, RESTART_INTERVAL as nat))),
            section_pieces(ts),
        ) == Some(ts),
{
    let k = RESTART_INTERVAL as nat;
    let n = ts.len();
    let raw = section_raw(ts, k);
    let h = section_header(ts, k).len();
    lemma_section_layout(ts);
    let offs = raw_offsets(raw);
    let fs = chunk_firsts(offs, 0);
    let nf = fs.len() as int;
    let cs = section_pieces(ts);
    lemma_concat_bodies(cs, raw, offs, fs, nf);
    assert(cs.take(nf) =~= cs);
    assert(raw.subrange(h as int, raw.len() as int) =~= body_bytes(ts, k, n as int));
    let rel = run_offsets(ts, k);
    lemma_offsets_shift(ts);
    assert(offs.map_values(|o: u64| (o - offs[0]) as u64) =~= rel);
    assert(crate::dict::relative_offsets(offs) == Some(rel));
    assert(body_bytes(ts, k, 0) =~= Seq::<u8>::empty());
    lemma_body_prefix(ts, k, 0, n as int);
    crate::dict::lemma_decode_body_from(ts, k, 0);
    assert(ts.skip(0) =~= ts);
}

/// The section law: a section laid out from `ts` and put in chunked form
/// decodes, stored as written, to `ts` again.
pub proof fn lemma_section_roundtrip(ts: Seq<Seq<u8>>)
    requires
        ts.len() <= u32::MAX,
        forall|j: int| 0 <= j < ts.len() ==> (#[trigger] ts[j]).len() <= u64::MAX,
        section_raw(ts, RESTART_INTERVAL as nat).len() <= isize::MAX,
        chunked_payload(section_raw(ts, RESTART_INTERVAL as nat)).len() <= usize::MAX,
    ensures
        spec_section_decode(chunked_payload(section_raw(ts, RESTART_INTERVAL as nat)), CODEC_NONE) == Ok::<
            Seq<Seq<u8>>,
            FileError,
        >(ts),
{
    if ts.len() == 0 {
        lemma_empty_section_roundtrip(ts);
    } else {
        lemma_payload_chunks(ts);
        lemma_pieces_terms(ts);
    }
}

/// A term list whose section can be laid out and addressed: its ids fit
/// a `u32` and its raw and chunked forms fit the address space.
pub open spec fn section_fits(ts: Seq<Seq<u8>>) -> bool {
    &&& ts.len() <= u32::MAX
    &&& section_raw(ts, RESTART_INTERVAL as nat).len() <= isize::MAX
    &&& chunked_payload(section_raw(ts, RESTART_INTERVAL as nat)).len() <= usize::MAX
}

/// Terms held in vectors have lengths that fit a `u64`.
proof fn lemma_term_lens(v: Seq<Vec<u8>>)
    ensures
        forall|j: int| 0 <= j < terms_of(v).len() ==> (#[trigger] terms_of(v)[j]).len() <= u64::MAX,
{
    assert forall|j: int| 0 <= j < terms_of(v).len() implies (#[trigger] terms_of(v)[j]).len() <= u64::MAX by {
        assert(terms_of(v)[j] == v[j]@);
        assert(v[j].len() == v[j]@.len());
    }
}

/// The section law for terms held in vectors.
proof fn lemma_vec_section_roundtrip(v: Seq<Vec<u8>>)
    requires
        section_fits(terms_of(v)),
    ensures
        spec_section_decode(chunked_payload(section_raw(terms_of(v), RESTART_INTERVAL as nat)), CODEC_NONE) == Ok::<
            Seq<Seq<u8>>,
            FileError,
        >(terms_of(v)),
        chunked_payload(section_raw(terms_of(v), RESTART_INTERVAL as nat)).len() <= usize::MAX,
{
    lemma_term_lens(v);
    lemma_section_roundtrip(terms_of(v));
}

/// Four section payloads that each decode, framed in a container, decode
/// as a dictionary of their four term lists.
proof fn lemma_framed_sections(
    ps: Seq<Seq<u8>>,
    a: Seq<Seq<u8>>,
    b: Seq<Seq<u8>>,
    c: Seq<Seq<u8>>,
    e: Seq<Seq<u8>>,
)
    requires
        ps.len() == 4,
        forall|i: int| 0 <= i < 4 ==> #[trigger] ps[i].len() <= usize::MAX,
        spec_section_decode(ps[0], CODEC_NONE) == Ok::<Seq<Seq<u8>>, FileError>(a),
        spec_section_decode(ps[1], CODEC_NONE) == Ok::<Seq<Seq<u8>>, FileError>(b),
        spec_section_decode(ps[2], CODEC_NONE) == Ok::<Seq<Seq<u8>>, FileError>(c),
        spec_section_decode(ps[3], CODEC_NONE) == Ok::<Seq<Seq<u8>>, FileError>(e),
    ensures
        spec_dictionary(container_bytes(ps), CODEC_NONE) == Ok::<
            (Seq<Seq<u8>>, Seq<Seq<u8>>, Seq<Seq<u8>>, Seq<Seq<u8>>),
            FileError,
        >((a, b, c, e)),
{
    crate::container::lemma_container_roundtrip(ps);
}

/// The dictionary law: a dictionary written to its container reads back
/// as the same four term lists, in the same order.
#[verifier::rlimit(100)]
#[verifier::spinoff_prover]
pub proof fn lemma_dictionary_roundtrip(d: Dictionary)
    requires
        section_fits(d.shared_terms()),
        section_fits(d.subject_terms()),
        section_fits(d.object_terms()),
        section_fits(d.predicate_terms()),
    ensures
        spec_dictionary(container_bytes(dict_payloads(d)), CODEC_NONE) == Ok::<
            (Seq<Seq<u8>>, Seq<Seq<u8>>, Seq<Seq<u8>>, Seq<Seq<u8>>),
            FileError,
        >((d.shared_terms(), d.subject_terms(), d.object_terms(), d.predicate_terms())),
{
    lemma_vec_section_roundtrip(d.shared@);
    lemma_vec_section_roundtrip(d.subjects@);
    lemma_vec_section_roundtrip(d.objects@);
    lemma_vec_section_roundtrip(d.predicates@);
    let ps = dict_payloads(d);
    assert(ps[0] == chunked_payload(section_raw(d.shared_terms(), RESTART_INTERVAL as nat)));
    assert(ps[1] == chunked_payload(section_raw(d.subject_terms(), RESTART_INTERVAL as nat)));
    assert(ps[2] == chunked_payload(section_raw(d.object_terms(), RESTART_INTERVAL as nat)));
    assert(ps[3] == chunked_payload(section_raw(d.predicate_terms(), RESTART_INTERVAL as nat)));
    assert(forall|i: int| 0 <= i < 4 ==> #[trigger] ps[i].len() <= usize::MAX);
    lemma_framed_sections(ps, d.shared_terms(), d.subject_terms(), d.object_terms(), d.predicate_terms());
}

} // verus!
