//! Unsigned LEB128 varints: the length and count framing of every section of
//! the file format.
use vstd::prelude::*;

verus! {

/// `128^n`.
pub open spec fn pow128(n: nat) -> nat
    decreases n,
{
    if n == 0 {
        1
    } else {
        128 * pow128((n - 1) as nat)
    }
}

/// The canonical (shortest) LEB128 encoding of `v`: seven payload bits per
/// byte, least significant group first, high bit set on every byte but the
/// last.
pub open spec fn uvarint_bytes(v: nat) -> Seq<u8>
    decreases v,
{
    if v < 128 {
        seq![v as u8]
    } else {
        seq![(v % 128 + 128) as u8] + uvarint_bytes(v / 128)
    }
}

/// Decode the LEB128 group at the front of `s`, reading at most `budget`
/// bytes: the value and the number of bytes it used, or `None` when no
/// terminating byte (high bit clear) occurs within the budget.
pub open spec fn leb_decode(s: Seq<u8>, budget: nat) -> Option<(int, nat)>
    decreases budget,
{
    if budget == 0 || s.len() == 0 {
        None
    } else if s[0] < 128 {
        Some((s[0] as int, 1))
    } else {
        match leb_decode(s.drop_first(), (budget - 1) as nat) {
            Some((v, n)) => Some(((s[0] - 128) + 128 * v, n + 1)),
            None => None,
        }
    }
}

/// What [`read_uvarint`] returns on `s`: a varint of at most ten bytes whose
/// value fits in a `u64`, with the number of bytes it occupies.
pub open spec fn spec_read_uvarint(s: Seq<u8>) -> Option<(u64, nat)> {
    match leb_decode(s, 10) {
        Some((v, n)) => if v <= u64::MAX {
            Some((v as u64, n))
        } else {
            None
        },
        None => None,
    }
}

/// A decoded group stays below `128^budget` and uses at most `budget` bytes,
/// all of them inside `s`.
pub proof fn lemma_leb_decode_bounds(s: Seq<u8>, budget: nat)
    ensures
        leb_decode(s, budget) matches Some((v, n)) ==> 0 <= v < pow128(budget) && 1 <= n
            <= budget && n <= s.len(),
    decreases budget,
{
    if budget > 0 && s.len() > 0 && s[0] >= 128 {
        lemma_leb_decode_bounds(s.drop_first(), (budget - 1) as nat);
        if let Some((v, n)) = leb_decode(s.drop_first(), (budget - 1) as nat) {
            assert((s[0] - 128) + 128 * v < 128 + 128 * v);
            assert(128 * v + 128 <= 128 * pow128((budget - 1) as nat)) by (nonlinear_arith)
                requires
                    v < pow128((budget - 1) as nat),
            ;
        }
    } else if budget > 0 && s.len() > 0 {
        assert(pow128(budget) == 128 * pow128((budget - 1) as nat));
        lemma_pow128_positive((budget - 1) as nat);
    }
}

pub proof fn lemma_pow128_positive(n: nat)
    ensures
        pow128(n) >= 1,
    decreases n,
{
    if n > 0 {
        lemma_pow128_positive((n - 1) as nat);
    }
}

/// `128^10` exceeds every `u64`, and `128^9` does not.
pub proof fn lemma_pow128_ten()
    ensures
        pow128(9) == 0x8000_0000_0000_0000,
        pow128(10) > u64::MAX,
{
    reveal_with_fuel(pow128, 11);
}

/// The canonical encoding has between one and ten bytes for a `u64`, and the
/// length grows with the value: fewer than `budget` bytes exactly when the
/// value is below `128^budget`.
pub proof fn lemma_uvarint_len(v: nat, budget: nat)
    requires
        budget >= 1,
    ensures
        uvarint_bytes(v).len() >= 1,
        v < pow128(budget) <==> uvarint_bytes(v).len() <= budget,
    decreases v,
{
    assert(pow128(1) == 128) by {
        reveal_with_fuel(pow128, 2);
    }
    lemma_pow128_mono(1, budget);
    if v >= 128 {
        if budget == 1 {
            lemma_uvarint_len(v / 128, 1);
        } else {
            lemma_uvarint_len(v / 128, (budget - 1) as nat);
            assert(v < pow128(budget) <==> v / 128 < pow128((budget - 1) as nat)) by (
            nonlinear_arith)
                requires
                    pow128(budget) == 128 * pow128((budget - 1) as nat),
            ;
        }
    }
}

/// Decoding gives back what encoding wrote, whatever bytes follow it, as long
/// as the encoding fits the budget.
pub proof fn lemma_leb_roundtrip(v: nat, rest: Seq<u8>, budget: nat)
    requires
        v < pow128(budget),
        budget >= 1,
    ensures
        leb_decode(uvarint_bytes(v) + rest, budget) == Some((v as int, uvarint_bytes(v).len())),
    decreases v,
{
    let s = uvarint_bytes(v) + rest;
    assert(pow128(1) == 128) by {
        reveal_with_fuel(pow128, 2);
    }
    if v < 128 {
        assert(s[0] == v as u8);
    } else {
        assert(budget >= 2);
        assert(v / 128 < pow128((budget - 1) as nat)) by (nonlinear_arith)
            requires
                v < pow128(budget),
                pow128(budget) == 128 * pow128((budget - 1) as nat),
                budget > 0,
        ;
        lemma_leb_roundtrip(v / 128, rest, (budget - 1) as nat);
        assert(s.drop_first() =~= uvarint_bytes(v / 128) + rest);
        assert(s[0] == (v % 128 + 128) as u8);
    }
}

/// The varint law: reading back a written value yields the value and the
/// length of its encoding, whatever follows it.
pub proof fn lemma_read_write_uvarint(v: u64, rest: Seq<u8>)
    ensures
        spec_read_uvarint(uvarint_bytes(v as nat) + rest) == Some((v, uvarint_bytes(v as nat).len())),
        1 <= uvarint_bytes(v as nat).len() <= 10,
{
    lemma_pow128_ten();
    lemma_leb_roundtrip(v as nat, rest, 10);
    lemma_uvarint_len(v as nat, 10);
}

/// Decode a group of at most `budget` (at most nine) bytes starting at `pos`.
fn decode_group(s: &[u8], pos: usize, budget: usize) -> (r: Option<(u64, usize)>)
    requires
        budget <= 9,
        pos <= s@.len(),
    ensures
        match leb_decode(s@.skip(pos as int), budget as nat) {
            Some((v, n)) => r == Some((v as u64, n as usize)) && v < pow128(budget as nat),
            None => r is None,
        },
    decreases budget,
{
    proof {
        lemma_leb_decode_bounds(s@.skip(pos as int), budget as nat);
        lemma_pow128_ten();
        lemma_pow128_mono(budget as nat, 9);
    }
    if budget == 0 || pos >= s.len() {
        return None;
    }
    let b = s[pos];
    if b < 128 {
        return Some((b as u64, 1));
    }
    proof {
        assert(s@.skip(pos as int).drop_first() =~= s@.skip(pos + 1));
    }
    match decode_group(s, pos + 1, budget - 1) {
        Some((v, n)) => {
            proof {
                lemma_pow128_mono((budget - 1) as nat, 8);
                assert(pow128(8) == 0x0100_0000_0000_0000) by {
                    reveal_with_fuel(pow128, 9);
                }
            }
            Some(((b - 128) as u64 + 128 * v, n + 1))
        },
        None => None,
    }
}

pub proof fn lemma_pow128_mono(a: nat, b: nat)
    requires
        a <= b,
    ensures
        pow128(a) <= pow128(b),
    decreases b,
{
    if a < b {
        lemma_pow128_mono(a, (b - 1) as nat);
        lemma_pow128_positive((b - 1) as nat);
    }
}

/// Read one varint from the front of `bytes`: `(value, bytes used)`, or `None`
/// when the slice ends before the varint does, the varint runs past ten bytes,
/// or its value overflows a `u64`.
pub fn read_uvarint(bytes: &[u8]) -> (r: Option<(u64, usize)>)
    ensures
        match spec_read_uvarint(bytes@) {
            Some((v, n)) => r == Some((v, n as usize)),
            None => r is None,
        },
        r matches Some((v, n)) ==> spec_read_uvarint(bytes@) == Some((v, n as nat)) && 1 <= n <= 10
            && n <= bytes@.len(),
{
    proof {
        assert(bytes@.skip(0) =~= bytes@);
    }
    read_uvarint_at(bytes, 0)
}

/// [`read_uvarint`] on the bytes from `pos` on (nothing when `pos` is past the
/// end).
pub fn read_uvarint_at(bytes: &[u8], pos: usize) -> (r: Option<(u64, usize)>)
    ensures
        pos <= bytes@.len() ==> match spec_read_uvarint(bytes@.skip(pos as int)) {
            Some((v, n)) => r == Some((v, n as usize)),
            None => r is None,
        },
        pos > bytes@.len() ==> r is None,
        r matches Some((_, n)) ==> 1 <= n <= 10 && pos + n <= bytes@.len(),
        r matches Some((v, n)) ==> spec_read_uvarint(bytes@.skip(pos as int)) == Some((v, n as nat)),
{
    if pos >= bytes.len() {
        return None;
    }
    let ghost s = bytes@.skip(pos as int);
    proof {
        lemma_leb_decode_bounds(s, 10);
        lemma_pow128_ten();
    }
    let b = bytes[pos];
    if b < 128 {
        return Some((b as u64, 1));
    }
    proof {
        assert(s.drop_first() =~= bytes@.skip(pos + 1));
    }
    match decode_group(bytes, pos + 1, 9) {
        Some((v, n)) => {
            if v > (u64::MAX - (b - 128) as u64) / 128 {
                proof {
                    assert((b - 128) + 128 * v > u64::MAX) by (nonlinear_arith)
                        requires
                            v > (u64::MAX - (b - 128) as u64) / 128,
                            b >= 128,
                    ;
                }
                None
            } else {
                proof {
                    assert((b - 128) + 128 * v <= u64::MAX) by (nonlinear_arith)
                        requires
                            v <= (u64::MAX - (b - 128) as u64) / 128,
                            b >= 128,
                            b < 256,
                    ;
                }
                Some(((b - 128) as u64 + 128 * v, n + 1))
            }
        },
        None => None,
    }
}

/// What a strict reader accepts at the front of `s`: a varint of at most ten
/// bytes that fits a `u64` and is written in its shortest form.
pub open spec fn spec_read_canonical(s: Seq<u8>) -> Option<(u64, nat)> {
    match spec_read_uvarint(s) {
        Some((v, n)) => if n == uvarint_bytes(v as nat).len() {
            Some((v, n))
        } else {
            None
        },
        None => None,
    }
}

/// A group decoded in exactly as many bytes as the shortest encoding of its
/// value takes is that encoding.
pub proof fn lemma_leb_canonical(s: Seq<u8>, budget: nat)
    ensures
        leb_decode(s, budget) matches Some((v, n)) ==> (v >= 0 && n == uvarint_bytes(v as nat).len()
            ==> s.take(n as int) == uvarint_bytes(v as nat)),
    decreases budget,
{
    lemma_leb_decode_bounds(s, budget);
    if budget > 0 && s.len() > 0 && s[0] >= 128 {
        let t = s.drop_first();
        lemma_leb_canonical(t, (budget - 1) as nat);
        lemma_leb_decode_bounds(t, (budget - 1) as nat);
        if let Some((w, m)) = leb_decode(t, (budget - 1) as nat) {
            let v = (s[0] - 128) + 128 * w;
            if v >= 0 && m + 1 == uvarint_bytes(v as nat).len() {
                assert(v >= 128) by {
                    if v < 128 {
                        assert(uvarint_bytes(v as nat).len() == 1);
                    }
                }
                assert(v % 128 == s[0] - 128 && v / 128 == w) by (nonlinear_arith)
                    requires
                        v == (s[0] - 128) + 128 * w,
                        0 <= s[0] - 128 < 128,
                        w >= 0,
                ;
                assert(uvarint_bytes(v as nat) == seq![(v % 128 + 128) as u8] + uvarint_bytes(
                    (v / 128) as nat,
                ));
                assert(t.take(m as int) == uvarint_bytes(w as nat));
                assert(s.take((m + 1) as int) =~= seq![s[0]] + t.take(m as int));
                assert((v % 128 + 128) as u8 == s[0]);
            }
        }
    }
}

/// Reading a strict varint from the front of `s` consumes exactly the
/// shortest encoding of the value read.
pub proof fn lemma_read_canonical_bytes(s: Seq<u8>)
    ensures
        spec_read_canonical(s) matches Some((v, n)) ==> s.take(n as int) == uvarint_bytes(v as nat)
            && 1 <= n <= 10 && n <= s.len(),
{
    lemma_leb_canonical(s, 10);
    lemma_leb_decode_bounds(s, 10);
}

/// A strict reader accepts what the writer wrote, whatever follows it.
pub proof fn lemma_read_canonical_write(v: u64, rest: Seq<u8>)
    ensures
        spec_read_canonical(uvarint_bytes(v as nat) + rest) == Some((v, uvarint_bytes(v as nat).len())),
        1 <= uvarint_bytes(v as nat).len() <= 10,
{
    lemma_read_write_uvarint(v, rest);
}

/// Two values whose shortest encodings start byte strings that agree are
/// equal, provided the first fits a `u64`.
pub proof fn lemma_read_canonical_write_nat(v: nat, rest: Seq<u8>)
    ensures
        v <= u64::MAX ==> spec_read_canonical(uvarint_bytes(v) + rest) == Some(
            (v as u64, uvarint_bytes(v).len()),
        ),
        v > u64::MAX ==> spec_read_canonical(uvarint_bytes(v) + rest) is None,
{
    if v <= u64::MAX {
        lemma_read_write_uvarint(v as u64, rest);
    } else {
        lemma_pow128_ten();
        lemma_uvarint_len(v, 10);
        let s = uvarint_bytes(v) + rest;
        lemma_leb_canonical(s, 10);
        lemma_leb_decode_bounds(s, 10);
        if let Some((w, n)) = leb_decode(s, 10) {
            if w <= u64::MAX && n == uvarint_bytes(w as nat).len() {
                lemma_read_write_uvarint(w as u64, s.skip(n as int));
                assert(s =~= uvarint_bytes(w as nat) + s.skip(n as int)) by {
                    assert(s.take(n as int) == uvarint_bytes(w as nat));
                }
                lemma_uvarint_prefix_unique(w as nat, v, s.skip(n as int), rest);
            }
        }
    }
}

/// Shortest encodings are prefix-free: two that start the same string are
/// the same encoding.
pub proof fn lemma_uvarint_prefix_unique(a: nat, b: nat, x: Seq<u8>, y: Seq<u8>)
    requires
        uvarint_bytes(a) + x == uvarint_bytes(b) + y,
    ensures
        a == b,
    decreases a,
{
    let s = uvarint_bytes(a) + x;
    assert(s[0] == uvarint_bytes(a)[0]);
    assert(s[0] == uvarint_bytes(b)[0]);
    if a < 128 && b < 128 {
    } else if a >= 128 && b >= 128 {
        assert((uvarint_bytes(a) + x).drop_first() =~= uvarint_bytes(a / 128) + x);
        assert((uvarint_bytes(b) + y).drop_first() =~= uvarint_bytes(b / 128) + y);
        lemma_uvarint_prefix_unique(a / 128, b / 128, x, y);
        assert(a == 128 * (a / 128) + a % 128);
        assert(b == 128 * (b / 128) + b % 128);
    } else {
        assert(false);
    }
}

/// Read one strict varint at `pos`: the value and its length, or `None` when
/// the bytes there are not the shortest encoding of a `u64`.
pub fn read_canonical_at(bytes: &[u8], pos: usize) -> (r: Option<(u64, usize)>)
    ensures
        pos <= bytes@.len() ==> match spec_read_canonical(bytes@.skip(pos as int)) {
            Some((v, n)) => r == Some((v, n as usize)),
            None => r is None,
        },
        pos > bytes@.len() ==> r is None,
        r matches Some((v, n)) ==> 1 <= n <= 10 && pos + n <= bytes@.len() && bytes@.subrange(
            pos as int,
            pos + n,
        ) == uvarint_bytes(v as nat),
{
    match read_uvarint_at(bytes, pos) {
        Some((v, n)) => {
            let c = uvarint_len(v);
            if c != n as u64 {
                return None;
            }
            proof {
                lemma_read_canonical_bytes(bytes@.skip(pos as int));
                assert(bytes@.skip(pos as int).take(n as int) =~= bytes@.subrange(pos as int, pos + n));
            }
            Some((v, n))
        },
        None => None,
    }
}

/// Append the canonical encoding of `v` to `out`.
pub fn write_uvarint(out: &mut Vec<u8>, v: u64)
    ensures
        final(out)@ == old(out)@ + uvarint_bytes(v as nat),
{
    let mut x = v;
    while x >= 128
        invariant
            old(out)@ + uvarint_bytes(v as nat) == out@ + uvarint_bytes(x as nat),
        decreases x,
    {
        let ghost before = out@;
        out.push((x % 128 + 128) as u8);
        proof {
            assert(before + uvarint_bytes(x as nat) =~= out@ + uvarint_bytes((x / 128) as nat));
        }
        x = x / 128;
    }
    let ghost before = out@;
    out.push(x as u8);
    proof {
        assert(before + uvarint_bytes(x as nat) =~= out@);
    }
}

/// Number of bytes the canonical encoding of `v` occupies.
pub fn uvarint_len(v: u64) -> (r: u64)
    ensures
        r == uvarint_bytes(v as nat).len(),
        1 <= r <= 10,
{
    proof {
        lemma_read_write_uvarint(v, Seq::empty());
    }
    let mut x = v;
    let mut n: u64 = 1;
    while x >= 128
        invariant
            n + uvarint_bytes(x as nat).len() == uvarint_bytes(v as nat).len() + 1,
            uvarint_bytes(v as nat).len() <= 10,
            n >= 1,
        decreases x,
    {
        proof {
            lemma_uvarint_len((x / 128) as nat, 1);
        }
        x = x / 128;
        n = n + 1;
    }
    n
}

/// Concatenated shortest-form varints.
pub open spec fn canonicals_bytes(vs: Seq<u64>) -> Seq<u8>
    decreases vs.len(),
{
    if vs.len() == 0 {
        seq![]
    } else {
        canonicals_bytes(vs.drop_last()) + uvarint_bytes(vs.last() as nat)
    }
}

/// The encoding of a prefix is a prefix of the encoding.
pub proof fn lemma_canonicals_prefix(vs: Seq<u64>, i: int)
    requires
        0 <= i <= vs.len(),
    ensures
        canonicals_bytes(vs.take(i)).len() <= canonicals_bytes(vs).len(),
        canonicals_bytes(vs).subrange(0, canonicals_bytes(vs.take(i)).len() as int)
            == canonicals_bytes(vs.take(i)),
        i < vs.len() ==> canonicals_bytes(vs.take(i + 1)) == canonicals_bytes(vs.take(i))
            + uvarint_bytes(vs[i] as nat),
    decreases vs.len(),
{
    if i < vs.len() {
        assert(vs.take(i + 1).drop_last() =~= vs.take(i));
    }
    if i == vs.len() {
        assert(vs.take(i) =~= vs);
    } else {
        lemma_canonicals_prefix(vs.drop_last(), i);
        assert(vs.drop_last().take(i) =~= vs.take(i));
    }
}

/// Encoding a concatenation concatenates the encodings.
pub proof fn lemma_canonicals_append(a: Seq<u64>, b: Seq<u64>)
    ensures
        canonicals_bytes(a + b) == canonicals_bytes(a) + canonicals_bytes(b),
    decreases b.len(),
{
    if b.len() == 0 {
        assert(a + b =~= a);
        assert(canonicals_bytes(a) + canonicals_bytes(b) =~= canonicals_bytes(a));
    } else {
        lemma_canonicals_append(a, b.drop_last());
        assert((a + b).drop_last() =~= a + b.drop_last());
        assert(canonicals_bytes(a + b) =~= canonicals_bytes(a) + canonicals_bytes(b));
    }
}

/// Each varint takes between one and ten bytes.
pub proof fn lemma_canonicals_len(vs: Seq<u64>)
    ensures
        vs.len() <= canonicals_bytes(vs).len() <= 10 * vs.len(),
    decreases vs.len(),
{
    if vs.len() > 0 {
        lemma_canonicals_len(vs.drop_last());
        lemma_read_write_uvarint(vs.last(), seq![]);
    }
}

/// Read `n` strict varints starting at `pos`: the values and the position
/// after them, exactly when the bytes there are the shortest encodings of
/// `n` values.
pub fn read_canonical_run(bytes: &[u8], pos: usize, n: usize) -> (r: Option<(Vec<u64>, usize)>)
    requires
        pos <= bytes@.len(),
    ensures
        r matches Some((vs, end)) ==> vs@.len() == n && pos <= end <= bytes@.len() && bytes@.subrange(
            pos as int,
            end as int,
        ) == canonicals_bytes(vs@),
        forall|vs: Seq<u64>|
            vs.len() == n && pos + canonicals_bytes(vs).len() <= bytes@.len() && bytes@.subrange(
                pos as int,
                pos + canonicals_bytes(vs).len(),
            ) == #[trigger] canonicals_bytes(vs) ==> (r matches Some((ws, end)) && ws@ == vs && end
                == pos + canonicals_bytes(vs).len()),
{
    let blen = bytes.len();
    let mut out: Vec<u64> = Vec::new();
    let mut p = pos;
    let mut i: usize = 0;
    while i < n
        invariant
            blen == bytes@.len(),
            pos <= p <= blen,
            i <= n,
            out@.len() == i,
            bytes@.subrange(pos as int, p as int) == canonicals_bytes(out@),
            forall|vs: Seq<u64>|
                vs.len() == n && pos + canonicals_bytes(vs).len() <= bytes@.len() && bytes@.subrange(
                    pos as int,
                    pos + canonicals_bytes(vs).len(),
                ) == #[trigger] canonicals_bytes(vs) ==> out@ == vs.take(i as int),
        decreases n - i,
    {
        let ghost old_out = out@;
        proof {
            assert forall|vs: Seq<u64>|
                vs.len() == n && pos + canonicals_bytes(vs).len() <= bytes@.len() && bytes@.subrange(
                    pos as int,
                    pos + canonicals_bytes(vs).len(),
                ) == #[trigger] canonicals_bytes(vs) implies spec_read_canonical(bytes@.skip(p as int))
                == Some((vs[i as int], uvarint_bytes(vs[i as int] as nat).len())) by {
                lemma_canonicals_prefix(vs, i as int);
                lemma_canonicals_prefix(vs, i + 1);
                let whole = canonicals_bytes(vs);
                let pre = canonicals_bytes(vs.take(i + 1));
                assert(out@ == vs.take(i as int));
                assert(whole.subrange(0, pre.len() as int) == pre);
                let e = uvarint_bytes(vs[i as int] as nat);
                assert(bytes@.skip(p as int) =~= e + bytes@.skip(p + e.len())) by {
                    assert(bytes@.subrange(pos as int, pos + whole.len()) == whole);
                    assert(bytes@.subrange(p as int, p + e.len()) =~= pre.subrange(
                        canonicals_bytes(vs.take(i as int)).len() as int,
                        pre.len() as int,
                    ));
                    assert(bytes@.skip(p as int) =~= bytes@.subrange(p as int, p + e.len())
                        + bytes@.skip(p + e.len()));
                }
                lemma_read_canonical_write(vs[i as int], bytes@.skip(p + e.len()));
            }
        }
        let (v, k) = match read_canonical_at(bytes, p) {
            Some(x) => x,
            None => return None,
        };
        out.push(v);
        proof {
            assert(out@.drop_last() =~= old_out);
            assert(bytes@.subrange(pos as int, (p + k) as int) =~= bytes@.subrange(pos as int, p as int)
                + bytes@.subrange(p as int, (p + k) as int));
            assert forall|vs: Seq<u64>|
                vs.len() == n && pos + canonicals_bytes(vs).len() <= bytes@.len() && bytes@.subrange(
                    pos as int,
                    pos + canonicals_bytes(vs).len(),
                ) == #[trigger] canonicals_bytes(vs) implies out@ == vs.take(i + 1) by {
                assert(out@ =~= vs.take(i + 1));
            }
        }
        p = p + k;
        i = i + 1;
    }
    proof {
        assert forall|vs: Seq<u64>|
            vs.len() == n && pos + canonicals_bytes(vs).len() <= bytes@.len() && bytes@.subrange(
                pos as int,
                pos + canonicals_bytes(vs).len(),
            ) == #[trigger] canonicals_bytes(vs) implies p == pos + canonicals_bytes(vs).len() by {
            assert(vs.take(n as int) =~= vs);
        }
    }
    Some((out, p))
}

/// Shortest-form varint runs are uniquely readable: equal encodings are of
/// equal values.
pub proof fn lemma_canonicals_unique(v: Seq<u64>, w: Seq<u64>)
    requires
        canonicals_bytes(v) == canonicals_bytes(w),
    ensures
        v == w,
    decreases v.len() + w.len(),
{
    if v.len() == 0 || w.len() == 0 {
        lemma_canonicals_len(v);
        lemma_canonicals_len(w);
        assert(v =~= w);
    } else {
        lemma_canonicals_front(v);
        lemma_canonicals_front(w);
        lemma_uvarint_prefix_unique(
            v[0] as nat,
            w[0] as nat,
            canonicals_bytes(v.drop_first()),
            canonicals_bytes(w.drop_first()),
        );
        let s = canonicals_bytes(v);
        let e = uvarint_bytes(v[0] as nat);
        assert(canonicals_bytes(v.drop_first()) =~= s.skip(e.len() as int));
        assert(canonicals_bytes(w.drop_first()) =~= s.skip(e.len() as int));
        lemma_canonicals_unique(v.drop_first(), w.drop_first());
        assert(v =~= seq![v[0]] + v.drop_first());
        assert(w =~= seq![w[0]] + w.drop_first());
    }
}

/// The encoding of a non-empty run starts with its first value.
pub proof fn lemma_canonicals_front(vs: Seq<u64>)
    requires
        vs.len() > 0,
    ensures
        canonicals_bytes(vs) == uvarint_bytes(vs[0] as nat) + canonicals_bytes(vs.drop_first()),
{
    assert(vs =~= seq![vs[0]] + vs.drop_first());
    lemma_canonicals_append(seq![vs[0]], vs.drop_first());
    let one = seq![vs[0]];
    assert(one.drop_last() =~= Seq::<u64>::empty());
    assert(canonicals_bytes(one.drop_last()) =~= Seq::<u8>::empty());
    assert(one.last() == vs[0]);
    assert(canonicals_bytes(one) =~= uvarint_bytes(vs[0] as nat));
}

/// The values a run of shortest-form varints spells, when `s` is one.
pub open spec fn canonical_split(s: Seq<u8>) -> Option<Seq<u64>> {
    if exists|w: Seq<u64>| canonicals_bytes(w) == s {
        Some(choose|w: Seq<u64>| canonicals_bytes(w) == s)
    } else {
        None
    }
}

/// Read the whole of `bytes` as shortest-form varints.
pub fn split_canonicals(bytes: &[u8]) -> (r: Option<Vec<u64>>)
    ensures
        match canonical_split(bytes@) {
            Some(w) => r matches Some(v) && v@ == w,
            None => r is None,
        },
{
    let blen = bytes.len();
    let mut out: Vec<u64> = Vec::new();
    let mut p: usize = 0;
    while p < blen
        invariant
            blen == bytes@.len(),
            p <= blen,
            bytes@.subrange(0, p as int) == canonicals_bytes(out@),
            forall|w: Seq<u64>| #[trigger] canonicals_bytes(w) == bytes@ ==> out@.len() <= w.len() && out@
                == w.take(out@.len() as int),
        decreases blen - p,
    {
        let ghost old_out = out@;
        proof {
            assert forall|w: Seq<u64>| #[trigger] canonicals_bytes(w) == bytes@ implies out@.len() < w.len()
                && spec_read_canonical(bytes@.skip(p as int)) == Some(
                (w[out@.len() as int], uvarint_bytes(w[out@.len() as int] as nat).len()),
            ) by {
                let i = out@.len() as int;
                if i == w.len() {
                    assert(w.take(i) =~= w);
                    assert(bytes@.subrange(0, p as int).len() == p);
                    assert(false);
                }
                lemma_canonicals_prefix(w, i);
                lemma_canonicals_prefix(w, i + 1);
                let pre = canonicals_bytes(w.take(i + 1));
                let e = uvarint_bytes(w[i] as nat);
                assert(bytes@.subrange(p as int, p + e.len()) =~= pre.subrange(
                    canonicals_bytes(w.take(i)).len() as int,
                    pre.len() as int,
                ));
                assert(bytes@.skip(p as int) =~= e + bytes@.skip(p + e.len()));
                lemma_read_canonical_write(w[i], bytes@.skip(p + e.len()));
            }
        }
        let (v, k) = match read_canonical_at(bytes, p) {
            Some(x) => x,
            None => {
                proof {
                    assert(forall|w: Seq<u64>| canonicals_bytes(w) != bytes@);
                }
                return None;
            },
        };
        out.push(v);
        proof {
            assert(out@.drop_last() =~= old_out);
            assert(bytes@.subrange(0, (p + k) as int) =~= bytes@.subrange(0, p as int)
                + bytes@.subrange(p as int, (p + k) as int));
            assert forall|w: Seq<u64>| #[trigger] canonicals_bytes(w) == bytes@ implies out@.len() <= w.len()
                && out@ == w.take(out@.len() as int) by {
                assert(out@ =~= w.take(out@.len() as int));
            }
        }
        p = p + k;
    }
    proof {
        assert(bytes@.subrange(0, p as int) =~= bytes@);
        assert(canonicals_bytes(out@) == bytes@);
        let w = choose|w: Seq<u64>| canonicals_bytes(w) == bytes@;
        lemma_canonicals_unique(w, out@);
    }
    Some(out)
}

/// Append the shortest encodings of `vs`, in order.
pub fn write_canonicals(out: &mut Vec<u8>, vs: &Vec<u64>)
    ensures
        final(out)@ == old(out)@ + canonicals_bytes(vs@),
{
    let n = vs.len();
    let mut i: usize = 0;
    while i < n
        invariant
            n == vs@.len(),
            i <= n,
            out@ == old(out)@ + canonicals_bytes(vs@.take(i as int)),
        decreases n - i,
    {
        proof {
            lemma_canonicals_prefix(vs@, i as int);
        }
        write_uvarint(out, vs[i]);
        proof {
            assert(out@ =~= old(out)@ + canonicals_bytes(vs@.take(i + 1)));
        }
        i = i + 1;
    }
    proof {
        assert(vs@.take(n as int) =~= vs@);
    }
}

} // verus!
