use vstd::prelude::*;

use crate::frame::Bytes;
use crate::frame::payload_bits;

verus! {

/// The run-length encoded form of one frame's payload bit stream.
/// Byte 0 is the width, byte 1 the height, bytes 2..6 a big-endian
/// count of run-bytes, and each following run-byte carries the run's
/// bit value in its high bit and the run length minus one in its low
/// 7 bits, so a run-byte stands for 1 to 128 equal bits.
pub struct RunStream(pub Vec<u8>);

impl View for RunStream {
    type V = Seq<u8>;

    open spec fn view(&self) -> Seq<u8> {
        self.0@
    }
}

/// Length of the maximal prefix of `bits` whose values all equal the
/// first one.
pub open spec fn run_len(bits: Seq<u8>) -> int
    decreases bits.len(),
{
    if bits.len() == 0 {
        0
    } else if bits.len() == 1 {
        1
    } else if bits[1] == bits[0] {
        1 + run_len(bits.drop_first())
    } else {
        1
    }
}

/// The length of the next emitted run: the maximal equal prefix,
/// capped at 128, the largest length one run-byte can carry.
pub open spec fn capped_run(bits: Seq<u8>) -> int {
    if run_len(bits) > 128 {
        128
    } else {
        run_len(bits)
    }
}

/// The run-byte for a run of `n` bits of value `v`: the value in the
/// high bit, `n - 1` in the low 7 bits.
pub open spec fn run_byte(v: u8, n: int) -> u8 {
    (v * 128 + n - 1) as u8
}

/// The bit value a run-byte stands for.
pub open spec fn run_value(b: u8) -> u8 {
    (b as int / 128) as u8
}

/// The run length a run-byte stands for, in 1..=128.
pub open spec fn run_count(b: u8) -> int {
    b as int % 128 + 1
}

/// Basic facts about the maximal equal prefix: it is non-empty for a
/// non-empty stream, never longer than the stream, all its bits equal
/// the first, and it is maximal.
pub proof fn lemma_run_len_props(bits: Seq<u8>)
    requires
        bits.len() > 0,
    ensures
        1 <= run_len(bits) <= bits.len(),
        forall|t: int| 0 <= t < run_len(bits) ==> #[trigger] bits[t] == bits[0],
        run_len(bits) < bits.len() ==> bits[run_len(bits)] != bits[0],
    decreases bits.len(),
{
    if bits.len() > 1 && bits[1] == bits[0] {
        lemma_run_len_props(bits.drop_first());
        assert forall|t: int| 1 <= t < run_len(bits) implies #[trigger] bits[t] == bits[0] by {
            assert(bits.drop_first()[t - 1] == bits[t]);
            assert(bits.drop_first()[t - 1] == bits.drop_first()[0]);
        }
        if run_len(bits) < bits.len() {
            assert(bits[run_len(bits)] == bits.drop_first()[run_len(bits) - 1]);
        }
    }
}

/// The run-length encoding of a padded bit stream: while bits remain,
/// emit one run-byte for the maximal equal prefix capped at 128, then
/// continue after it. The final in-progress run is always emitted.
pub open spec fn rle(bits: Seq<u8>) -> Seq<u8>
    decreases bits.len() via rle_decreases
{
    if bits.len() == 0 {
        Seq::empty()
    } else {
        seq![run_byte(bits[0], capped_run(bits))] + rle(bits.skip(capped_run(bits)))
    }
}

#[via_fn]
proof fn rle_decreases(bits: Seq<u8>) {
    if bits.len() > 0 {
        lemma_run_len_props(bits);
    }
}

/// Expansion of a sequence of run-bytes back into a bit stream: each
/// run-byte contributes `run_count` copies of `run_value`.
pub open spec fn expand_runs(runs: Seq<u8>) -> Seq<u8>
    decreases runs.len(),
{
    if runs.len() == 0 {
        Seq::empty()
    } else {
        Seq::new(run_count(runs[0]) as nat, |t: int| run_value(runs[0])) + expand_runs(
            runs.drop_first(),
        )
    }
}

/// The four big-endian bytes of a run count.
pub open spec fn be32(n: int) -> Seq<u8> {
    seq![
        (n / 0x1000000 % 256) as u8,
        (n / 0x10000 % 256) as u8,
        (n / 0x100 % 256) as u8,
        (n % 256) as u8,
    ]
}

/// The whole run-length stream for frame `f`: width, height, the
/// big-endian count of run-bytes, then the run-bytes of the payload
/// bit stream.
pub open spec fn compressed_spec(f: Seq<u8>) -> Seq<u8> {
    seq![f[0], f[1]] + be32(rle(payload_bits(f)).len() as int) + rle(payload_bits(f))
}

impl RunStream {
    /// The stream invariant: a six-byte header whose count field says
    /// exactly how many run-bytes follow.
    pub open spec fn wf(&self) -> bool {
        self@.len() >= 6 && self@.len() == 6 + (self@[2] as int) * 0x1000000 + (self@[3] as int)
            * 0x10000 + (self@[4] as int) * 0x100 + (self@[5] as int)
    }
}

/// Round-trip law: expanding the run-length encoding of any stream of
/// bits (values 0 or 1) gives back exactly that stream.
pub proof fn lemma_rle_roundtrip(bits: Seq<u8>)
    requires
        forall|k: int| 0 <= k < bits.len() ==> bits[k] <= 1,
    ensures
        expand_runs(rle(bits)) == bits,
    decreases bits.len(),
{
    if bits.len() == 0 {
        assert(expand_runs(rle(bits)) =~= bits);
    } else {
        lemma_run_len_props(bits);
        let v = bits[0];
        let n = capped_run(bits);
        let rest = bits.skip(n);
        assert(run_byte(v, n) == v * 128 + n - 1);
        assert(run_value(run_byte(v, n)) == v);
        assert(run_count(run_byte(v, n)) == n);
        assert(rle(bits) == seq![run_byte(v, n)] + rle(rest));
        assert((seq![run_byte(v, n)] + rle(rest)).drop_first() =~= rle(rest));
        assert(Seq::new(n as nat, |t: int| v) =~= bits.take(n));
        assert(forall|k: int| 0 <= k < rest.len() ==> #[trigger] rest[k] <= 1);
        lemma_rle_roundtrip(rest);
        assert(expand_runs(rle(bits)) =~= bits.take(n) + bits.skip(n));
        assert(bits.take(n) + bits.skip(n) =~= bits);
    }
}

/// Run bound law: every emitted run-byte of an encoding stands for a
/// run of between 1 and 128 bits — it is the run-byte of its own value
/// and count, and no run-byte ever means a length of 0 or above 128.
pub proof fn lemma_run_bounds(bits: Seq<u8>, i: int)
    requires
        forall|k: int| 0 <= k < bits.len() ==> bits[k] <= 1,
        0 <= i < rle(bits).len(),
    ensures
        1 <= run_count(rle(bits)[i]) <= 128,
        rle(bits)[i] == run_byte(run_value(rle(bits)[i]), run_count(rle(bits)[i])),
    decreases bits.len(),
{
    lemma_run_len_props(bits);
    let v = bits[0];
    let n = capped_run(bits);
    let rest = bits.skip(n);
    assert(rle(bits) == seq![run_byte(v, n)] + rle(rest));
    if i == 0 {
        assert(run_byte(v, n) == v * 128 + n - 1);
        assert(run_value(run_byte(v, n)) == v);
        assert(run_count(run_byte(v, n)) == n);
    } else {
        assert(forall|k: int| 0 <= k < rest.len() ==> #[trigger] rest[k] <= 1);
        lemma_run_bounds(rest, i - 1);
        assert(rle(bits)[i] == rle(rest)[i - 1]);
    }
}

/// There are never more run-bytes than bits: every run covers at
/// least one bit.
pub proof fn lemma_rle_len(bits: Seq<u8>)
    ensures
        rle(bits).len() <= bits.len(),
    decreases bits.len(),
{
    if bits.len() > 0 {
        lemma_run_len_props(bits);
        lemma_rle_len(bits.skip(capped_run(bits)));
    }
}

/// Empty-frame law: a frame with no payload — one whose width or
/// height is zero — compresses to its two dimension bytes and a run
/// count of zero, with no run-bytes.
pub proof fn lemma_compress_empty(b: Bytes)
    requires
        b.wf(),
        b@[0] == 0 || b@[1] == 0,
    ensures
        compressed_spec(b@) =~= seq![b@[0], b@[1], 0u8, 0u8, 0u8, 0u8],
{
    assert(b@.len() == 2);
    assert(payload_bits(b@).len() == 0);
    assert(rle(payload_bits(b@)) =~= Seq::<u8>::empty());
}

/// The maximal equal prefix found by a left-to-right scan: if the
/// first `m` bits equal the first and the scan stopped at the end, at
/// a differing bit, or at the cap of 128, then `m` is the next run's
/// length.
proof fn lemma_scan_finds_run(s: Seq<u8>, m: int)
    requires
        1 <= m <= s.len(),
        m <= 128,
        forall|t: int| 0 <= t < m ==> #[trigger] s[t] == s[0],
        m == 128 || m == s.len() || s[m] != s[0],
    ensures
        m == capped_run(s),
{
    lemma_run_len_props(s);
    if run_len(s) < m {
        assert(s[run_len(s)] == s[0]);
    }
    if m < 128 && m < run_len(s) {
        assert(s[m] == s[0]);
    }
}

/// Compresses a frame's payload bit stream with the run-length
/// codec: width byte, height byte, a 4-byte big-endian count of
/// run-bytes, then the run-bytes themselves.
pub fn compress(frame: &Bytes) -> (r: RunStream)
    requires
        frame.wf(),
    ensures
        r@ == compressed_spec(frame@),
        r.wf(),
{
    let bits = frame.bits();
    let n = bits.len();
    let ghost gbits = bits@;
    let mut runs: Vec<u8> = Vec::new();
    let mut idx: usize = 0;
    proof {
        assert(gbits.skip(0) =~= gbits);
        assert(runs@ + rle(gbits.skip(0)) =~= rle(gbits));
    }
    while idx < n
        invariant
            n == gbits.len(),
            gbits == payload_bits(frame@),
            bits@ == gbits,
            forall|k: int| 0 <= k < gbits.len() ==> gbits[k] <= 1,
            idx <= n,
            runs@ + rle(gbits.skip(idx as int)) == rle(gbits),
            runs@.len() <= idx,
        decreases n - idx,
    {
        let v = bits[idx];
        let mut j = idx + 1;
        while j < n && j - idx < 128 && bits[j] == v
            invariant
                n == gbits.len(),
                bits@ == gbits,
                idx < j <= n,
                j - idx <= 128,
                v == gbits[idx as int],
                forall|t: int| idx <= t < j ==> gbits[t] == v,
            decreases n - j,
        {
            j = j + 1;
        }
        let m = j - idx;
        proof {
            let s = gbits.skip(idx as int);
            assert(forall|t: int| 0 <= t < m ==> #[trigger] s[t] == s[0]);
            lemma_scan_finds_run(s, m as int);
            assert(rle(s) == seq![run_byte(s[0], m as int)] + rle(s.skip(m as int)));
            assert(s.skip(m as int) =~= gbits.skip(j as int));
        }
        let rb = v * 128 + (m - 1) as u8;
        runs.push(rb);
        proof {
            assert(rb == run_byte(v, m as int));
            assert(runs@ + rle(gbits.skip(j as int)) =~= rle(gbits));
        }
        idx = j;
    }
    proof {
        assert(gbits.skip(n as int) =~= Seq::<u8>::empty());
        assert(runs@ =~= rle(gbits));
        lemma_rle_len(gbits);
    }
    let count = runs.len();
    let mut out: Vec<u8> = Vec::new();
    out.push(frame.0[0]);
    out.push(frame.0[1]);
    out.push((count / 0x1000000 % 256) as u8);
    out.push((count / 0x10000 % 256) as u8);
    out.push((count / 0x100 % 256) as u8);
    out.push((count % 256) as u8);
    out.append(&mut runs);
    proof {
        let f = frame@;
        assert(0 <= crate::frame::bytes_per_row(f[0] as int) <= 32);
        assert((f[1] as int) * crate::frame::bytes_per_row(f[0] as int) <= 8160)
            by (nonlinear_arith)
            requires
                0 <= f[1] as int <= 255,
                0 <= crate::frame::bytes_per_row(f[0] as int) <= 32,
        ;
        assert(count < 65536);
        assert(out@ =~= compressed_spec(frame@));
    }
    RunStream(out)
}

/// Expands a run-length stream back into the padded payload bit
/// stream it encodes: each run-byte becomes `run_count` copies of its
/// bit value, in order.
pub fn expand(rs: &RunStream) -> (r: Vec<u8>)
    requires
        rs@.len() >= 6,
    ensures
        r@ == expand_runs(rs@.skip(6)),
{
    let n = rs.0.len();
    let mut out: Vec<u8> = Vec::new();
    let mut i: usize = 6;
    proof {
        assert(out@ + expand_runs(rs@.skip(6)) =~= expand_runs(rs@.skip(6)));
    }
    while i < n
        invariant
            n == rs@.len(),
            6 <= i <= n,
            out@ + expand_runs(rs@.skip(i as int)) == expand_runs(rs@.skip(6)),
        decreases n - i,
    {
        let b = rs.0[i];
        let val = b / 128;
        let cnt: usize = (b % 128) as usize + 1;
        proof {
            assert(val == run_value(b));
            assert(cnt == run_count(b));
            assert(rs@.skip(i as int).drop_first() =~= rs@.skip(i + 1));
            assert(expand_runs(rs@.skip(i as int)) == Seq::new(
                run_count(b) as nat,
                |t: int| run_value(b),
            ) + expand_runs(rs@.skip(i + 1)));
        }
        let ghost out0 = out@;
        let mut t: usize = 0;
        while t < cnt
            invariant
                t <= cnt,
                out@ == out0 + Seq::new(t as nat, |u: int| val),
            decreases cnt - t,
        {
            out.push(val);
            proof {
                assert(out@ =~= out0 + Seq::new((t + 1) as nat, |u: int| val));
            }
            t = t + 1;
        }
        proof {
            assert(out@ + expand_runs(rs@.skip(i + 1)) =~= expand_runs(rs@.skip(6)));
        }
        i = i + 1;
    }
    proof {
        assert(rs@.skip(n as int) =~= Seq::<u8>::empty());
        assert(out@ =~= expand_runs(rs@.skip(6)));
    }
    out
}

} // verus!
