//! The `hmtx` (horizontal metrics) table.
use crate::binary::{
    be16, bei16, i16_at, lemma_read_be16, lemma_read_bei16, push_i16, push_u16, read_i16, read_u16,
    u16_at, DeserializationError,
};
use vstd::prelude::*;

verus! {

#[derive(Debug, PartialEq, Clone, Copy)]
pub struct Metric {
    pub advanceWidth: u16,
    pub lsb: i16,
}

/// The horizontal metrics of every glyph.
#[derive(Debug, PartialEq, Clone)]
pub struct hmtx {
    pub metrics: Vec<Metric>,
}

/// The index of the last metric whose advance width must be written: trailing
/// metrics that repeat the advance width before them are written as side bearings only.
pub open spec fn last_long_metric(m: Seq<Metric>, e: int) -> int
    decreases e,
{
    if e > 0 && m[e - 1].advanceWidth == m[e].advanceWidth {
        last_long_metric(m, e - 1)
    } else {
        e
    }
}

/// The bytes of the first `i` metrics, the first `n_long` of them in full.
pub open spec fn hmtx_bytes(m: Seq<Metric>, n_long: int, i: int) -> Seq<u8>
    decreases i,
{
    if i <= 0 {
        Seq::empty()
    } else if i - 1 < n_long {
        hmtx_bytes(m, n_long, i - 1) + be16(m[i - 1].advanceWidth) + bei16(m[i - 1].lsb)
    } else {
        hmtx_bytes(m, n_long, i - 1) + bei16(m[i - 1].lsb)
    }
}

/// The number of full metrics written for `m`.
pub open spec fn hmtx_long_count(m: Seq<Metric>) -> int {
    last_long_metric(m, m.len() - 1) + 1
}

/// The bytes of `m` and the count of full metrics among them.
pub open spec fn hmtx_encoding(m: Seq<Metric>) -> (Seq<u8>, u16) {
    (hmtx_bytes(m, hmtx_long_count(m), m.len() as int), hmtx_long_count(m) as u16)
}

/// The metrics in `s` given `n` full metrics: those, then one metric per
/// remaining side bearing with the last advance width. `None` where `s` is too
/// short or an odd byte is left over.
pub open spec fn hmtx_decoding(s: Seq<u8>, n: int) -> Option<Seq<Metric>> {
    if s.len() < 4 * n || (s.len() - 4 * n) % 2 != 0 {
        None
    } else {
        let extra = (s.len() - 4 * n) / 2;
        Some(
            Seq::new(
                (n + extra) as nat,
                |i: int|
                    if i < n {
                        Metric { advanceWidth: u16_at(s, 4 * i), lsb: i16_at(s, 4 * i + 2) }
                    } else {
                        Metric { advanceWidth: u16_at(s, 4 * (n - 1)), lsb: i16_at(s, 4 * n + 2 * (i - n)) }
                    },
            ),
        )
    }
}

proof fn lemma_last_long_metric(m: Seq<Metric>, e: int)
    requires
        0 <= e < m.len(),
    ensures
        0 <= last_long_metric(m, e) <= e,
        forall|j: int|
            last_long_metric(m, e) <= j <= e ==> #[trigger] m[j].advanceWidth == m[e].advanceWidth,
    decreases e,
{
    if e > 0 && m[e - 1].advanceWidth == m[e].advanceWidth {
        lemma_last_long_metric(m, e - 1);
    }
}

proof fn lemma_hmtx_bytes_len(m: Seq<Metric>, n_long: int, i: int)
    requires
        0 <= n_long <= i,
    ensures
        hmtx_bytes(m, n_long, i).len() == 4 * n_long + 2 * (i - n_long),
    decreases i,
{
    if i > n_long {
        lemma_hmtx_bytes_len(m, n_long, i - 1);
    } else if i > 0 {
        lemma_hmtx_bytes_len_full(m, n_long, i);
    }
}

proof fn lemma_hmtx_bytes_len_full(m: Seq<Metric>, n_long: int, i: int)
    requires
        0 <= i <= n_long,
    ensures
        hmtx_bytes(m, n_long, i).len() == 4 * i,
    decreases i,
{
    if i > 0 {
        lemma_hmtx_bytes_len_full(m, n_long, i - 1);
    }
}

impl hmtx {
    /// The index of the last metric written in full.
    fn last_long_index(&self) -> (r: usize)
        requires
            1 <= self.metrics@.len(),
        ensures
            r == last_long_metric(self.metrics@, self.metrics@.len() - 1),
            r < self.metrics@.len() <= usize::MAX,
    {
        let ghost m = self.metrics@;
        let mut end_index_h_metrics = self.metrics.len() - 1;
        while end_index_h_metrics > 0 && self.metrics[end_index_h_metrics - 1].advanceWidth
            == self.metrics[end_index_h_metrics].advanceWidth
            invariant
                m == self.metrics@,
                end_index_h_metrics < m.len(),
                last_long_metric(m, end_index_h_metrics as int) == last_long_metric(m, m.len() - 1),
            decreases end_index_h_metrics,
        {
            end_index_h_metrics = end_index_h_metrics - 1;
        }
        proof {
            lemma_last_long_metric(m, end_index_h_metrics as int);
        }
        end_index_h_metrics
    }

    /// The number of metrics written in full, in the 16 bits of its field:
    /// trailing metrics that repeat the advance width before them are written
    /// as side bearings only.
    pub fn number_of_hmetrics(&self) -> (r: u16)
        requires
            1 <= self.metrics@.len(),
        ensures
            r == hmtx_long_count(self.metrics@) as u16,
            hmtx_long_count(self.metrics@) <= 65535 ==> r == hmtx_long_count(self.metrics@),
    {
        let e = self.last_long_index();
        let n: usize = e + 1;
        #[verifier::truncate]
        (n as u16)
    }

    /// The table's bytes and its number of full metrics (for `hhea`).
    pub fn to_bytes(&self) -> (r: (Vec<u8>, u16))
        requires
            1 <= self.metrics@.len(),
        ensures
            (r.0@, r.1) == hmtx_encoding(self.metrics@),
    {
        let ghost m = self.metrics@;
        let end_index_h_metrics = self.last_long_index();
        let n: usize = end_index_h_metrics + 1;
        let n_long = #[verifier::truncate] (n as u16);
        proof {
            lemma_last_long_metric(m, m.len() - 1);
        }
        let mut bytes: Vec<u8> = Vec::new();
        let mut i: usize = 0;
        while i < self.metrics.len()
            invariant
                m == self.metrics@,
                end_index_h_metrics + 1 == hmtx_long_count(m),
                i <= m.len(),
                bytes@ == hmtx_bytes(m, hmtx_long_count(m), i as int),
            decreases m.len() - i,
        {
            let metric = self.metrics[i];
            if i <= end_index_h_metrics {
                push_u16(&mut bytes, metric.advanceWidth);
                push_i16(&mut bytes, metric.lsb);
            } else {
                push_i16(&mut bytes, metric.lsb);
            }
            i = i + 1;
        }
        (bytes, n_long)
    }
}

/// Reads a `hmtx` table holding `numberOfHMetrics` full metrics.
pub fn from_bytes(s: &[u8], numberOfHMetrics: u16) -> (r: Result<hmtx, DeserializationError>)
    requires
        numberOfHMetrics >= 1,
    ensures
        match r {
            Ok(t) => hmtx_decoding(s@, numberOfHMetrics as int) == Some(t.metrics@),
            Err(_) => hmtx_decoding(s@, numberOfHMetrics as int) is None,
        },
{
    let n = numberOfHMetrics as usize;
    if s.len() < 4 * n || (s.len() - 4 * n) % 2 != 0 {
        return Err(DeserializationError::UnexpectedEof);
    }
    let ghost expected = hmtx_decoding(s@, n as int)->0;
    let mut metrics: Vec<Metric> = Vec::new();
    let mut i: usize = 0;
    while i < n
        invariant
            n == numberOfHMetrics,
            4 * n <= s.len(),
            (s.len() - 4 * n) % 2 == 0,
            i <= n,
            expected == hmtx_decoding(s@, n as int)->0,
            metrics@ == expected.subrange(0, i as int),
        decreases n - i,
    {
        let advance = read_u16(s, 4 * i).unwrap();
        let lsb = read_i16(s, 4 * i + 2).unwrap();
        metrics.push(Metric { advanceWidth: advance, lsb });
        assert(expected.subrange(0, i + 1) == expected.subrange(0, i as int).push(expected[i as int]));
        i = i + 1;
    }
    let last = metrics[n - 1].advanceWidth;
    let mut p: usize = 4 * n;
    while p < s.len()
        invariant
            n == numberOfHMetrics,
            n >= 1,
            4 * n <= p <= s.len(),
            (s.len() - p) % 2 == 0,
            (p - 4 * n) % 2 == 0,
            expected == hmtx_decoding(s@, n as int)->0,
            last == u16_at(s@, 4 * (n - 1)),
            metrics@ == expected.subrange(0, n + (p - 4 * n) / 2),
        decreases s.len() - p,
    {
        let lsb = read_i16(s, p).unwrap();
        let ghost k = n + (p - 4 * n) / 2;
        metrics.push(Metric { advanceWidth: last, lsb });
        assert(expected.subrange(0, k + 1) == expected.subrange(0, k).push(expected[k]));
        p = p + 2;
    }
    assert(expected.subrange(0, expected.len() as int) == expected);
    Ok(hmtx { metrics })
}

/// Reading back a written `hmtx` table, with the count of full metrics that
/// writing returned, gives the same metrics, wherever that count fits its 16 bits.
pub proof fn lemma_hmtx_roundtrip(m: Seq<Metric>)
    requires
        1 <= m.len(),
        hmtx_long_count(m) <= 65535,
    ensures
        hmtx_decoding(hmtx_encoding(m).0, hmtx_encoding(m).1 as int) == Some(m),
{
    let e = last_long_metric(m, m.len() - 1);
    lemma_last_long_metric(m, m.len() - 1);
    let n = e + 1;
    let s = hmtx_bytes(m, n, m.len() as int);
    lemma_hmtx_bytes_len(m, n, m.len() as int);
    assert(hmtx_encoding(m).1 as int == n);
    assert(hmtx_decoding(s, n) is Some);
    let d = hmtx_decoding(s, n)->0;
    assert(d.len() == m.len());
    assert forall|i: int| 0 <= i < m.len() implies #[trigger] d[i] == m[i] by {
        lemma_hmtx_read(m, n, m.len() as int, i);
        if i >= n {
            lemma_hmtx_read(m, n, m.len() as int, n - 1);
            assert(m[i].advanceWidth == m[m.len() - 1].advanceWidth);
            assert(m[e].advanceWidth == m[m.len() - 1].advanceWidth);
        }
    }
    assert(d == m);
}

proof fn lemma_hmtx_read(m: Seq<Metric>, n: int, len: int, i: int)
    requires
        1 <= n,
        1 <= len <= m.len(),
        0 <= i < len,
    ensures
        i < n ==> u16_at(hmtx_bytes(m, n, len), 4 * i) == m[i].advanceWidth && i16_at(
            hmtx_bytes(m, n, len),
            4 * i + 2,
        ) == m[i].lsb,
        i >= n ==> i16_at(hmtx_bytes(m, n, len), 4 * n + 2 * (i - n)) == m[i].lsb,
    decreases len,
{
    let s = hmtx_bytes(m, n, len);
    let p = hmtx_bytes(m, n, len - 1);
    if len - 1 >= n {
        lemma_hmtx_bytes_len(m, n, len - 1);
    } else {
        lemma_hmtx_bytes_len_full(m, n, len - 1);
    }
    if i == len - 1 {
        if i < n {
            lemma_read_be16(p, m[i].advanceWidth, bei16(m[i].lsb));
            lemma_read_bei16(p + be16(m[i].advanceWidth), m[i].lsb, Seq::empty());
            assert(p + be16(m[i].advanceWidth) + bei16(m[i].lsb) + Seq::<u8>::empty() == s);
        } else {
            lemma_read_bei16(p, m[i].lsb, Seq::empty());
            assert(p + bei16(m[i].lsb) + Seq::<u8>::empty() == s);
        }
    } else {
        lemma_hmtx_read(m, n, len - 1, i);
        let tail = if len - 1 < n {
            be16(m[len - 1].advanceWidth) + bei16(m[len - 1].lsb)
        } else {
            bei16(m[len - 1].lsb)
        };
        assert(s == p + tail);
        if i < n {
            crate::binary::lemma_u16_at_shift(tail, p, 4 * i);
            crate::binary::lemma_u16_at_shift(tail, p, 4 * i + 2);
        } else {
            crate::binary::lemma_u16_at_shift(tail, p, 4 * n + 2 * (i - n));
        }
    }
}

} // verus!
