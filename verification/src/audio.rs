//! Decoded audio, one buffer per channel.
use crate::float::model::Value;
use crate::float::{Double, Single};
use std::sync::Arc;
use vstd::prelude::*;

verus! {

/// A decoded audio file. `channels` holds one deinterleaved sample buffer per
/// channel. `sample_rate` is the file's native rate; resampling changes it.
#[derive(Debug, Clone)]
pub struct DecodedAudio {
    pub channels: Vec<Arc<[Single]>>,
    pub sample_rate: Double,
}

/// What a [`DecodedAudio`] holds.
pub struct Audio {
    pub channels: Seq<Seq<Single>>,
    pub sample_rate: Value,
}

impl View for DecodedAudio {
    type V = Audio;

    open spec fn view(&self) -> Audio {
        Audio {
            channels: Seq::new(self.channels@.len(), |c: int| self.channels@[c]@),
            sample_rate: self.sample_rate@,
        }
    }
}

/// How many of the first `len` places of an interleaved stream of `n` channels
/// belong to channel `c`.
pub open spec fn lane_len(len: nat, n: nat, c: int) -> nat {
    ((len + n - 1 - c) / n as int) as nat
}

/// Channel `c` of an interleaved stream of `n` channels: every `n`th sample from
/// the `c`th on.
pub open spec fn lane<T>(samples: Seq<T>, n: nat, c: int) -> Seq<T> {
    Seq::new(lane_len(samples.len(), n, c), |j: int| samples[j * n + c])
}

/// One more sample goes to the channel whose turn it is.
pub proof fn lemma_lane_push<T>(samples: Seq<T>, x: T, n: nat, c: int)
    requires
        0 <= c < n,
    ensures
        lane(samples.push(x), n, c) == if samples.len() as int % n as int == c {
            lane(samples, n, c).push(x)
        } else {
            lane(samples, n, c)
        },
{
    let len = samples.len() as int;
    let k = n as int;
    let before = lane(samples, n, c);
    let after = lane(samples.push(x), n, c);
    lemma_lane_len_step(samples.len(), n, c);
    assert forall|j: int| 0 <= j < before.len() implies samples[j * k + c] == samples.push(x)[
    #[trigger] (j * k + c)] by {
        lemma_lane_index(samples.len(), n, c, j);
    }
    if len % k == c {
        let q = len / k;
        vstd::arithmetic::div_mod::lemma_fundamental_div_mod(len, k);
        assert(before.len() * k + c == len) by (nonlinear_arith)
            requires
                before.len() == q,
                len == k * q + c,
        ;
        assert(after =~= before.push(x));
    } else {
        assert(after =~= before);
    }
}

/// A place within a channel is a place within the stream.
pub proof fn lemma_lane_index(len: nat, n: nat, c: int, j: int)
    requires
        0 <= c < n,
        0 <= j < lane_len(len, n, c),
    ensures
        0 <= j * n + c < len,
{
    let k = n as int;
    let past = len + k - 1 - c;
    let q = past / k;
    vstd::arithmetic::div_mod::lemma_fundamental_div_mod(past, k);
    assert(0 <= j * k + c < len) by (nonlinear_arith)
        requires
            0 <= j < q,
            k > 0,
            c >= 0,
            past == len + k - 1 - c,
            past == k * q + past % k,
            past % k >= 0,
    ;
}

proof fn lemma_lane_len_step(len: nat, n: nat, c: int)
    requires
        0 <= c < n,
    ensures
        len as int % n as int == c ==> lane_len(len, n, c) == len as int / n as int,
        lane_len(len + 1, n, c) == if len as int % n as int == c {
            lane_len(len, n, c) + 1
        } else {
            lane_len(len, n, c)
        },
{
    let k = n as int;
    let q = len as int / k;
    let r = len as int % k;
    vstd::arithmetic::div_mod::lemma_fundamental_div_mod(len as int, k);
    if r <= c {
        lemma_quotient(len + k - 1 - c, k, q, k - 1 + r - c);
    } else {
        lemma_quotient(len + k - 1 - c, k, q + 1, r - c - 1);
    }
    if r < c {
        lemma_quotient(len + k - c, k, q, k + r - c);
    } else {
        lemma_quotient(len + k - c, k, q + 1, r - c);
    }
}

proof fn lemma_quotient(x: int, k: int, q: int, r: int)
    requires
        0 <= r < k,
        x == k * q + r || x == k * (q - 1) + k + r,
    ensures
        x / k == q,
{
    assert(x == q * k + r) by (nonlinear_arith)
        requires
            x == k * q + r || x == k * (q - 1) + k + r,
    ;
    vstd::arithmetic::div_mod::lemma_fundamental_div_mod_converse(x, k, q, r);
}

/// `n` channels without samples.
pub fn empty_channels(n: usize) -> (channels: Vec<Vec<Single>>)
    ensures
        channels@.len() == n,
        forall|c: int| 0 <= c < n ==> (#[trigger] channels@[c])@ == Seq::<Single>::empty(),
{
    let mut channels: Vec<Vec<Single>> = Vec::new();
    for i in 0..n
        invariant
            channels@.len() == i,
            forall|c: int| 0 <= c < i ==> (#[trigger] channels@[c])@ == Seq::<Single>::empty(),
    {
        channels.push(Vec::new());
    }
    channels
}

/// Deals interleaved samples out to the channels, the first one to the first
/// channel, behind what each already holds.
pub fn deinterleave(channels: &mut Vec<Vec<Single>>, samples: &[Single])
    requires
        samples@.len() > 0 ==> old(channels)@.len() > 0,
    ensures
        final(channels)@.len() == old(channels)@.len(),
        forall|c: int|
            0 <= c < old(channels)@.len() ==> (#[trigger] final(channels)@[c])@ == old(
                channels,
            )@[c]@ + lane(samples@, old(channels)@.len(), c),
{
    let n = channels.len();
    let ghost before = channels@;
    proof {
        assert forall|c: int| 0 <= c < n implies (#[trigger] channels@[c])@ == before[c]@ + lane(
            samples@.take(0),
            n as nat,
            c,
        ) by {
            lemma_quotient(n - 1 - c, n as int, 0, n - 1 - c);
            assert(lane(samples@.take(0), n as nat, c) =~= Seq::<Single>::empty());
            assert(before[c]@ + Seq::<Single>::empty() =~= before[c]@);
        }
    }
    for i in 0..samples.len()
        invariant
            samples@.len() > 0 ==> n > 0,
            channels@.len() == n == before.len(),
            forall|c: int|
                0 <= c < n ==> (#[trigger] channels@[c])@ == before[c]@ + lane(
                    samples@.take(i as int),
                    n as nat,
                    c,
                ),
    {
        let ghost held = channels@;
        let turn = i % n;
        channels[turn].push(samples[i]);
        proof {
            assert(samples@.take(i + 1) =~= samples@.take(i as int).push(samples@[i as int]));
            assert forall|c: int| 0 <= c < n implies (#[trigger] channels@[c])@ == before[c]@
                + lane(samples@.take(i + 1), n as nat, c) by {
                lemma_lane_push(samples@.take(i as int), samples@[i as int], n as nat, c);
                if c == turn {
                    assert(channels@[c]@ =~= before[c]@ + lane(samples@.take(i + 1), n as nat, c));
                } else {
                    assert(channels@[c] == held[c]);
                }
            }
        }
    }
    assert(samples@.take(samples@.len() as int) =~= samples@);
}

/// Hands a buffer over to shared ownership with `Arc::from`, which keeps its
/// items and their order.
#[verifier::external_body]
fn shared(samples: Vec<Single>) -> (r: Arc<[Single]>)
    ensures
        r@ == samples@,
{
    Arc::from(samples)
}

/// Audio out of one buffer per channel.
pub fn decoded_audio(channels: Vec<Vec<Single>>, sample_rate: Double) -> (r: DecodedAudio)
    ensures
        r@.channels == Seq::new(channels@.len(), |c: int| channels@[c]@),
        r.sample_rate == sample_rate,
{
    let ghost held = channels@;
    let mut buffers: Vec<Arc<[Single]>> = Vec::new();
    for samples in iter: channels
        invariant
            iter.seq() == held,
            buffers@.len() == iter.index(),
            forall|c: int| 0 <= c < iter.index() ==> (#[trigger] buffers@[c])@ == held[c]@,
    {
        buffers.push(shared(samples));
    }
    let r = DecodedAudio { channels: buffers, sample_rate };
    assert(r@.channels =~= Seq::new(held.len(), |c: int| held[c]@));
    r
}

/// Every sample of an interleaved stream is in one channel, at one place: sample
/// `i` is number `i / n` of channel `i % n`.
pub proof fn law_sample_has_its_place<T>(samples: Seq<T>, n: nat, i: int)
    requires
        n > 0,
        0 <= i < samples.len(),
    ensures
        0 <= i / (n as int) < lane(samples, n, i % n as int).len(),
        lane(samples, n, i % n as int)[i / n as int] == samples[i],
{
    let k = n as int;
    let c = i % k;
    let j = i / k;
    vstd::arithmetic::div_mod::lemma_fundamental_div_mod(i, k);
    assert(i == j * k + c) by (nonlinear_arith)
        requires
            i == k * j + c,
    ;
    let past = samples.len() + k - 1 - c;
    vstd::arithmetic::div_mod::lemma_fundamental_div_mod(past, k);
    assert(0 <= j < past / k) by (nonlinear_arith)
        requires
            i == j * k + c,
            0 <= c < k,
            0 <= i < past - k + 1 + c,
            past == k * (past / k) + past % k,
            past % k < k,
    {
        if j < 0 {
            assert(j * k <= -k);
        }
        if j >= past / k {
            assert(j * k >= (past / k) * k);
        }
    }
}

/// A stream of whole rounds gives every channel the same number of samples.
pub proof fn law_whole_rounds_fill_evenly<T>(samples: Seq<T>, n: nat, c: int)
    requires
        0 <= c < n,
        samples.len() as int % n as int == 0,
    ensures
        lane(samples, n, c).len() == samples.len() as int / n as int,
{
    let k = n as int;
    let q = samples.len() as int / k;
    vstd::arithmetic::div_mod::lemma_fundamental_div_mod(samples.len() as int, k);
    lemma_quotient(samples.len() + k - 1 - c, k, q, k - 1 - c);
}

/// Two streams behind each other give what the whole stream gives, if the first
/// ends with a whole round.
pub proof fn law_streams_join<T>(a: Seq<T>, b: Seq<T>, n: nat, c: int)
    requires
        0 <= c < n,
        a.len() as int % n as int == 0,
    ensures
        lane(a + b, n, c) == lane(a, n, c) + lane(b, n, c),
{
    let k = n as int;
    let q = a.len() as int / k;
    let whole = lane(a + b, n, c);
    let parts = lane(a, n, c) + lane(b, n, c);
    law_whole_rounds_fill_evenly(a, n, c);
    vstd::arithmetic::div_mod::lemma_fundamental_div_mod(a.len() as int, k);
    let past = b.len() + k - 1 - c;
    vstd::arithmetic::div_mod::lemma_fundamental_div_mod(past, k);
    assert(a.len() + past == k * (q + past / k) + past % k) by (nonlinear_arith)
        requires
            a.len() == k * q,
            past == k * (past / k) + past % k,
    ;
    lemma_quotient(a.len() + past, k, q + past / k, past % k);
    assert(whole.len() == parts.len());
    assert forall|j: int| 0 <= j < whole.len() implies whole[j] == parts[j] by {
        lemma_lane_index((a + b).len(), n, c, j);
        if j < q {
            lemma_lane_index(a.len(), n, c, j);
        } else {
            assert(j * k + c == a.len() + ((j - q) * k + c)) by (nonlinear_arith)
                requires
                    a.len() == k * q,
            ;
        }
    }
    assert(whole =~= parts);
}

/// A channel holds the samples whose turn it is, in their order, and nothing else:
/// sample `j` of channel `c` is number `j * n + c` of the stream, up to its end.
pub proof fn law_channel_takes_its_turn<T>(samples: Seq<T>, n: nat, c: int, j: int)
    requires
        0 <= c < n,
    ensures
        lane(samples, n, c).len() <= samples.len() / n + 1,
        lane(samples, n, c).len() * n + c >= samples.len(),
        0 <= j < lane(samples, n, c).len() ==> 0 <= j * n + c < samples.len() && lane(
            samples,
            n,
            c,
        )[j] == samples[j * n + c],
{
    let k = n as int;
    if 0 <= j < lane(samples, n, c).len() {
        lemma_lane_index(samples.len(), n, c, j);
    }
    let past = samples.len() + k - 1 - c;
    let q = past / k;
    vstd::arithmetic::div_mod::lemma_fundamental_div_mod(past, k);
    vstd::arithmetic::div_mod::lemma_fundamental_div_mod(samples.len() as int, k);
    let (rest, r, d) = (past % k, samples.len() as int % k, samples.len() as int / k);
    assert(q * k + c >= samples.len()) by (nonlinear_arith)
        requires
            past == samples.len() + k - 1 - c,
            past == k * q + rest,
            rest < k,
    ;
    assert(q <= d + 1) by (nonlinear_arith)
        requires
            past == samples.len() + k - 1 - c,
            past == k * q + rest,
            rest >= 0,
            samples.len() == k * d + r,
            r < k,
            c >= 0,
            k > 0,
    {
        if q >= d + 2 {
            assert(k * q >= k * d + 2 * k);
        }
    }
}

/// Decoded audio shows its buffers and its rate as they are.
pub proof fn law_audio_shows_its_buffers(audio: DecodedAudio)
    ensures
        audio@.channels.len() == audio.channels@.len(),
        forall|c: int|
            0 <= c < audio.channels@.len() ==> (#[trigger] audio@.channels[c])
                == audio.channels@[c]@,
        audio@.sample_rate == audio.sample_rate@,
{
}

} // verus!
