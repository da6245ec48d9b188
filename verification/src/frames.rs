//! Sample framing of the analysis pipeline: pairing interleaved stereo
//! samples into frames before they are mixed down to mono, and fitting a block
//! of samples to the transform size, cut off or padded at the end.
use vstd::prelude::*;

verus! {

/// The stereo frames of an interleaved buffer: left and right sample of each
/// whole frame; a trailing lone sample is dropped.
pub open spec fn stereo_pairs<T>(samples: Seq<T>) -> Seq<(T, T)> {
    Seq::new(samples.len() / 2, |i: int| (samples[2 * i], samples[2 * i + 1]))
}

/// Every whole frame of the buffer is paired: the frames use up all samples
/// but at most one trailing sample, and sample `i` is the left (even `i`) or
/// right (odd `i`) sample of frame `i / 2`.
pub proof fn lemma_stereo_pairs_cover<T>(samples: Seq<T>)
    ensures
        2 * stereo_pairs(samples).len() <= samples.len() < 2 * stereo_pairs(samples).len() + 2,
        forall|i: int|
            0 <= i < 2 * stereo_pairs(samples).len() ==> #[trigger] samples[i] == (if i % 2 == 0 {
                stereo_pairs(samples)[i / 2].0
            } else {
                stereo_pairs(samples)[i / 2].1
            }),
{
    let p = stereo_pairs(samples);
    assert forall|i: int| 0 <= i < 2 * p.len() implies #[trigger] samples[i] == (if i % 2 == 0 {
        p[i / 2].0
    } else {
        p[i / 2].1
    }) by {
        let k = i / 2;
        assert(0 <= k < p.len());
        if i % 2 == 0 {
            assert(i == 2 * k);
        } else {
            assert(i == 2 * k + 1);
        }
    }
}

/// Pairs an interleaved stereo buffer into frames. A buffer of fewer than two
/// samples holds no frame and gives `None`.
pub fn stereo_frames<T: Copy>(samples: &[T]) -> (frames: Option<Vec<(T, T)>>)
    ensures
        frames is None <==> samples@.len() < 2,
        frames matches Some(f) ==> f@ == stereo_pairs(samples@),
        frames matches Some(f) ==> 2 * f@.len() <= samples@.len() < 2 * f@.len() + 2,
        frames matches Some(f) ==> forall|i: int|
            0 <= i < 2 * f@.len() ==> #[trigger] samples@[i] == (if i % 2 == 0 {
                f@[i / 2].0
            } else {
                f@[i / 2].1
            }),
{
    let len: usize = samples.len();
    if len < 2 {
        return None;
    }
    let count: usize = len / 2;
    let mut frames: Vec<(T, T)> = Vec::new();
    let mut i: usize = 0;
    while i < count
        invariant
            len == samples@.len(),
            count == len / 2,
            i <= count,
            frames@.len() == i,
            forall|j: int| 0 <= j < i ==> frames@[j] == (samples@[2 * j], samples@[2 * j + 1]),
        decreases count - i,
    {
        let left = samples[2 * i];
        let right = samples[2 * i + 1];
        frames.push((left, right));
        i = i + 1;
    }
    proof {
        assert(frames@ =~= stereo_pairs(samples@));
        lemma_stereo_pairs_cover(samples@);
    }
    Some(frames)
}

/// The frames of an interleaved buffer of `channels` channels: consecutive
/// groups of `channels` samples, the last one shorter where the buffer ends
/// inside a frame.
pub open spec fn channel_groups<T>(samples: Seq<T>, channels: nat) -> Seq<Seq<T>>
    recommends
        channels > 0,
{
    Seq::new(
        ((samples.len() + channels - 1) / (channels as int)) as nat,
        |i: int|
            samples.subrange(
                i * channels,
                if (i + 1) * channels <= samples.len() {
                    (i + 1) * channels
                } else {
                    samples.len() as int
                },
            ),
    )
}

/// The frames cover the whole buffer, in order: there are just enough of
/// them to hold every sample, every frame but a shorter last one holds
/// `channels` samples, and sample `i` is sample `i % channels` of frame
/// `i / channels`.
pub proof fn lemma_channel_groups_cover<T>(samples: Seq<T>, channels: nat)
    requires
        channels > 0,
    ensures
        channel_groups(samples, channels).len() * channels >= samples.len(),
        channel_groups(samples, channels).len() * channels < samples.len() + channels,
        forall|k: int|
            0 <= k < channel_groups(samples, channels).len() ==> (#[trigger] channel_groups(
                samples,
                channels,
            )[k]).len() == if (k + 1) * channels <= samples.len() {
                channels as int
            } else {
                samples.len() - k * channels
            },
        forall|i: int|
            0 <= i < samples.len() ==> {
                &&& channel_groups(samples, channels)[i / (channels as int)][i % (
                channels as int)] == #[trigger] samples[i]
                &&& 0 <= i / (channels as int) < channel_groups(samples, channels).len()
                &&& i % (channels as int) < channel_groups(samples, channels)[i / (
                channels as int)].len()
            },
{
    let c = channels as int;
    let len = samples.len() as int;
    let g = channel_groups(samples, channels);
    let count = g.len() as int;
    assert(count == (len + c - 1) / c);
    vstd::arithmetic::div_mod::lemma_fundamental_div_mod(len + c - 1, c);
    vstd::arithmetic::div_mod::lemma_mod_bound(len + c - 1, c);
    assert(count * c >= len && count * c < len + c) by (nonlinear_arith)
        requires
            len + c - 1 == c * count + (len + c - 1) % c,
            0 <= (len + c - 1) % c < c,
    ;
    assert forall|k: int| 0 <= k < count implies (#[trigger] g[k]).len() == if (k + 1) * c
        <= len {
        c
    } else {
        len - k * c
    } by {
        assert(k * c <= len) by (nonlinear_arith)
            requires
                0 <= k < count,
                count * c < len + c,
                c > 0,
        ;
        assert((k + 1) * c == k * c + c) by (nonlinear_arith);
    }
    assert forall|i: int| 0 <= i < len implies {
        &&& 0 <= i / c < count
        &&& i % c < g[i / c].len()
        &&& g[i / c][i % c] == #[trigger] samples[i]
    } by {
        let k = i / c;
        let r = i % c;
        vstd::arithmetic::div_mod::lemma_fundamental_div_mod(i, c);
        vstd::arithmetic::div_mod::lemma_mod_bound(i, c);
        assert(0 <= k < count && k * c + r == i) by (nonlinear_arith)
            requires
                i == c * k + r,
                0 <= r < c,
                0 <= i < len,
                count * c >= len,
                c > 0,
        ;
        assert((k + 1) * c == k * c + c) by (nonlinear_arith);
        assert(g[k] == samples.subrange(
            k * c,
            if (k + 1) * c <= len {
                (k + 1) * c
            } else {
                len
            },
        ));
    }
    assert forall|i: int| 0 <= i < samples.len() implies {
        &&& channel_groups(samples, channels)[i / (channels as int)][i % (channels as int)]
            == #[trigger] samples[i]
        &&& 0 <= i / (channels as int) < channel_groups(samples, channels).len()
        &&& i % (channels as int) < channel_groups(samples, channels)[i / (channels as int)].len()
    } by {
        assert(g[i / c][i % c] == samples[i]);
        assert(0 <= i / c < count);
    }
}

/// Splits an interleaved buffer into frames of `channels` samples each; the
/// last frame is shorter where the buffer ends inside a frame.
pub fn channel_frames<T: Copy>(samples: &[T], channels: usize) -> (frames: Vec<Vec<T>>)
    requires
        channels > 0,
    ensures
        frames@.len() == channel_groups(samples@, channels as nat).len(),
        forall|i: int|
            0 <= i < frames@.len() ==> #[trigger] frames@[i]@ == channel_groups(
                samples@,
                channels as nat,
            )[i],
        frames@.len() * channels >= samples@.len(),
        frames@.len() * channels < samples@.len() + channels,
        forall|k: int|
            0 <= k < frames@.len() ==> (#[trigger] frames@[k])@.len() == if (k + 1) * channels
                <= samples@.len() {
                channels as int
            } else {
                samples@.len() - k * channels
            },
        forall|i: int|
            0 <= i < samples@.len() ==> {
                &&& frames@[i / (channels as int)]@[i % (channels as int)] == #[trigger] samples@[i]
                &&& 0 <= i / (channels as int) < frames@.len()
                &&& i % (channels as int) < frames@[i / (channels as int)]@.len()
            },
{
    let len: usize = samples.len();
    let mut frames: Vec<Vec<T>> = Vec::new();
    let mut start: usize = 0;
    let ghost groups = channel_groups(samples@, channels as nat);
    proof {
        lemma_channel_groups_cover(samples@, channels as nat);
        assert(0 * channels == 0);
        if len == 0 {
            assert(groups.len() == 0) by (nonlinear_arith)
                requires
                    groups.len() * channels < channels,
                    channels > 0,
            ;
        } else {
            assert(groups.len() > 0) by (nonlinear_arith)
                requires
                    groups.len() * channels >= len,
                    len > 0,
            ;
        }
    }
    while start < len
        invariant
            len == samples@.len(),
            channels > 0,
            groups == channel_groups(samples@, channels as nat),
            start <= len,
            start < len ==> start == frames@.len() * channels && frames@.len() < groups.len(),
            start == len ==> frames@.len() == groups.len(),
            forall|i: int| 0 <= i < frames@.len() ==> #[trigger] frames@[i]@ == groups[i],
        decreases len - start,
    {
        let end: usize = if len - start >= channels {
            start + channels
        } else {
            len
        };
        let mut frame: Vec<T> = Vec::new();
        let mut j: usize = start;
        while j < end
            invariant
                start <= j <= end <= len,
                len == samples@.len(),
                frame@ == samples@.subrange(start as int, j as int),
            decreases end - j,
        {
            frame.push(samples[j]);
            j = j + 1;
            proof {
                assert(frame@ =~= samples@.subrange(start as int, j as int));
            }
        }
        let ghost k = frames@.len() as int;
        frames.push(frame);
        start = end;
        proof {
            assert((k + 1) * channels == k * channels + channels) by (nonlinear_arith);
            assert(frames@[k]@ == groups[k]);
            if end < len {
                assert(frames@.len() < groups.len()) by (nonlinear_arith)
                    requires
                        frames@.len() * channels < len,
                        groups.len() as int == (len + channels - 1) / (channels as int),
                        channels > 0,
                ;
            } else {
                assert(frames@.len() == groups.len()) by (nonlinear_arith)
                    requires
                        (frames@.len() - 1) * channels < len,
                        (frames@.len() - 1) * channels + channels >= len,
                        groups.len() as int == (len + channels - 1) / (channels as int),
                        channels > 0,
                ;
            }
        }
    }
    proof {
        lemma_channel_groups_cover(samples@, channels as nat);
        assert forall|k: int| 0 <= k < frames@.len() implies (#[trigger] frames@[k])@.len()
            == if (k + 1) * channels <= samples@.len() {
            channels as int
        } else {
            samples@.len() - k * channels
        } by {
            assert(frames@[k]@ == groups[k]);
        }
        assert forall|i: int| 0 <= i < samples@.len() implies {
            &&& frames@[i / (channels as int)]@[i % (channels as int)] == #[trigger] samples@[i]
            &&& 0 <= i / (channels as int) < frames@.len()
            &&& i % (channels as int) < frames@[i / (channels as int)]@.len()
        } by {
            let k = i / (channels as int);
            assert(samples@[i] == groups[k][i % (channels as int)]);
            assert(0 <= k < groups.len());
            assert(frames@[k]@ == groups[k]);
        }
    }
    frames
}

/// A block of exactly `size` samples: the first `size` samples, with `fill`
/// in every place past the end of the input.
pub open spec fn fitted<T>(samples: Seq<T>, size: nat, fill: T) -> Seq<T> {
    Seq::new(size, |i: int| if i < samples.len() { samples[i] } else { fill })
}

/// Fits a block of samples to `size` samples: longer input is cut off, shorter
/// input is padded with `fill`.
pub fn fit_to_length<T: Copy>(samples: &[T], size: usize, fill: T) -> (block: Vec<T>)
    ensures
        block@ == fitted(samples@, size as nat, fill),
        block@.len() == size,
        forall|i: int| 0 <= i < size && i < samples@.len() ==> #[trigger] block@[i] == samples@[i],
        forall|i: int| samples@.len() <= i < size ==> #[trigger] block@[i] == fill,
{
    let mut block: Vec<T> = Vec::new();
    let mut i: usize = 0;
    while i < size
        invariant
            i <= size,
            block@.len() == i,
            forall|j: int|
                0 <= j < i ==> block@[j] == (if j < samples@.len() {
                    samples@[j]
                } else {
                    fill
                }),
        decreases size - i,
    {
        if i < samples.len() {
            block.push(samples[i]);
        } else {
            block.push(fill);
        }
        i = i + 1;
    }
    proof {
        assert(block@ =~= fitted(samples@, size as nat, fill));
        lemma_fit_prefix(samples@, size as nat, fill);
    }
    block
}

/// A fitted block is the input's prefix padded: it has `size` samples, its
/// first `min(size, len)` samples are the input's first ones, and every place
/// past the input's end holds `fill`.
pub proof fn lemma_fit_prefix<T>(samples: Seq<T>, size: nat, fill: T)
    ensures
        fitted(samples, size, fill).len() == size,
        size <= samples.len() ==> fitted(samples, size, fill) == samples.take(size as int),
        samples.len() <= size ==> fitted(samples, size, fill).take(samples.len() as int)
            == samples,
        forall|i: int| samples.len() <= i < size ==> #[trigger] fitted(samples, size, fill)[i] == fill,
{
    if size <= samples.len() {
        assert(fitted(samples, size, fill) =~= samples.take(size as int));
    } else {
        assert(fitted(samples, size, fill).take(samples.len() as int) =~= samples);
    }
}

/// Fitting to a smaller size gives the first part of a larger fit: the block
/// for `small` samples starts the block for `large` samples.
pub proof fn lemma_fit_grows<T>(samples: Seq<T>, small: nat, large: nat, fill: T)
    requires
        small <= large,
    ensures
        fitted(samples, large, fill).take(small as int) == fitted(samples, small, fill),
{
    assert(fitted(samples, large, fill).take(small as int) =~= fitted(samples, small, fill));
}

/// Fitting keeps a block that already has the right size as it is.
pub proof fn lemma_fit_exact<T>(samples: Seq<T>, fill: T)
    ensures
        fitted(samples, samples.len(), fill) == samples,
{
    assert(fitted(samples, samples.len(), fill) =~= samples);
}

/// Fitting twice to the same size is the same as fitting once.
pub proof fn lemma_fit_idempotent<T>(samples: Seq<T>, size: nat, fill: T)
    ensures
        fitted(fitted(samples, size, fill), size, fill) == fitted(samples, size, fill),
{
    assert(fitted(fitted(samples, size, fill), size, fill) =~= fitted(samples, size, fill));
}

} // verus!
