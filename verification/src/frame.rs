//! Sample frames: the fixed-width pieces into which a pulled block is cut.

use vstd::prelude::*;

verus! {

/// The width of one sample in bytes: a single-precision number.
pub const SAMPLE_BYTES: usize = 4;

/// Whether `n` channels make a frame: at least one, and few enough for the
/// frame's length in bytes to be a `usize`.
pub open spec fn valid_channel_count(n: nat) -> bool {
    0 < n && n * SAMPLE_BYTES <= usize::MAX
}

/// The length in bytes of a frame of `n` channels.
pub open spec fn frame_bytes(n: nat) -> nat {
    n * SAMPLE_BYTES as nat
}

/// The number of whole frames of `n` channels in `len` bytes.
pub open spec fn frame_count(len: nat, n: nat) -> nat
    recommends
        0 < n,
{
    len / frame_bytes(n)
}

/// The number of channels of an observation.
#[derive(Clone, Copy, Debug)]
pub struct ChannelCount {
    count: usize,
}

impl ChannelCount {
    #[verifier::type_invariant]
    spec fn holds(self) -> bool {
        valid_channel_count(self.count as nat)
    }

    /// The number itself.
    pub closed spec fn value(self) -> nat {
        self.count as nat
    }

    /// Accepts `n` as a channel count, if it is a valid one.
    pub fn new(n: usize) -> (r: Option<ChannelCount>)
        ensures
            match r {
                Some(c) => valid_channel_count(n as nat) && c.value() == n,
                None => !valid_channel_count(n as nat),
            },
    {
        if n == 0 || n > usize::MAX / SAMPLE_BYTES {
            None
        } else {
            Some(ChannelCount { count: n })
        }
    }

    /// The number of channels.
    pub fn get(&self) -> (n: usize)
        ensures
            n == self.value(),
            valid_channel_count(n as nat),
    {
        proof {
            use_type_invariant(self);
        }
        self.count
    }

    /// The length in bytes of one frame.
    pub fn frame_len(&self) -> (len: usize)
        ensures
            len == frame_bytes(self.value()),
            len > 0,
    {
        proof {
            use_type_invariant(self);
        }
        self.count * SAMPLE_BYTES
    }
}

/// The `n` samples that stand in `block` from `offset` on: four bytes each, one
/// after the other.
pub open spec fn samples_from(block: Seq<u8>, n: nat, offset: int) -> Seq<Seq<u8>> {
    Seq::new(
        n,
        |c: int| block.subrange(offset + c * SAMPLE_BYTES, offset + c * SAMPLE_BYTES + SAMPLE_BYTES),
    )
}

/// Frame number `k` of `block`, counted from 0, for `n` channels.
pub open spec fn frame_at(block: Seq<u8>, n: nat, k: int) -> Seq<Seq<u8>> {
    samples_from(block, n, k * frame_bytes(n))
}

/// The whole frames of `block` in their order; what is left over after the
/// last whole frame belongs to none.
pub open spec fn frames_of(block: Seq<u8>, n: nat) -> Seq<Seq<Seq<u8>>> {
    Seq::new(frame_count(block.len(), n), |k: int| frame_at(block, n, k))
}

/// The bytes of a frame on the wire: its samples one after the other.
pub open spec fn wire_bytes(samples: Seq<Seq<u8>>) -> Seq<u8>
    decreases samples.len(),
{
    if samples.len() == 0 {
        Seq::empty()
    } else {
        wire_bytes(samples.drop_last()) + samples.last()
    }
}

/// The bytes of a run of frames on the wire: frame after frame.
pub open spec fn payload_bytes(frames: Seq<Seq<Seq<u8>>>) -> Seq<u8>
    decreases frames.len(),
{
    if frames.len() == 0 {
        Seq::empty()
    } else {
        payload_bytes(frames.drop_last()) + wire_bytes(frames.last())
    }
}

/// One time sample: the samples of all channels in channel order, each as the
/// four bytes that the transport delivered for it.
#[derive(Clone, Debug, PartialEq, Eq)]
pub struct Frame {
    pub samples: Vec<[u8; 4]>,
}

impl View for Frame {
    type V = Seq<Seq<u8>>;

    open spec fn view(&self) -> Seq<Seq<u8>> {
        Seq::new(self.samples@.len(), |c: int| self.samples@[c]@)
    }
}

/// The views of a run of frames.
pub open spec fn frame_views(frames: Seq<Frame>) -> Seq<Seq<Seq<u8>>> {
    Seq::new(frames.len(), |k: int| frames[k]@)
}

/// Reads the `n` samples that stand in `block` from `offset` on.
fn read_samples(block: &[u8], n: usize, offset: usize) -> (frame: Frame)
    requires
        offset + n * SAMPLE_BYTES <= block@.len(),
    ensures
        frame@ == samples_from(block@, n as nat, offset as int),
{
    let len: usize = block.len();
    let mut samples: Vec<[u8; 4]> = Vec::new();
    let mut c: usize = 0;
    while c < n
        invariant
            0 <= c <= n,
            len == block@.len(),
            offset + n * SAMPLE_BYTES <= block@.len(),
            samples@.len() == c,
            forall|j: int|
                0 <= j < c ==> (#[trigger] samples@[j])@ == block@.subrange(
                    offset + j * SAMPLE_BYTES,
                    offset + j * SAMPLE_BYTES + SAMPLE_BYTES,
                ),
        decreases n - c,
    {
        let at: usize = offset + c * SAMPLE_BYTES;
        let sample: [u8; 4] = [block[at], block[at + 1], block[at + 2], block[at + 3]];
        assert(sample@ =~= block@.subrange(at as int, at + SAMPLE_BYTES));
        samples.push(sample);
        c = c + 1;
    }
    let frame = Frame { samples };
    assert(frame@ =~= samples_from(block@, n as nat, offset as int));
    frame
}

impl Frame {
    /// Takes `bytes` as one frame of `channels` samples. This is the one place
    /// where bytes become samples; it succeeds exactly when `bytes` has the
    /// length of a frame.
    pub fn from_bytes(bytes: &[u8], channels: ChannelCount) -> (r: Option<Frame>)
        ensures
            match r {
                Some(frame) => bytes@.len() == frame_bytes(channels.value()) && frame@
                    == samples_from(bytes@, channels.value(), 0),
                None => bytes@.len() != frame_bytes(channels.value()),
            },
    {
        let n: usize = channels.get();
        if bytes.len() != channels.frame_len() {
            return None;
        }
        Some(read_samples(bytes, n, 0))
    }

    /// The bytes of this frame on the wire.
    pub fn to_bytes(&self) -> (bytes: Vec<u8>)
        ensures
            bytes@ == wire_bytes(self@),
    {
        let mut bytes: Vec<u8> = Vec::new();
        let n: usize = self.samples.len();
        let mut c: usize = 0;
        while c < n
            invariant
                0 <= c <= n,
                n == self.samples@.len(),
                bytes@ == wire_bytes(self@.subrange(0, c as int)),
            decreases n - c,
        {
            let sample: [u8; 4] = self.samples[c];
            let ghost before = bytes@;
            bytes.push(sample[0]);
            bytes.push(sample[1]);
            bytes.push(sample[2]);
            bytes.push(sample[3]);
            proof {
                let next = self@.subrange(0, c + 1);
                assert(next.drop_last() =~= self@.subrange(0, c as int));
                assert(next.last() == sample@);
                assert(bytes@ =~= before + sample@);
            }
            c = c + 1;
        }
        assert(self@.subrange(0, n as int) =~= self@);
        bytes
    }
}

/// Cuts `block` into its whole frames, in order. Bytes after the last whole
/// frame are left out.
pub fn split_frames(block: &[u8], channels: ChannelCount) -> (frames: Vec<Frame>)
    ensures
        frame_views(frames@) == frames_of(block@, channels.value()),
        frames@.len() == block@.len() / frame_bytes(channels.value()),
{
    let n: usize = channels.get();
    let width: usize = channels.frame_len();
    let count: usize = block.len() / width;
    let mut frames: Vec<Frame> = Vec::new();
    let mut k: usize = 0;
    let mut offset: usize = 0;
    assert(count * width <= block@.len()) by (nonlinear_arith)
        requires
            count == block@.len() / (width as nat),
            width > 0,
    ;
    while k < count
        invariant
            0 <= k <= count,
            n == channels.value(),
            width == frame_bytes(n as nat),
            width == n * SAMPLE_BYTES,
            offset == k * width,
            count * width <= block@.len(),
            block@.len() <= usize::MAX,
            frames@.len() == k,
            forall|j: int| 0 <= j < k ==> (#[trigger] frames@[j])@ == frame_at(block@, n as nat, j),
        decreases count - k,
    {
        assert((k + 1) * width <= count * width) by (nonlinear_arith)
            requires
                k + 1 <= count,
                width >= 0,
        ;
        assert((k + 1) * width == k * width + width) by (nonlinear_arith);
        let frame = read_samples(block, n, offset);
        frames.push(frame);
        offset = offset + width;
        k = k + 1;
    }
    assert(frame_views(frames@) =~= frames_of(block@, channels.value()));
    frames
}

/// Reading samples out of a stretch of bytes and writing them back gives that
/// stretch again, byte for byte.
pub proof fn lemma_wire_of_samples(block: Seq<u8>, n: nat, offset: int)
    requires
        0 <= offset,
        offset + frame_bytes(n) <= block.len(),
    ensures
        wire_bytes(samples_from(block, n, offset)) == block.subrange(
            offset,
            offset + frame_bytes(n),
        ),
    decreases n,
{
    let samples = samples_from(block, n, offset);
    if n == 0 {
        assert(block.subrange(offset, offset + frame_bytes(n)) =~= Seq::<u8>::empty());
    } else {
        let m = (n - 1) as nat;
        lemma_wire_of_samples(block, m, offset);
        assert(samples.drop_last() =~= samples_from(block, m, offset));
        assert(wire_bytes(samples) =~= block.subrange(offset, offset + frame_bytes(n)));
    }
}

/// Writing a frame of four-byte samples and reading the bytes back gives the
/// same samples in the same order: the wire form loses nothing.
pub proof fn lemma_samples_of_wire(samples: Seq<Seq<u8>>)
    requires
        forall|c: int| 0 <= c < samples.len() ==> (#[trigger] samples[c]).len() == SAMPLE_BYTES,
    ensures
        wire_bytes(samples).len() == frame_bytes(samples.len()),
        samples_from(wire_bytes(samples), samples.len(), 0) == samples,
    decreases samples.len(),
{
    let n = samples.len();
    let wire = wire_bytes(samples);
    if n == 0 {
        assert(samples_from(wire, n, 0) =~= samples);
    } else {
        let front = samples.drop_last();
        lemma_samples_of_wire(front);
        let front_wire = wire_bytes(front);
        let back = samples_from(wire, n, 0);
        assert forall|c: int| 0 <= c < n implies #[trigger] back[c] == samples[c] by {
            if c < n - 1 {
                assert(samples_from(front_wire, front.len(), 0)[c] == front[c]);
                assert(back[c] =~= front_wire.subrange(
                    c * SAMPLE_BYTES,
                    c * SAMPLE_BYTES + SAMPLE_BYTES,
                ));
            } else {
                assert(back[c] =~= samples.last());
            }
        }
        assert(back =~= samples);
    }
}

/// The first `k` frames of `block`.
pub open spec fn leading_frames(block: Seq<u8>, n: nat, k: nat) -> Seq<Seq<Seq<u8>>> {
    Seq::new(k, |j: int| frame_at(block, n, j))
}

/// The first `k` frames of a block, written out, are its first `k` frame
/// lengths of bytes.
pub proof fn lemma_leading_payload(block: Seq<u8>, n: nat, k: nat)
    requires
        k * frame_bytes(n) <= block.len(),
    ensures
        payload_bytes(leading_frames(block, n, k)) == block.subrange(
            0,
            (k * frame_bytes(n)) as int,
        ),
    decreases k,
{
    let width = frame_bytes(n);
    let frames = leading_frames(block, n, k);
    if k == 0 {
        assert(k * width == 0) by (nonlinear_arith)
            requires
                k == 0,
        ;
        assert(block.subrange(0, (k * width) as int) =~= Seq::<u8>::empty());
    } else {
        let j = (k - 1) as nat;
        assert(k * width == j * width + width) by (nonlinear_arith)
            requires
                k == j + 1,
        ;
        lemma_leading_payload(block, n, j);
        assert(frames.drop_last() =~= leading_frames(block, n, j));
        lemma_wire_of_samples(block, n, (j * width) as int);
        assert(payload_bytes(frames) =~= block.subrange(0, (k * width) as int));
    }
}

/// Cutting a block into frames and writing the frames out in order gives the
/// block's bytes up to the end of its last whole frame, unchanged and in
/// their order: `len / frame length` frames, and fewer bytes than one frame
/// dropped at the end.
pub proof fn lemma_payload_is_prefix(block: Seq<u8>, n: nat)
    requires
        0 < n,
    ensures
        frames_of(block, n).len() == block.len() / frame_bytes(n),
        frame_count(block.len(), n) * frame_bytes(n) <= block.len(),
        block.len() - frame_count(block.len(), n) * frame_bytes(n) < frame_bytes(n),
        payload_bytes(frames_of(block, n)) == block.subrange(
            0,
            (frame_count(block.len(), n) * frame_bytes(n)) as int,
        ),
{
    let width = frame_bytes(n);
    let count = frame_count(block.len(), n);
    assert(count * width <= block.len() && block.len() - count * width < width)
        by (nonlinear_arith)
        requires
            count == block.len() / width,
            width > 0,
    ;
    lemma_leading_payload(block, n, count);
    assert(frames_of(block, n) =~= leading_frames(block, n, count));
}

} // verus!
