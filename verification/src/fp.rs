//! The `.fp` raw-peak file format.
//!
//! A file starts with the 8 bytes `AUDIOPEK`, the duration in seconds as the
//! little-endian bits of an `f64`, the number of frames and the most peaks
//! stored per frame as little-endian `u32`s. Each frame follows as its peak
//! count (one byte), its energy as the little-endian bits of an `f32`, and its
//! peak bins as little-endian `u16`s, in ascending order.

use vstd::prelude::*;

verus! {

/// Most spectral peaks kept per frame.
pub const MAX_RAW_PEAKS_STORED: usize = 8;

/// Bytes before the first frame record.
pub const HEADER_LEN: usize = 24;

/// The peak track of an episode, with the floating-point values held as
/// their bit patterns (`f64::to_bits` of the duration in seconds,
/// `f32::to_bits` of each frame energy).
#[derive(Debug)]
pub struct RawAudioPeaksFile {
    pub duration_bits: u64,
    pub total_frames: u32,
    pub frame_peaks: Vec<Vec<u16>>,
    pub frame_energy_bits: Vec<u32>,
}

/// Why bytes are not a `.fp` file.
#[derive(Debug, Clone, Copy, PartialEq, Eq)]
pub enum PeaksFileError {
    /// The file does not start with `AUDIOPEK`.
    BadMagic,
    /// The file ends before the header or a frame record is complete.
    Truncated,
}

/// `AUDIOPEK`.
pub open spec fn magic_bytes() -> Seq<u8> {
    seq![65u8, 85u8, 68u8, 73u8, 79u8, 80u8, 69u8, 75u8]
}

pub open spec fn le_u16(x: u16) -> Seq<u8> {
    seq![(x % 256) as u8, (x / 256) as u8]
}

pub open spec fn le_u32(x: u32) -> Seq<u8> {
    seq![
        (x % 256) as u8,
        ((x / 0x100) % 256) as u8,
        ((x / 0x1_0000) % 256) as u8,
        (x / 0x100_0000) as u8,
    ]
}

pub open spec fn le_u64(x: u64) -> Seq<u8> {
    le_u32((x % 0x1_0000_0000) as u32) + le_u32((x / 0x1_0000_0000) as u32)
}

pub open spec fn read_u16(b: Seq<u8>, p: int) -> u16 {
    (b[p] + 256 * b[p + 1]) as u16
}

pub open spec fn read_u32(b: Seq<u8>, p: int) -> u32 {
    (b[p] + 0x100 * b[p + 1] + 0x1_0000 * b[p + 2] + 0x100_0000 * b[p + 3]) as u32
}

pub open spec fn read_u64(b: Seq<u8>, p: int) -> u64 {
    (read_u32(b, p) + 0x1_0000_0000 * read_u32(b, p + 4)) as u64
}

/// The peak bins, two little-endian bytes each.
pub open spec fn peaks_bytes(p: Seq<u16>) -> Seq<u8>
    decreases p.len(),
{
    if p.len() == 0 {
        Seq::empty()
    } else {
        peaks_bytes(p.drop_last()) + le_u16(p.last())
    }
}

/// One frame record: the count byte, the energy bits, the peak bins.
pub open spec fn frame_record(count: u8, energy: u32, peaks: Seq<u16>) -> Seq<u8> {
    seq![count] + le_u32(energy) + peaks_bytes(peaks)
}

/// The bins in ascending order.
pub open spec fn sorted_peaks(p: Seq<u16>) -> Seq<u16> {
    p.sort_by(|a: u16, b: u16| a <= b)
}

/// The energy written for frame `i`: 0 past the end of the energies.
pub open spec fn energy_at(e: Seq<u32>, i: int) -> u32 {
    if 0 <= i < e.len() {
        e[i]
    } else {
        0
    }
}

/// The records of the first `n` frames, as written: the count byte is the
/// number of peaks truncated to a byte, the peaks are sorted.
pub open spec fn frames_encoding(frames: Seq<Seq<u16>>, energies: Seq<u32>, n: int) -> Seq<u8>
    decreases n,
{
    if n <= 0 {
        Seq::empty()
    } else {
        frames_encoding(frames, energies, n - 1) + frame_record(
            (frames[n - 1].len() % 256) as u8,
            energy_at(energies, n - 1),
            sorted_peaks(frames[n - 1]),
        )
    }
}

/// The views of the peak lists.
pub open spec fn peaks_view(v: Seq<Vec<u16>>) -> Seq<Seq<u16>> {
    v.map_values(|p: Vec<u16>| p@)
}

/// The bytes of a `.fp` file.
pub open spec fn raw_peaks_encoding(
    duration_bits: u64,
    total_frames: u32,
    frames: Seq<Seq<u16>>,
    energies: Seq<u32>,
) -> Seq<u8> {
    magic_bytes() + le_u64(duration_bits) + le_u32(total_frames) + le_u32(
        MAX_RAW_PEAKS_STORED as u32,
    ) + frames_encoding(frames, energies, frames.len() as int)
}

/// `count` bins read from `p` on.
pub open spec fn read_peaks(b: Seq<u8>, p: int, count: nat) -> Seq<u16> {
    Seq::new(count, |k: int| read_u16(b, p + 2 * k))
}

/// Reads `n` frame records from `pos` on: their peaks, their energies and
/// the position after them, or `None` when the bytes run out.
pub open spec fn parse_frames(b: Seq<u8>, pos: int, n: nat) -> Option<
    (Seq<Seq<u16>>, Seq<u32>, int),
>
    decreases n,
{
    if n == 0 {
        Some((Seq::empty(), Seq::empty(), pos))
    } else {
        match parse_frames(b, pos, (n - 1) as nat) {
            None => None,
            Some(r) => {
                let p = r.2;
                if p + 5 > b.len() {
                    None
                } else if p + 5 + 2 * b[p] > b.len() {
                    None
                } else {
                    Some(
                        (
                            r.0.push(read_peaks(b, p + 5, b[p] as nat)),
                            r.1.push(read_u32(b, p + 1)),
                            p + 5 + 2 * b[p],
                        ),
                    )
                }
            },
        }
    }
}

/// What a `.fp` file holds: duration bits, frame count, the frames' peaks
/// and energy bits; bytes after the last frame are ignored.
pub open spec fn parse_raw_peaks(b: Seq<u8>) -> Result<
    (u64, u32, Seq<Seq<u16>>, Seq<u32>),
    PeaksFileError,
> {
    if b.len() < 8 {
        Err(PeaksFileError::Truncated)
    } else if b.subrange(0, 8) != magic_bytes() {
        Err(PeaksFileError::BadMagic)
    } else if b.len() < HEADER_LEN {
        Err(PeaksFileError::Truncated)
    } else {
        match parse_frames(b, HEADER_LEN as int, read_u32(b, 16) as nat) {
            None => Err(PeaksFileError::Truncated),
            Some(r) => Ok((read_u64(b, 8), read_u32(b, 16), r.0, r.1)),
        }
    }
}

/// The model of a decoded file.
pub open spec fn file_model(d: RawAudioPeaksFile) -> (u64, u32, Seq<Seq<u16>>, Seq<u32>) {
    (d.duration_bits, d.total_frames, peaks_view(d.frame_peaks@), d.frame_energy_bits@)
}

fn push_u16(out: &mut Vec<u8>, x: u16)
    ensures
        final(out)@ == old(out)@ + le_u16(x),
{
    out.push((x % 256) as u8);
    out.push((x / 256) as u8);
    proof {
        assert(final(out)@ =~= old(out)@ + le_u16(x));
    }
}

fn push_u32(out: &mut Vec<u8>, x: u32)
    ensures
        final(out)@ == old(out)@ + le_u32(x),
{
    out.push((x % 256) as u8);
    out.push(((x / 0x100) % 256) as u8);
    out.push(((x / 0x1_0000) % 256) as u8);
    out.push((x / 0x100_0000) as u8);
    proof {
        assert(final(out)@ =~= old(out)@ + le_u32(x));
    }
}

fn push_u64(out: &mut Vec<u8>, x: u64)
    ensures
        final(out)@ == old(out)@ + le_u64(x),
{
    let ghost before = out@;
    push_u32(out, (x % 0x1_0000_0000) as u32);
    push_u32(out, (x / 0x1_0000_0000) as u32);
    proof {
        assert(out@ =~= before + le_u64(x));
    }
}

/// Sorts the bins with std's `sort_unstable`, which reorders a slice into
/// ascending order.
#[verifier::external_body]
fn sort_bins(peaks: &mut Vec<u16>)
    ensures
        final(peaks)@.to_multiset() == old(peaks)@.to_multiset(),
        vstd::relations::sorted_by(final(peaks)@, |a: u16, b: u16| a <= b),
{
    peaks.sort_unstable();
}

proof fn lemma_sorted_peaks(s: Seq<u16>, t: Seq<u16>)
    requires
        t.to_multiset() == s.to_multiset(),
        vstd::relations::sorted_by(t, |a: u16, b: u16| a <= b),
    ensures
        sorted_peaks(s) == t,
        sorted_peaks(s).len() == s.len(),
{
    let leq = |a: u16, b: u16| a <= b;
    s.lemma_sort_by_ensures(leq);
    vstd::seq_lib::lemma_sorted_unique(s.sort_by(leq), t, leq);
    vstd::seq_lib::to_multiset_len(s);
    vstd::seq_lib::to_multiset_len(t);
}

/// Appends one frame record.
fn push_frame(out: &mut Vec<u8>, peaks: &Vec<u16>, energy: u32)
    ensures
        final(out)@ == old(out)@ + frame_record(
            (peaks@.len() % 256) as u8,
            energy,
            sorted_peaks(peaks@),
        ),
{
    let mut sorted: Vec<u16> = Vec::new();
    let mut k: usize = 0;
    while k < peaks.len()
        invariant
            k <= peaks@.len(),
            sorted@ == peaks@.take(k as int),
        decreases peaks@.len() - k,
    {
        sorted.push(peaks[k]);
        k = k + 1;
        proof {
            assert(sorted@ =~= peaks@.take(k as int));
        }
    }
    proof {
        assert(sorted@ =~= peaks@);
    }
    sort_bins(&mut sorted);
    proof {
        lemma_sorted_peaks(peaks@, sorted@);
    }
    let ghost before = out@;
    out.push((peaks.len() % 256) as u8);
    push_u32(out, energy);
    let ghost mid = out@;
    let mut j: usize = 0;
    while j < sorted.len()
        invariant
            j <= sorted@.len(),
            out@ == mid + peaks_bytes(sorted@.take(j as int)),
        decreases sorted@.len() - j,
    {
        push_u16(out, sorted[j]);
        proof {
            assert(sorted@.take(j + 1).drop_last() =~= sorted@.take(j as int));
        }
        j = j + 1;
    }
    proof {
        assert(sorted@.take(sorted@.len() as int) =~= sorted@);
        assert(out@ =~= before + frame_record(
            (peaks@.len() % 256) as u8,
            energy,
            sorted_peaks(peaks@),
        ));
    }
}

/// The bytes of the `.fp` file for `data`: the header, then one record per
/// peak list, its bins sorted; a frame without an energy gets 0.
pub fn encode_raw_peaks(data: &RawAudioPeaksFile) -> (out: Vec<u8>)
    ensures
        out@ == raw_peaks_encoding(
            data.duration_bits,
            data.total_frames,
            peaks_view(data.frame_peaks@),
            data.frame_energy_bits@,
        ),
{
    let mut out: Vec<u8> = Vec::new();
    out.push(65u8);
    out.push(85u8);
    out.push(68u8);
    out.push(73u8);
    out.push(79u8);
    out.push(80u8);
    out.push(69u8);
    out.push(75u8);
    proof {
        assert(out@ =~= magic_bytes());
    }
    push_u64(&mut out, data.duration_bits);
    push_u32(&mut out, data.total_frames);
    push_u32(&mut out, MAX_RAW_PEAKS_STORED as u32);
    let ghost header = out@;
    let ghost frames = peaks_view(data.frame_peaks@);
    let ghost energies = data.frame_energy_bits@;
    let mut i: usize = 0;
    while i < data.frame_peaks.len()
        invariant
            i <= data.frame_peaks@.len(),
            frames == peaks_view(data.frame_peaks@),
            energies == data.frame_energy_bits@,
            out@ == header + frames_encoding(frames, energies, i as int),
        decreases data.frame_peaks@.len() - i,
    {
        let energy = if i < data.frame_energy_bits.len() {
            data.frame_energy_bits[i]
        } else {
            0
        };
        push_frame(&mut out, &data.frame_peaks[i], energy);
        proof {
            assert(frames[i as int] == data.frame_peaks@[i as int]@);
        }
        i = i + 1;
    }
    out
}

fn get_u32(b: &[u8], p: usize) -> (x: u32)
    requires
        p + 4 <= b@.len(),
    ensures
        x == read_u32(b@, p as int),
{
    b[p] as u32 + 0x100 * (b[p + 1] as u32) + 0x1_0000 * (b[p + 2] as u32) + 0x100_0000 * (b[p
        + 3] as u32)
}

fn get_u16(b: &[u8], p: usize) -> (x: u16)
    requires
        p + 2 <= b@.len(),
    ensures
        x == read_u16(b@, p as int),
{
    b[p] as u16 + 256 * (b[p + 1] as u16)
}

/// Once the records run out, reading more of them fails too.
proof fn lemma_parse_frames_none(b: Seq<u8>, pos: int, k: nat, m: nat)
    requires
        k <= m,
        parse_frames(b, pos, k) is None,
    ensures
        parse_frames(b, pos, m) is None,
    decreases m - k,
{
    if k < m {
        lemma_parse_frames_none(b, pos, k, (m - 1) as nat);
    }
}

/// Reads a `.fp` file from its bytes.
pub fn decode_raw_peaks(b: &[u8]) -> (res: Result<RawAudioPeaksFile, PeaksFileError>)
    ensures
        match res {
            Ok(d) => parse_raw_peaks(b@) == Ok::<_, PeaksFileError>(file_model(d)),
            Err(e) => parse_raw_peaks(b@) == Err::<(u64, u32, Seq<Seq<u16>>, Seq<u32>), _>(e),
        },
{
    let n = b.len();
    if n < 8 {
        return Err(PeaksFileError::Truncated);
    }
    if !(b[0] == 65 && b[1] == 85 && b[2] == 68 && b[3] == 73 && b[4] == 79 && b[5] == 80 && b[6]
        == 69 && b[7] == 75) {
        proof {
            if b@.subrange(0, 8) == magic_bytes() {
                assert(b@[0] == b@.subrange(0, 8)[0]);
                assert(b@[1] == b@.subrange(0, 8)[1]);
                assert(b@[2] == b@.subrange(0, 8)[2]);
                assert(b@[3] == b@.subrange(0, 8)[3]);
                assert(b@[4] == b@.subrange(0, 8)[4]);
                assert(b@[5] == b@.subrange(0, 8)[5]);
                assert(b@[6] == b@.subrange(0, 8)[6]);
                assert(b@[7] == b@.subrange(0, 8)[7]);
            }
        }
        return Err(PeaksFileError::BadMagic);
    }
    proof {
        assert(b@.subrange(0, 8) =~= magic_bytes());
    }
    if n < HEADER_LEN {
        return Err(PeaksFileError::Truncated);
    }
    let duration_bits: u64 = get_u32(b, 8) as u64 + 0x1_0000_0000 * (get_u32(b, 12) as u64);
    let total_frames = get_u32(b, 16);
    let mut frame_peaks: Vec<Vec<u16>> = Vec::new();
    let mut frame_energy_bits: Vec<u32> = Vec::new();
    let mut pos: usize = HEADER_LEN;
    let mut i: u32 = 0;
    while i < total_frames
        invariant
            n == b@.len(),
            n >= HEADER_LEN,
            b@.subrange(0, 8) == magic_bytes(),
            total_frames == read_u32(b@, 16),
            i <= total_frames,
            pos <= n,
            parse_frames(b@, HEADER_LEN as int, i as nat) == Some::<
                (Seq<Seq<u16>>, Seq<u32>, int),
            >((peaks_view(frame_peaks@), frame_energy_bits@, pos as int)),
        decreases total_frames - i,
    {
        if n - pos < 5 {
            proof {
                assert(parse_frames(b@, HEADER_LEN as int, (i + 1) as nat) is None);
                lemma_parse_frames_none(b@, HEADER_LEN as int, (i + 1) as nat, total_frames as nat);
            }
            return Err(PeaksFileError::Truncated);
        }
        let count = b[pos] as usize;
        if n - pos - 5 < 2 * count {
            proof {
                assert(parse_frames(b@, HEADER_LEN as int, (i + 1) as nat) is None);
                lemma_parse_frames_none(b@, HEADER_LEN as int, (i + 1) as nat, total_frames as nat);
            }
            return Err(PeaksFileError::Truncated);
        }
        let energy = get_u32(b, pos + 1);
        let start = pos + 5;
        let mut peaks: Vec<u16> = Vec::new();
        let mut k: usize = 0;
        while k < count
            invariant
                n == b@.len(),
                start + 2 * count <= n,
                k <= count,
                peaks@ == read_peaks(b@, start as int, k as nat),
            decreases count - k,
        {
            peaks.push(get_u16(b, start + 2 * k));
            k = k + 1;
            proof {
                assert(peaks@ =~= read_peaks(b@, start as int, k as nat));
            }
        }
        let ghost fp_before = frame_peaks@;
        let ghost new_peaks = peaks@;
        frame_peaks.push(peaks);
        frame_energy_bits.push(energy);
        proof {
            assert(peaks_view(frame_peaks@) =~= peaks_view(fp_before).push(new_peaks));
        }
        pos = start + 2 * count;
        i = i + 1;
    }
    proof {
        assert(duration_bits == read_u64(b@, 8));
    }
    Ok(RawAudioPeaksFile { duration_bits, total_frames, frame_peaks, frame_energy_bits })
}

proof fn lemma_read_le_u16(b: Seq<u8>, p: int, x: u16)
    requires
        0 <= p,
        p + 2 <= b.len(),
        b[p] == le_u16(x)[0],
        b[p + 1] == le_u16(x)[1],
    ensures
        read_u16(b, p) == x,
{
    assert((x % 256) as u8 + 256 * ((x / 256) as u8) == x) by (bit_vector);
}

proof fn lemma_read_le_u32(b: Seq<u8>, p: int, x: u32)
    requires
        0 <= p,
        p + 4 <= b.len(),
        b.subrange(p, p + 4) == le_u32(x),
    ensures
        read_u32(b, p) == x,
{
    assert(b[p] == le_u32(x)[0]);
    assert(b[p + 1] == le_u32(x)[1]);
    assert(b[p + 2] == le_u32(x)[2]);
    assert(b[p + 3] == le_u32(x)[3]);
    assert((x % 256) as u8 + 0x100 * (((x / 0x100) % 256) as u8) + 0x1_0000 * (((x / 0x1_0000)
        % 256) as u8) + 0x100_0000 * ((x / 0x100_0000) as u8) == x) by (bit_vector);
}

proof fn lemma_read_le_u64(b: Seq<u8>, p: int, x: u64)
    requires
        0 <= p,
        p + 8 <= b.len(),
        b.subrange(p, p + 8) == le_u64(x),
    ensures
        read_u64(b, p) == x,
{
    let lo = (x % 0x1_0000_0000) as u32;
    let hi = (x / 0x1_0000_0000) as u32;
    let w = b.subrange(p, p + 8);
    assert(w == le_u32(lo) + le_u32(hi));
    assert forall|j: int| 0 <= j < 4 implies b.subrange(p, p + 4)[j] == le_u32(lo)[j] by {
        assert(w[j] == b[p + j]);
    }
    assert forall|j: int| 0 <= j < 4 implies b.subrange(p + 4, p + 8)[j] == le_u32(hi)[j] by {
        assert(w[4 + j] == b[p + 4 + j]);
        assert((le_u32(lo) + le_u32(hi))[4 + j] == le_u32(hi)[j]);
    }
    assert(b.subrange(p, p + 4) =~= le_u32(lo));
    assert(b.subrange(p + 4, p + 8) =~= le_u32(hi));
    lemma_read_le_u32(b, p, lo);
    lemma_read_le_u32(b, p + 4, hi);
    assert(((x % 0x1_0000_0000) as u32) + 0x1_0000_0000 * ((x / 0x1_0000_0000) as u32) == x)
        by (bit_vector);
}

proof fn lemma_peaks_bytes(p: Seq<u16>)
    ensures
        peaks_bytes(p).len() == 2 * p.len(),
        forall|k: int|
            0 <= k < p.len() ==> peaks_bytes(p)[2 * k] == le_u16(#[trigger] p[k])[0]
                && peaks_bytes(p)[2 * k + 1] == le_u16(p[k])[1],
    decreases p.len(),
{
    if p.len() > 0 {
        lemma_peaks_bytes(p.drop_last());
        assert forall|k: int| 0 <= k < p.len() implies peaks_bytes(p)[2 * k] == le_u16(
            #[trigger] p[k],
        )[0] && peaks_bytes(p)[2 * k + 1] == le_u16(p[k])[1] by {
            if k < p.len() - 1 {
                assert(p.drop_last()[k] == p[k]);
            }
        }
    }
}

proof fn lemma_sorted_peaks_len(p: Seq<u16>)
    ensures
        sorted_peaks(p).len() == p.len(),
{
    let leq = |a: u16, b: u16| a <= b;
    p.lemma_sort_by_ensures(leq);
    vstd::seq_lib::to_multiset_len(p);
    vstd::seq_lib::to_multiset_len(p.sort_by(leq));
}

proof fn lemma_frames_encoding_prefix(frames: Seq<Seq<u16>>, energies: Seq<u32>, k: int, n: int)
    requires
        0 <= k <= n,
    ensures
        frames_encoding(frames, energies, k).len() <= frames_encoding(frames, energies, n).len(),
        frames_encoding(frames, energies, n).subrange(
            0,
            frames_encoding(frames, energies, k).len() as int,
        ) == frames_encoding(frames, energies, k),
    decreases n - k,
{
    if k < n {
        lemma_frames_encoding_prefix(frames, energies, k, n - 1);
        let a = frames_encoding(frames, energies, k);
        let b = frames_encoding(frames, energies, n - 1);
        let c = frames_encoding(frames, energies, n);
        assert(c.subrange(0, a.len() as int) =~= b.subrange(0, a.len() as int));
    }
}

/// Reading the first `k` records of a written file gives the first `k`
/// frames, each with its bins sorted and its energy.
proof fn lemma_parse_written_frames(
    e: Seq<u8>,
    frames: Seq<Seq<u16>>,
    energies: Seq<u32>,
    k: int,
)
    requires
        0 <= k <= frames.len(),
        forall|i: int| 0 <= i < frames.len() ==> (#[trigger] frames[i]).len() <= 255,
        e.len() >= HEADER_LEN + frames_encoding(frames, energies, frames.len() as int).len(),
        e.subrange(
            HEADER_LEN as int,
            HEADER_LEN + frames_encoding(frames, energies, frames.len() as int).len(),
        ) == frames_encoding(frames, energies, frames.len() as int),
    ensures
        parse_frames(e, HEADER_LEN as int, k as nat) == Some::<(Seq<Seq<u16>>, Seq<u32>, int)>(
            (
                frames.take(k).map_values(|p: Seq<u16>| sorted_peaks(p)),
                Seq::new(k as nat, |i: int| energy_at(energies, i)),
                HEADER_LEN + frames_encoding(frames, energies, k).len(),
            ),
        ),
    decreases k,
{
    let n = frames.len() as int;
    let fk = frames_encoding(frames, energies, k);
    if k == 0 {
        assert(frames.take(0).map_values(|p: Seq<u16>| sorted_peaks(p)) =~= Seq::<
            Seq<u16>,
        >::empty());
        assert(Seq::new(0nat, |i: int| energy_at(energies, i)) =~= Seq::<u32>::empty());
    } else {
        lemma_parse_written_frames(e, frames, energies, k - 1);
        lemma_frames_encoding_prefix(frames, energies, k, n);
        let prev = frames_encoding(frames, energies, k - 1);
        let peaks = frames[k - 1];
        let sp = sorted_peaks(peaks);
        let energy = energy_at(energies, k - 1);
        let rec = frame_record((peaks.len() % 256) as u8, energy, sp);
        assert(fk == prev + rec);
        let p = HEADER_LEN + prev.len();
        lemma_sorted_peaks_len(peaks);
        lemma_peaks_bytes(sp);
        assert(rec.len() == 5 + 2 * sp.len());
        assert forall|j: int| 0 <= j < rec.len() implies e[p + j] == #[trigger] rec[j] by {
            let full = frames_encoding(frames, energies, n);
            assert(e[p + j] == full[prev.len() + j]) by {
                assert(e.subrange(HEADER_LEN as int, HEADER_LEN + full.len())[prev.len() + j]
                    == e[p + j]);
            }
            assert(full[prev.len() + j] == fk[prev.len() + j]) by {
                assert(full.subrange(0, fk.len() as int)[prev.len() + j] == full[prev.len() + j]);
            }
        }
        assert(e[p] == rec[0]);
        assert(e[p] == peaks.len());
        assert(e.subrange(p + 1, p + 5) =~= le_u32(energy)) by {
            assert forall|j: int| 0 <= j < 4 implies e.subrange(p + 1, p + 5)[j] == le_u32(
                energy,
            )[j] by {
                assert(rec[1 + j] == le_u32(energy)[j]);
            }
        }
        lemma_read_le_u32(e, p + 1, energy);
        let rp = read_peaks(e, p + 5, peaks.len() as nat);
        assert forall|m: int| 0 <= m < sp.len() implies rp[m] == #[trigger] sp[m] by {
            assert(rec[5 + 2 * m] == peaks_bytes(sp)[2 * m]);
            assert(rec[5 + 2 * m + 1] == peaks_bytes(sp)[2 * m + 1]);
            assert(e[p + 5 + 2 * m] == rec[5 + 2 * m]);
            assert(e[p + 5 + 2 * m + 1] == rec[5 + 2 * m + 1]);
            lemma_read_le_u16(e, p + 5 + 2 * m, sp[m]);
        }
        assert(rp =~= sp);
        assert(frames.take(k).map_values(|p: Seq<u16>| sorted_peaks(p)) =~= frames.take(
            k - 1,
        ).map_values(|p: Seq<u16>| sorted_peaks(p)).push(sp));
        assert(Seq::new(k as nat, |i: int| energy_at(energies, i)) =~= Seq::new(
            (k - 1) as nat,
            |i: int| energy_at(energies, i),
        ).push(energy));
    }
}

/// Reading back a written `.fp` file gives its duration, its frame count,
/// each frame's bins in ascending order and each frame's energy (0 where
/// none was given), when the frame count is the number of peak lists and no
/// frame has more than 255 peaks.
pub proof fn lemma_raw_peaks_roundtrip(
    duration_bits: u64,
    total_frames: u32,
    frames: Seq<Seq<u16>>,
    energies: Seq<u32>,
)
    requires
        frames.len() == total_frames,
        forall|i: int| 0 <= i < frames.len() ==> (#[trigger] frames[i]).len() <= 255,
    ensures
        parse_raw_peaks(raw_peaks_encoding(duration_bits, total_frames, frames, energies)) == Ok::<
            _,
            PeaksFileError,
        >(
            (
                duration_bits,
                total_frames,
                frames.map_values(|p: Seq<u16>| sorted_peaks(p)),
                Seq::new(frames.len(), |i: int| energy_at(energies, i)),
            ),
        ),
{
    let e = raw_peaks_encoding(duration_bits, total_frames, frames, energies);
    let n = frames.len() as int;
    let fe = frames_encoding(frames, energies, n);
    let header = magic_bytes() + le_u64(duration_bits) + le_u32(total_frames) + le_u32(
        MAX_RAW_PEAKS_STORED as u32,
    );
    assert(header.len() == HEADER_LEN);
    assert(e == header + fe);
    assert(e.subrange(0, 8) =~= magic_bytes());
    assert(e.subrange(8, 16) =~= le_u64(duration_bits));
    assert(e.subrange(16, 20) =~= le_u32(total_frames));
    lemma_read_le_u64(e, 8, duration_bits);
    lemma_read_le_u32(e, 16, total_frames);
    assert(e.subrange(HEADER_LEN as int, HEADER_LEN + fe.len()) =~= fe);
    lemma_parse_written_frames(e, frames, energies, n);
    assert(frames.take(n) =~= frames);
}

} // verus!
