//! The audio frames of an Ogg/Opus file: which packets carry audio, and their timestamps.

use vstd::prelude::*;

verus! {

/// The first packet of an Opus stream: its identification header, "OpusHead".
pub open spec fn opus_head() -> Seq<u8> {
    seq![0x4fu8, 0x70u8, 0x75u8, 0x73u8, 0x48u8, 0x65u8, 0x61u8, 0x64u8]
}

/// The second packet of an Opus stream: its comment header, "OpusTags".
pub open spec fn opus_tags() -> Seq<u8> {
    seq![0x4fu8, 0x70u8, 0x75u8, 0x73u8, 0x54u8, 0x61u8, 0x67u8, 0x73u8]
}

/// Whether `data` begins with `prefix`.
pub open spec fn starts_with(data: Seq<u8>, prefix: Seq<u8>) -> bool {
    data.len() >= prefix.len() && data.take(prefix.len() as int) == prefix
}

/// Whether a packet is one of the two Opus headers.
pub open spec fn spec_is_opus_header(data: Seq<u8>) -> bool {
    starts_with(data, opus_head()) || starts_with(data, opus_tags())
}

/// The packets of `ps` that carry audio (all but the Opus headers), in order.
pub open spec fn audio_packets(ps: Seq<Seq<u8>>) -> Seq<Seq<u8>>
    decreases ps.len(),
{
    if ps.len() == 0 {
        Seq::empty()
    } else if spec_is_opus_header(ps.last()) {
        audio_packets(ps.drop_last())
    } else {
        audio_packets(ps.drop_last()).push(ps.last())
    }
}

/// The most packets whose frames can all be stamped in milliseconds within `u64`.
pub const MAX_FRAMES: u64 = 0x0ccc_cccc_cccc_cccc;

/// The length of one Opus frame, in milliseconds: the audio packets of a stream are
/// stamped 0, 20, 40, ...
pub const FRAME_MS: u64 = 20;

/// Whether an Ogg packet is one of the two Opus headers, which carry no audio and are
/// not sent as frames.
pub fn is_opus_header(data: &[u8]) -> (res: bool)
    ensures
        res == spec_is_opus_header(data@),
{
    if data.len() < 8 {
        return false;
    }
    let opus = data[0] == 0x4f && data[1] == 0x70 && data[2] == 0x75 && data[3] == 0x73;
    let head = data[4] == 0x48 && data[5] == 0x65 && data[6] == 0x61 && data[7] == 0x64;
    let tags = data[4] == 0x54 && data[5] == 0x61 && data[6] == 0x67 && data[7] == 0x73;
    proof {
        let p = data@.take(8);
        assert(p == opus_head() <==> (p[0] == 0x4f && p[1] == 0x70 && p[2] == 0x75 && p[3] == 0x73
            && p[4] == 0x48 && p[5] == 0x65 && p[6] == 0x61 && p[7] == 0x64)) by {
            if p[0] == 0x4f && p[1] == 0x70 && p[2] == 0x75 && p[3] == 0x73 && p[4] == 0x48 && p[5]
                == 0x65 && p[6] == 0x61 && p[7] == 0x64 {
                assert(p =~= opus_head());
            }
        }
        assert(p == opus_tags() <==> (p[0] == 0x4f && p[1] == 0x70 && p[2] == 0x75 && p[3] == 0x73
            && p[4] == 0x54 && p[5] == 0x61 && p[6] == 0x67 && p[7] == 0x73)) by {
            if p[0] == 0x4f && p[1] == 0x70 && p[2] == 0x75 && p[3] == 0x73 && p[4] == 0x54 && p[5]
                == 0x61 && p[6] == 0x67 && p[7] == 0x73 {
                assert(p =~= opus_tags());
            }
        }
    }
    opus && (head || tags)
}

/// The packets of an Ogg file, in order, as the `ogg` crate's `PacketReader` reads
/// them up to the end of the file or its first error, and whether it stopped on an error.
pub uninterp spec fn spec_ogg_packets(file: Seq<u8>) -> (Seq<Seq<u8>>, bool);

/// Reads the packets of an Ogg file with `ogg::PacketReader::read_packet`, until it
/// reports the end or an error. Trusted: the packets and the error flag are the
/// crate's reading of these bytes alone (named `spec_ogg_packets`). Whether the reader
/// can panic on some malformed file is not stated here.
#[verifier::external_body]
fn ogg_packets(file: &[u8]) -> (res: (Vec<Vec<u8>>, bool))
    ensures
        (res.0@.map_values(|p: Vec<u8>| p@), res.1) == spec_ogg_packets(file@),
{
    let mut reader = ogg::PacketReader::new(std::io::Cursor::new(file));
    let mut packets: Vec<Vec<u8>> = Vec::new();
    loop {
        match reader.read_packet() {
            Ok(Some(packet)) => packets.push(packet.data),
            Ok(None) => return (packets, false),
            Err(_) => return (packets, true),
        }
    }
}

/// The audio frames to send from the packets of an Opus file: the packets that are
/// not Opus headers, in order, the `j`-th of them stamped `20 * j` milliseconds.
pub fn frames_to_send(packets: &Vec<Vec<u8>>) -> (res: Vec<(u64, Vec<u8>)>)
    requires
        packets@.len() <= MAX_FRAMES,
    ensures
        res@.len() == audio_packets(packets@.map_values(|p: Vec<u8>| p@)).len(),
        forall|j: int|
            0 <= j < res@.len() ==> (#[trigger] res@[j]).0 == FRAME_MS * j && res@[j].1@ == audio_packets(
                packets@.map_values(|p: Vec<u8>| p@),
            )[j],
{
    let ghost ps = packets@.map_values(|p: Vec<u8>| p@);
    let mut res: Vec<(u64, Vec<u8>)> = Vec::new();
    let mut timestamp: u64 = 0;
    let mut i: usize = 0;
    while i < packets.len()
        invariant
            0 <= i <= packets@.len(),
            packets@.len() <= MAX_FRAMES,
            ps == packets@.map_values(|p: Vec<u8>| p@),
            res@.len() == audio_packets(ps.take(i as int)).len(),
            res@.len() <= i,
            timestamp == FRAME_MS * res@.len(),
            forall|j: int|
                0 <= j < res@.len() ==> (#[trigger] res@[j]).0 == FRAME_MS * j && res@[j].1@
                    == audio_packets(ps.take(i as int))[j],
        decreases packets@.len() - i,
    {
        assert(ps.take(i + 1).drop_last() =~= ps.take(i as int));
        assert(ps.take(i + 1).last() == packets@[i as int]@);
        if !is_opus_header(packets[i].as_slice()) {
            let data = packets[i].clone();
            assert(data@ =~= packets@[i as int]@);
            res.push((timestamp, data));
            timestamp = timestamp + FRAME_MS;
        }
        i = i + 1;
    }
    assert(ps.take(packets@.len() as int) =~= ps);
    res
}

/// The audio frames of an Ogg file and whether reading it stopped on an error.
pub struct OggFrames {
    pub frames: Vec<(u64, Vec<u8>)>,
    pub read_error: bool,
}

/// Reads an Opus file held in `file` and stamps its audio frames (see
/// [`frames_to_send`]). `None` when it has more than [`MAX_FRAMES`] packets, too many
/// to stamp in milliseconds.
pub fn ogg_audio_frames(file: &[u8]) -> (res: Option<OggFrames>)
    ensures
        ({
            let (ps, err) = spec_ogg_packets(file@);
            &&& res is Some <==> ps.len() <= MAX_FRAMES
            &&& res matches Some(f) ==> {
                &&& f.read_error == err
                &&& f.frames@.len() == audio_packets(ps).len()
                &&& forall|j: int|
                    0 <= j < f.frames@.len() ==> (#[trigger] f.frames@[j]).0 == FRAME_MS * j
                        && f.frames@[j].1@ == audio_packets(ps)[j]
            }
        }),
{
    let (packets, read_error) = ogg_packets(file);
    if packets.len() as u64 > MAX_FRAMES {
        return None;
    }
    let frames = frames_to_send(&packets);
    Some(OggFrames { frames, read_error })
}

} // verus!
