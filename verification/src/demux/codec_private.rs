//! A codec's setup data, built from the header packets of its stream.
use crate::bytes::push_all;
use crate::codec_id::CodecId;
use crate::framing;
use crate::mux::codec_headers;
use crate::mux::xiph;
use crate::page::lace;
use vstd::prelude::*;

verus! {

/// The setup data of a codec: Vorbis and Theora lace their three header packets
/// into one blob, Opus keeps the first, and any other codec puts them one
/// behind the other.
pub open spec fn private_of(codec: Seq<char>, packets: Seq<Seq<u8>>) -> Seq<u8> {
    if (codec == "vorbis"@ || codec == "theora"@) && packets.len() == 3 {
        xiph::blob_of(packets)
    } else if codec == "opus"@ {
        if packets.len() > 0 {
            packets[0]
        } else {
            Seq::empty()
        }
    } else {
        xiph::joined(packets)
    }
}

/// Laces three header packets into one blob.
fn xiph_lace_three(packets: &Vec<Vec<u8>>) -> (out: Vec<u8>)
    requires
        packets@.len() == 3,
    ensures
        out@ == xiph::blob_of(framing::packets_view(packets@)),
{
    let mut out: Vec<u8> = Vec::new();
    out.push(2);
    push_all(&mut out, lace(packets[0].len()).as_slice());
    push_all(&mut out, lace(packets[1].len()).as_slice());
    push_all(&mut out, packets[0].as_slice());
    push_all(&mut out, packets[1].as_slice());
    push_all(&mut out, packets[2].as_slice());
    proof {
        let all = framing::packets_view(packets@);
        let front = all.drop_last();
        reveal_with_fuel(xiph::sizes_laced, 4);
        reveal_with_fuel(xiph::joined, 5);
        assert(front.skip(1).skip(1) =~= Seq::<Seq<u8>>::empty());
        assert(all.skip(1).skip(1).skip(1) =~= Seq::<Seq<u8>>::empty());
        assert(out@ =~= xiph::blob_of(all));
    }
    out
}

/// Builds a codec's setup data from the header packets of its stream.
pub fn build_codec_private(codec_id: &CodecId, packets: &Vec<Vec<u8>>) -> (out: Vec<u8>)
    ensures
        out@ == private_of(codec_id@, framing::packets_view(packets@)),
{
    let ghost all = framing::packets_view(packets@);
    if packets.len() == 3 && (codec_id.is("vorbis") || codec_id.is("theora")) {
        return xiph_lace_three(packets);
    }
    let mut out: Vec<u8> = Vec::new();
    if codec_id.is("opus") {
        proof {
            reveal_strlit("vorbis");
            reveal_strlit("theora");
            reveal_strlit("opus");
        }
        if packets.len() > 0 {
            push_all(&mut out, packets[0].as_slice());
            assert(out@ =~= all[0]);
        }
        return out;
    }
    let mut i: usize = 0;
    assert(all.skip(0) =~= all);
    assert(out@ + xiph::joined(all) =~= xiph::joined(all));
    while i < packets.len()
        invariant
            i <= packets@.len(),
            all == framing::packets_view(packets@),
            xiph::joined(all) == out@ + xiph::joined(all.skip(i as int)),
        decreases packets@.len() - i,
    {
        let ghost before = out@;
        push_all(&mut out, packets[i].as_slice());
        proof {
            assert(all.skip(i as int).skip(1) =~= all.skip(i + 1));
            assert(all.skip(i as int)[0] == packets@[i as int]@);
            let rest = xiph::joined(all.skip(i + 1));
            assert(before + (packets@[i as int]@ + rest) =~= out@ + rest);
        }
        i += 1;
    }
    assert(out@ + Seq::<u8>::empty() =~= out@);
    out
}

/// The header packets of Vorbis and Theora come out of the setup data as they
/// went in.
pub proof fn law_private_round_trip(codec: Seq<char>, packets: Seq<Seq<u8>>)
    requires
        codec == "vorbis"@ || codec == "theora"@,
        packets.len() == 3,
    ensures
        codec_headers::headers_of(codec, private_of(codec, packets)) == packets,
{
    codec_headers::law_laced_headers(codec, packets);
}

/// The first header packet of Opus comes out of the setup data as it went in.
pub proof fn law_private_opus(packets: Seq<Seq<u8>>)
    requires
        packets.len() > 0,
        packets[0].len() > 0,
    ensures
        codec_headers::headers_of("opus"@, private_of("opus"@, packets)).len() == 2,
        codec_headers::headers_of("opus"@, private_of("opus"@, packets))[0] == packets[0],
{
    reveal_strlit("vorbis");
    reveal_strlit("theora");
    reveal_strlit("opus");
    assert("opus"@.len() == 4 && "vorbis"@.len() == 6 && "theora"@.len() == 6);
}

} // verus!
