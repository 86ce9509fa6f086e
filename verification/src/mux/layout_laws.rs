//! Which packets share a page.
use crate::mux::stream_writer;
use crate::mux::stream_writer::StreamView;
use crate::page;
use crate::stream::PacketView;
use vstd::prelude::*;

verus! {

/// The number of segments that a packet of `len` bytes takes.
pub open spec fn segments_of(len: nat) -> nat {
    len / 255 + 1
}

/// A content packet that fits the page that is being filled goes there and finishes
/// no page, unless it ends a unit. Its time becomes that of the page, and so does
/// that of the first keyframe on it.
pub proof fn law_page_shared(s: StreamView, p: PacketView)
    requires
        s.headers == 0,
        !p.unit_boundary,
        s.lacing.len() + segments_of(p.data.len()) <= 255,
    ensures
        ({
            let t = s.written(p);
            &&& t.ready == s.ready
            &&& t.pending == s.pending
            &&& t.seq_no == s.seq_no
            &&& t.lacing.len() == s.lacing.len() + segments_of(p.data.len())
            &&& t.data == s.data + p.data
            &&& t.granule == (match p.pts {
                Some(time) => time,
                None => s.granule,
            })
            &&& t.first_keyframe_pts == (if s.first_keyframe_pts is None && p.keyframe {
                p.pts
            } else {
                s.first_keyframe_pts
            })
        }),
{
    page::law_laced(p.data.len());
    assert(p.data.len() < 65025);
}

/// A content packet that does not fit behind others is put on a new page, which
/// holds nothing else; the page before it is finished as it stands.
pub proof fn law_page_begun(s: StreamView, p: PacketView)
    requires
        s.headers == 0,
        !p.unit_boundary,
        s.lacing.len() > 0,
        s.lacing.len() + segments_of(p.data.len()) > 255,
        p.data.len() < 65025,
    ensures
        ({
            let t = s.written(p);
            &&& t.ready == s.ready + stream_writer::as_list(s.pending)
            &&& t.pending matches Some(q) && {
                &&& q.page.lacing == s.lacing
                &&& q.page.data == s.data
                &&& q.page.granule_position == s.granule
                &&& q.page.seq_no == s.seq_no
                &&& q.first_keyframe_pts == s.first_keyframe_pts
            }
            &&& t.seq_no as int == (s.seq_no + 1) % 0x1_0000_0000
            &&& t.lacing.len() == segments_of(p.data.len())
            &&& t.data == p.data
            &&& p.pts matches Some(time) ==> t.granule == time
            &&& p.pts is None ==> t.granule == -1
        }),
{
    page::law_laced(p.data.len());
    assert(s.written(p).data =~= p.data);
}

/// A content packet that ends a unit finishes its page, with its time where it has
/// one, and so does every header packet, at the granule position 0.
pub proof fn law_page_ended(s: StreamView, p: PacketView)
    requires
        s.headers > 0 || p.unit_boundary,
        s.lacing.len() + segments_of(p.data.len()) <= 255,
    ensures
        ({
            let t = s.written(p);
            &&& t.ready == s.ready + stream_writer::as_list(s.pending)
            &&& t.pending matches Some(q) && {
                &&& q.page.lacing.len() == s.lacing.len() + segments_of(p.data.len())
                &&& q.page.data == s.data + p.data
                &&& s.headers > 0 ==> q.page.granule_position == 0
                &&& s.headers == 0 ==> (p.pts matches Some(time) ==> q.page.granule_position
                    == time)
            }
            &&& t.lacing.len() == 0
            &&& t.data.len() == 0
            &&& t.headers == (if s.headers > 0 {
                s.headers - 1
            } else {
                0
            })
        }),
{
    page::law_laced(p.data.len());
    assert(p.data.len() < 65025);
}

} // verus!
