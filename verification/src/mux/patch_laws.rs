//! What a finished physical stream holds once the patches of its end have been
//! written over it.
use crate::framing;
use crate::framing_laws;
use crate::mux::auto_index;
use crate::mux::auto_index::AutoIndexConfig;
use crate::mux::clean_laws;
use crate::mux::index_laws;
use crate::mux::index_laws::Places;
use crate::mux::mux_laws;
use crate::mux::muxer;
use crate::mux::muxer::MuxView;
use crate::page;
use crate::page::{flags, PageView};
use crate::skeleton::state::SkeletonView;
use crate::stream::{PacketView, StreamInfoView};
use crate::validate;
use crate::validate_group;
use crate::validate_laws;
use vstd::prelude::*;

verus! {

/// The bytes `data` with `bytes` written over them from `offset` on.
pub open spec fn overwritten(data: Seq<u8>, offset: int, bytes: Seq<u8>) -> Seq<u8> {
    data.take(offset) + bytes + data.skip(offset + bytes.len())
}

/// The bytes `data` with the patches written over them, one after the other.
pub open spec fn patched(data: Seq<u8>, patches: Seq<(u64, Seq<u8>)>) -> Seq<u8>
    decreases patches.len(),
{
    if patches.len() == 0 {
        data
    } else {
        let p = patches.last();
        overwritten(patched(data, patches.drop_last()), p.0 as int, p.1)
    }
}

proof fn lemma_patched_push(data: Seq<u8>, patches: Seq<(u64, Seq<u8>)>, p: (u64, Seq<u8>))
    ensures
        patched(data, patches.push(p)) == overwritten(patched(data, patches), p.0 as int, p.1),
{
    assert(patches.push(p).drop_last() =~= patches);
}

/// The two pages differ in nothing but what their packets hold.
pub open spec fn alike(p: PageView, q: PageView) -> bool {
    &&& p.flags == q.flags
    &&& p.granule_position == q.granule_position
    &&& p.serial == q.serial
    &&& p.seq_no == q.seq_no
    &&& p.lacing == q.lacing
    &&& p.data.len() == q.data.len()
}

/// Page by page, the two differ in nothing but what packets hold.
pub open spec fn all_alike(a: Seq<PageView>, b: Seq<PageView>) -> bool {
    a.len() == b.len() && forall|i: int| 0 <= i < a.len() ==> alike(#[trigger] a[i], b[i])
}

pub proof fn lemma_bytes_concat(a: Seq<PageView>, b: Seq<PageView>)
    ensures
        framing::bytes_of(a + b) == framing::bytes_of(a) + framing::bytes_of(b),
    decreases b.len(),
{
    if b.len() == 0 {
        assert(a + b =~= a);
        assert(framing::bytes_of(a) + framing::bytes_of(b) =~= framing::bytes_of(a));
    } else {
        lemma_bytes_concat(a, b.drop_last());
        assert((a + b).drop_last() =~= a + b.drop_last());
        assert(framing::bytes_of(a + b) =~= framing::bytes_of(a) + framing::bytes_of(b));
    }
}

pub proof fn lemma_bytes_one(p: PageView)
    ensures
        framing::bytes_of(seq![p]) == p.encoded(),
{
    let none = Seq::<PageView>::empty();
    assert(seq![p].drop_last() =~= none);
    assert(framing::bytes_of(none) =~= Seq::<u8>::empty());
    assert(framing::bytes_of(seq![p]) == framing::bytes_of(none) + p.encoded());
    assert(framing::bytes_of(none) + p.encoded() =~= p.encoded());
}

/// Writing a page over one of the same length replaces that page.
proof fn lemma_overwritten(pages: Seq<PageView>, q: int, p: PageView)
    requires
        0 <= q < pages.len(),
        pages[q].encoded().len() == p.encoded().len(),
    ensures
        overwritten(
            framing::bytes_of(pages),
            framing::bytes_of(pages.take(q)).len() as int,
            p.encoded(),
        ) == framing::bytes_of(pages.update(q, p)),
        framing::bytes_of(pages.take(q)).len() <= framing::bytes_of(pages).len(),
{
    let a = pages.take(q);
    let c = pages.skip(q + 1);
    let old_one = seq![pages[q]];
    let new_one = seq![p];
    assert(pages =~= a + old_one + c);
    assert(pages.update(q, p) =~= a + new_one + c);
    lemma_bytes_concat(a + old_one, c);
    lemma_bytes_concat(a, old_one);
    lemma_bytes_concat(a + new_one, c);
    lemma_bytes_concat(a, new_one);
    lemma_bytes_one(pages[q]);
    lemma_bytes_one(p);
    let data = framing::bytes_of(pages);
    let at = framing::bytes_of(a).len() as int;
    assert(data =~= framing::bytes_of(a) + pages[q].encoded() + framing::bytes_of(c));
    assert(data.take(at) =~= framing::bytes_of(a));
    assert(data.skip(at + p.encoded().len()) =~= framing::bytes_of(c));
}

/// Pages that are alike are of one length.
proof fn lemma_alike_len(p: PageView, q: PageView)
    requires
        alike(p, q),
        p.wf(),
    ensures
        q.wf(),
        p.encoded().len() == q.encoded().len(),
{
    page::law_parse_encoded(p, Seq::empty());
    page::law_parse_encoded(q, Seq::empty());
}

proof fn lemma_alike_bytes(a: Seq<PageView>, b: Seq<PageView>)
    requires
        all_alike(a, b),
        forall|i: int| 0 <= i < a.len() ==> (#[trigger] a[i]).wf(),
    ensures
        framing::bytes_of(a).len() == framing::bytes_of(b).len(),
    decreases a.len(),
{
    if a.len() > 0 {
        let n = a.len() - 1;
        let x = a.drop_last();
        let y = b.drop_last();
        assert(alike(a[n], b[n]));
        lemma_alike_len(a[n], b[n]);
        assert forall|i: int| 0 <= i < x.len() implies (#[trigger] x[i]).wf() && alike(
            x[i],
            y[i],
        ) by {
            assert(a[i].wf());
            assert(alike(a[i], b[i]));
        }
        lemma_alike_bytes(x, y);
    }
}

/// A patch at the place of a page, with a page alike, replaces that page.
proof fn lemma_place_patched(
    pages: Seq<PageView>,
    before: Seq<PageView>,
    q: int,
    p: PageView,
    offset: u64,
)
    requires
        all_alike(pages, before),
        forall|i: int| 0 <= i < pages.len() ==> (#[trigger] pages[i]).wf(),
        0 <= q < pages.len(),
        alike(pages[q], p),
        offset == index_laws::place(0, pages, q),
        framing::bytes_of(pages).len() <= u64::MAX,
    ensures
        overwritten(framing::bytes_of(before), offset as int, p.encoded()) == framing::bytes_of(
            before.update(q, p),
        ),
        all_alike(pages, before.update(q, p)),
{
    let after = before.update(q, p);
    assert(pages[q].wf());
    assert(alike(pages[q], before[q]));
    lemma_alike_len(pages[q], before[q]);
    lemma_alike_len(pages[q], p);
    lemma_overwritten(before, q, p);
    lemma_overwritten(pages, q, p);
    lemma_prefix_len(pages, before, q);
    assert forall|i: int| 0 <= i < pages.len() implies alike(#[trigger] pages[i], after[i]) by {
        assert(alike(pages[i], before[i]));
    }
}

/// The pages with the first `n` indexes in their places.
pub open spec fn with_indexes(m: MuxView, base: Places, n: int) -> Seq<PageView> {
    Seq::new(
        m.wire.pages.len(),
        |q: int|
            if base.first <= q < base.first + n {
                let a = m.auto[q - base.first];
                muxer::skeleton_page(
                    m.skeleton->Some_0.serial,
                    a.placeholder->Some_0.1,
                    0,
                    a.packet(),
                )
            } else {
                m.wire.pages[q]
            },
    )
}

/// The pages with every index in its place and the `fishead` filled in.
pub open spec fn final_pages(m: MuxView, base: Places) -> Seq<PageView> {
    let pages = with_indexes(m, base, m.auto.len() as int);
    if m.head_patches().len() > 0 {
        pages.update(
            0,
            muxer::skeleton_page(
                m.skeleton->Some_0.serial,
                0,
                flags::FIRST_PAGE,
                m.measured_head().encoded(),
            ),
        )
    } else {
        pages
    }
}

/// Every index has its place, from page `base.first` on.
#[verifier::opaque]
spec fn settled_places(m: MuxView, base: Places) -> bool {
    &&& m.skeleton is Some
    &&& base.first > 0
    &&& index_laws::begun_by_head(m)
    &&& forall|i: int| 0 <= i < m.wire.pages.len() ==> (#[trigger] m.wire.pages[i]).wf()
    &&& forall|i: int|
        0 <= i < m.auto.len() ==> (#[trigger] m.auto[i]).wf() && index_laws::keeps_place(
            0,
            m.wire.pages,
            base.first + i,
            m.skeleton->Some_0.serial,
            m.auto[i],
        )
}

proof fn lemma_index_page(m: MuxView, base: Places, i: int)
    requires
        settled_places(m, base),
        0 <= i < m.auto.len(),
    ensures
        ({
            let a = m.auto[i];
            let q = base.first + i;
            &&& a.placeholder is Some
            &&& 0 <= q < m.wire.pages.len()
            &&& a.placeholder->Some_0.0 == index_laws::place(0, m.wire.pages, q)
            &&& alike(
                m.wire.pages[q],
                muxer::skeleton_page(
                    m.skeleton->Some_0.serial,
                    a.placeholder->Some_0.1,
                    0,
                    a.packet(),
                ),
            )
        }),
{
    reveal(settled_places);
    let a = m.auto[i];
    assert(m.auto[i].wf());
    assert(index_laws::keeps_place(
        0,
        m.wire.pages,
        base.first + i,
        m.skeleton->Some_0.serial,
        m.auto[i],
    ));
    auto_index::law_index_fits(a);
}

proof fn lemma_settled(m: MuxView, base: Places)
    requires
        settled_places(m, base),
    ensures
        m.skeleton is Some,
        base.first > 0,
        index_laws::begun_by_head(m),
        forall|i: int| 0 <= i < m.wire.pages.len() ==> (#[trigger] m.wire.pages[i]).wf(),
{
    reveal(settled_places);
}

/// The patches of the first `n` indexes put them in their places.
proof fn lemma_index_patches(m: MuxView, base: Places, n: int)
    requires
        settled_places(m, base),
        framing::bytes_of(m.wire.pages).len() <= u64::MAX,
        0 <= n <= m.auto.len(),
    ensures
        patched(framing::bytes_of(m.wire.pages), m.index_patches(n)) == framing::bytes_of(
            with_indexes(m, base, n),
        ),
        all_alike(m.wire.pages, with_indexes(m, base, n)),
    decreases n,
{
    let pages = m.wire.pages;
    lemma_settled(m, base);
    if n == 0 {
        assert(with_indexes(m, base, 0) =~= pages);
    } else {
        lemma_index_patches(m, base, n - 1);
        let before = with_indexes(m, base, n - 1);
        let after = with_indexes(m, base, n);
        let a = m.auto[n - 1];
        let q = base.first + n - 1;
        lemma_index_page(m, base, n - 1);
        let (offset, seq_no) = a.placeholder->Some_0;
        let p = muxer::skeleton_page(m.skeleton->Some_0.serial, seq_no, 0, a.packet());
        lemma_place_patched(pages, before, q, p, offset);
        assert(before.update(q, p) =~= after);
        let fewer = m.index_patches(n - 1);
        let all = m.index_patches(n);
        assert(all == fewer.push((offset, p.encoded())));
        lemma_patched_push(framing::bytes_of(pages), fewer, (offset, p.encoded()));
    }
}

proof fn lemma_prefix_len(a: Seq<PageView>, b: Seq<PageView>, q: int)
    requires
        all_alike(a, b),
        forall|i: int| 0 <= i < a.len() ==> (#[trigger] a[i]).wf(),
        0 <= q <= a.len(),
    ensures
        framing::bytes_of(a.take(q)).len() == framing::bytes_of(b.take(q)).len(),
{
    let x = a.take(q);
    let y = b.take(q);
    assert forall|i: int| 0 <= i < x.len() implies (#[trigger] x[i]).wf() && alike(
        x[i],
        y[i],
    ) by {
        assert(a[i].wf());
        assert(alike(a[i], b[i]));
    }
    lemma_alike_bytes(x, y);
}

/// All patches put every index in its place and fill in the `fishead`.
proof fn lemma_patched(m: MuxView, base: Places)
    requires
        settled_places(m, base),
        framing::bytes_of(m.wire.pages).len() <= u64::MAX,
        m.skeleton->Some_0.emitted_head matches Some(h) && h.utc.len() == 20,
    ensures
        patched(framing::bytes_of(m.wire.pages), m.patches()) == framing::bytes_of(
            final_pages(m, base),
        ),
        all_alike(m.wire.pages, final_pages(m, base)),
{
    let n = m.auto.len() as int;
    let pages = m.wire.pages;
    let before = with_indexes(m, base, n);
    let all = m.patches();
    lemma_settled(m, base);
    lemma_index_patches(m, base, n);
    if m.head_patches().len() > 0 {
        let o = m.skeleton->Some_0;
        let head = o.emitted_head->Some_0;
        let p = muxer::skeleton_page(o.serial, 0, flags::FIRST_PAGE, m.measured_head().encoded());
        assert(all =~= m.index_patches(n).push((0u64, p.encoded())));
        lemma_patched_push(framing::bytes_of(pages), m.index_patches(n), (0u64, p.encoded()));
        assert(m.measured_head().encoded().len() == head.encoded().len());
        assert(pages.take(0) =~= Seq::empty());
        assert(framing::bytes_of(pages.take(0)).len() == 0);
        lemma_place_patched(pages, before, 0, p, 0);
    } else {
        assert(all =~= m.index_patches(n));
    }
}

/// The patched file is the pages that were written, but for the indexes of the
/// Skeleton, each of which stands whole on its page, and the `fishead`, whose
/// length and offset are filled in where they were not known.
pub proof fn law_patched(
    streams: Seq<StreamInfoView>,
    skeleton: Option<SkeletonView>,
    config: Option<AutoIndexConfig>,
    packets: Seq<PacketView>,
) -> (base: Places)
    requires
        index_laws::writable(streams, skeleton, config, packets),
        skeleton is Some,
        framing::bytes_of(
            index_laws::finished(0, streams, skeleton, config, packets).wire.pages,
        ).len() <= u64::MAX,
    ensures
        ({
            let m = index_laws::finished(0, streams, skeleton, config, packets);
            let pages = m.wire.pages;
            let after = final_pages(m, base);
            &&& patched(framing::bytes_of(pages), m.patches()) == framing::bytes_of(after)
            &&& all_alike(pages, after)
            &&& forall|q: int|
                0 <= q < pages.len() && (#[trigger] pages[q]).serial != m.skeleton->Some_0.serial
                    ==> after[q] == pages[q]
            &&& 0 < base.first
            &&& forall|i: int|
                0 <= i < m.auto.len() ==> {
                    let a = #[trigger] m.auto[i];
                    let q = base.first + i;
                    &&& q < pages.len()
                    &&& a.placeholder matches Some((offset, seq_no)) && offset
                        == framing::bytes_of(pages.take(q)).len() && after[q].data == a.packet()
                }
        }),
{
    let base = index_laws::lemma_finished_places(0, streams, skeleton, config, packets);
    let m = index_laws::finished(0, streams, skeleton, config, packets);
    let pages = m.wire.pages;
    assert(settled_places(m, base)) by {
        reveal(settled_places);
    }
    lemma_patched(m, base);
    let after = final_pages(m, base);
    assert forall|q: int|
        0 <= q < pages.len() && (#[trigger] pages[q]).serial
            != m.skeleton->Some_0.serial implies after[q] == pages[q] by {
        assert(alike(pages[q], after[q]));
    }
    assert forall|i: int| 0 <= i < m.auto.len() implies ({
        let a = #[trigger] m.auto[i];
        let q = base.first + i;
        &&& q < pages.len()
        &&& a.placeholder matches Some((offset, seq_no)) && offset == framing::bytes_of(
            pages.take(q),
        ).len() && after[q].data == a.packet()
    }) by {
        let q = base.first + i;
        assert(index_laws::keeps_place(
            0,
            pages,
            base.first + i,
            m.skeleton->Some_0.serial,
            m.auto[i],
        ));
        lemma_overwritten(pages, q, pages[q]);
    }
    base
}

/// The pages of each bitstream are alike.
proof fn lemma_alike_of_serial(a: Seq<PageView>, b: Seq<PageView>, serial: u32)
    requires
        all_alike(a, b),
    ensures
        all_alike(mux_laws::of_serial(a, serial), mux_laws::of_serial(b, serial)),
    decreases a.len(),
{
    if a.len() > 0 {
        let n = a.len() - 1;
        let x = a.drop_last();
        let y = b.drop_last();
        assert forall|i: int| 0 <= i < x.len() implies alike(#[trigger] x[i], y[i]) by {
            assert(alike(a[i], b[i]));
        }
        lemma_alike_of_serial(x, y, serial);
        assert(alike(a[n], b[n]));
        let v = mux_laws::of_serial(a, serial);
        let w = mux_laws::of_serial(b, serial);
        assert forall|i: int| 0 <= i < v.len() implies alike(#[trigger] v[i], w[i]) by {
            if i < mux_laws::of_serial(x, serial).len() {
                assert(alike(mux_laws::of_serial(x, serial)[i], mux_laws::of_serial(y, serial)[i]));
            }
        }
    }
}

proof fn lemma_alike_one_stream(a: Seq<PageView>, b: Seq<PageView>, serial: u32)
    requires
        all_alike(a, b),
        validate_laws::one_stream(serial, a),
    ensures
        validate_laws::one_stream(serial, b),
{
    assert forall|i: int| 0 <= i < b.len() implies #[trigger] framing_laws::well_placed(
        serial,
        b,
        i,
        true,
    ) by {
        assert(framing_laws::well_placed(serial, a, i, true));
        assert(alike(a[i], b[i]));
        if i > 0 {
            assert(alike(a[i - 1], b[i - 1]));
        }
    }
    assert(alike(a[a.len() - 1], b[a.len() - 1]));
    assert forall|i: int|
        0 <= i < b.len() && page::packets_ended(
            (#[trigger] b[i]).lacing,
        ) > 0 implies b[i].granule_position >= 0 by {
        assert(alike(a[i], b[i]));
    }
    assert forall|i: int, j: int|
        0 <= i < j < b.len() && page::packets_ended((#[trigger] b[i]).lacing) > 0
            && page::packets_ended(
            (#[trigger] b[j]).lacing,
        ) > 0 implies b[i].granule_position <= b[j].granule_position by {
        assert(alike(a[i], b[i]));
        assert(alike(a[j], b[j]));
    }
}

/// What is a group stays one when packets hold something else.
proof fn lemma_alike_grouped(a: Seq<PageView>, b: Seq<PageView>, heads: int)
    requires
        all_alike(a, b),
        validate_group::grouped(a, heads),
    ensures
        validate_group::grouped(b, heads),
{
    assert forall|i: int| 0 <= i < b.len() implies (#[trigger] validate_group::rank(b, i) == 0 <==> i
        < heads) by {
        let x = a.take(i);
        let y = b.take(i);
        assert(alike(a[i], b[i]));
        assert forall|j: int| 0 <= j < x.len() implies alike(#[trigger] x[j], y[j]) by {
            assert(alike(a[j], b[j]));
        }
        lemma_alike_of_serial(x, y, a[i].serial);
        assert(validate_group::rank(a, i) == 0 <==> i < heads);
    }
    assert forall|k: u32|
        mux_laws::of_serial(b, k).len() > 0 implies #[trigger] validate_laws::one_stream(
        k,
        mux_laws::of_serial(b, k),
    ) by {
        lemma_alike_of_serial(a, b, k);
        assert(validate_laws::one_stream(k, mux_laws::of_serial(a, k)));
        lemma_alike_one_stream(mux_laws::of_serial(a, k), mux_laws::of_serial(b, k), k);
    }
}

/// The patched file of a complete physical stream with a Skeleton is clean, if
/// its packets come in time.
pub proof fn law_patched_clean(
    streams: Seq<StreamInfoView>,
    skeleton: Option<SkeletonView>,
    config: Option<AutoIndexConfig>,
    packets: Seq<PacketView>,
)
    requires
        clean_laws::complete(0, streams, skeleton, config, packets),
        clean_laws::in_time(0, streams, skeleton, config, packets),
        skeleton is Some,
        clean_laws::pages_written(0, streams, skeleton, config, packets).len() <= u32::MAX,
        framing::bytes_of(
            clean_laws::pages_written(0, streams, skeleton, config, packets),
        ).len() <= u64::MAX,
    ensures
        ({
            let m = index_laws::finished(0, streams, skeleton, config, packets);
            let report = validate::validated(
                patched(framing::bytes_of(m.wire.pages), m.patches()),
            );
            &&& report.clean()
            &&& report.pages == m.wire.pages.len()
            &&& report.links == 1
            &&& report.junk_bytes == 0
        }),
{
    let m = index_laws::finished(0, streams, skeleton, config, packets);
    let base = law_patched(streams, skeleton, config, packets);
    let heads = clean_laws::lemma_muxer_grouped(0, streams, skeleton, config, packets);
    let after = final_pages(m, base);
    lemma_alike_grouped(m.wire.pages, after, heads);
    validate_group::law_group_clean(after, heads);
}

} // verus!
