//! What the validator says of several bitstreams in one physical stream.
use crate::framing;
use crate::framing_laws;
use crate::mux::mux_laws;
use crate::page;
use crate::page::PageView;
use crate::validate;
use crate::validate::{HeadView, IssueView, StreamModel, Walk};
use crate::validate_laws;
use vstd::prelude::*;

verus! {

/// How many pages of its own bitstream stand before page `i`.
pub open spec fn rank(pages: Seq<PageView>, i: int) -> nat {
    mux_laws::of_serial(pages.take(i), pages[i].serial).len()
}

/// The pages are those of closed bitstreams, each with a serial of its own. The
/// first `heads` pages begin the bitstreams, and no other page does.
pub open spec fn grouped(pages: Seq<PageView>, heads: int) -> bool {
    &&& 0 < heads <= pages.len()
    &&& forall|i: int| 0 <= i < pages.len() ==> (#[trigger] rank(pages, i) == 0 <==> i < heads)
    &&& forall|k: u32|
        mux_laws::of_serial(pages, k).len() > 0 ==> #[trigger] validate_laws::one_stream(
            k,
            mux_laws::of_serial(pages, k),
        )
}

/// What a walk knows of the bitstream `own` behind its first `j` pages.
spec fn modelled(own: Seq<PageView>, j: int, m: StreamModel) -> bool {
    &&& 0 < j <= own.len()
    &&& m.last_seq == j - 1
    &&& m.open_packet == page::ends_open(own[j - 1].lacing)
    &&& m.eos == (j == own.len())
    &&& !m.tainted
    &&& m.last_granule matches Some(g) ==> forall|l: int|
        j <= l < own.len() && page::packets_ended((#[trigger] own[l]).lacing) > 0 ==> g
            <= own[l].granule_position
}

/// What a walk has behind it when a link begins.
struct Past {
    /// The number of pages.
    pages: nat,
    /// The number of links.
    links: u32,
    /// The serials of the bitstreams.
    serials: Set<u32>,
}

/// A walk that knows of no violation, with every bitstream of `past` closed.
spec fn between_links(w: Walk, past: Past) -> bool {
    &&& w.report.pages == past.pages
    &&& w.report.links == past.links
    &&& w.report.junk_bytes == 0
    &&& w.report.clean()
    &&& w.all_closed()
    &&& forall|k: u32| #[trigger]
        past.serials.contains(k) <==> w.finished.contains(k) || w.live.contains_key(k)
    &&& w.link_has_data == (past.pages > 0)
    &&& past.pages == 0 ==> past.links == 0 && w.live == Map::<u32, StreamModel>::empty()
        && w.finished == Set::<u32>::empty()
}

/// What a walk knows behind the first `i` pages of a link.
spec fn followed(pages: Seq<PageView>, heads: int, i: int, w: Walk, past: Past) -> bool {
    &&& i > 0
    &&& w.report.pages == past.pages + i
    &&& w.report.links == past.links + 1
    &&& w.report.junk_bytes == 0
    &&& w.report.clean()
    &&& w.finished =~= past.serials
    &&& w.link_has_data == (i > heads)
    &&& forall|k: u32| #[trigger]
        w.live.contains_key(k) <==> mux_laws::of_serial(pages.take(i), k).len() > 0
    &&& forall|k: u32| #[trigger]
        w.live.contains_key(k) ==> modelled(
            mux_laws::of_serial(pages, k),
            mux_laws::of_serial(pages.take(i), k).len() as int,
            w.live[k],
        )
}

/// None of the bitstreams of the link has come before.
spec fn unheard(pages: Seq<PageView>, past: Past) -> bool {
    forall|i: int|
        0 <= i < pages.len() ==> !past.serials.contains((#[trigger] pages[i]).serial)
}

/// The pages of a bitstream among the first `i` pages are its first pages.
pub proof fn lemma_prefix(pages: Seq<PageView>, i: int, k: u32)
    requires
        0 <= i <= pages.len(),
    ensures
        ({
            let some = mux_laws::of_serial(pages.take(i), k);
            let all = mux_laws::of_serial(pages, k);
            &&& some.len() <= all.len()
            &&& all.take(some.len() as int) == some
        }),
    decreases pages.len(),
{
    let all = mux_laws::of_serial(pages, k);
    if i == pages.len() {
        assert(pages.take(i) =~= pages);
        assert(all.take(all.len() as int) =~= all);
    } else {
        let front = pages.drop_last();
        lemma_prefix(front, i, k);
        assert(front.take(i) =~= pages.take(i));
        let some = mux_laws::of_serial(pages.take(i), k);
        let most = mux_laws::of_serial(front, k);
        assert(all.take(some.len() as int) =~= most.take(some.len() as int));
    }
}

/// Page `i` is the page of its bitstream that its rank says.
pub proof fn lemma_ranked(pages: Seq<PageView>, i: int)
    requires
        0 <= i < pages.len(),
    ensures
        ({
            let k = pages[i].serial;
            let own = mux_laws::of_serial(pages, k);
            &&& rank(pages, i) < own.len()
            &&& own[rank(pages, i) as int] == pages[i]
            &&& forall|l: u32|
                #[trigger] mux_laws::of_serial(pages.take(i + 1), l) == (if l == k {
                    mux_laws::of_serial(pages.take(i), l).push(pages[i])
                } else {
                    mux_laws::of_serial(pages.take(i), l)
                })
        }),
{
    let k = pages[i].serial;
    let some = pages.take(i + 1);
    assert(some.drop_last() =~= pages.take(i));
    assert(some.last() == pages[i]);
    lemma_prefix(pages, i + 1, k);
    let own = mux_laws::of_serial(pages, k);
    let part = mux_laws::of_serial(some, k);
    assert(part[rank(pages, i) as int] == pages[i]);
    assert(own.take(part.len() as int)[rank(pages, i) as int] == own[rank(pages, i) as int]);
}

proof fn lemma_first_followed(
    pages: Seq<PageView>,
    heads: int,
    w: Walk,
    head: HeadView,
    past: Past,
)
    requires
        grouped(pages, heads),
        unheard(pages, past),
        between_links(w, past),
        past.links < u32::MAX,
        head.flags == pages[0].flags,
        head.granule == pages[0].granule_position,
        head.serial == pages[0].serial,
        head.seq_no == pages[0].seq_no,
        head.lacing == pages[0].lacing,
    ensures
        followed(pages, heads, 1, w.after_page(head), past),
{
    let p = pages[0];
    let k = p.serial;
    let own = mux_laws::of_serial(pages, k);
    lemma_ranked(pages, 0);
    assert(rank(pages, 0) == 0 <==> 0 < heads);
    assert(validate_laws::one_stream(k, own));
    assert(framing_laws::well_placed(k, own, 0, true));
    framing::law_page_flags(false, true, 0 == own.len() - 1);
    assert(!past.serials.contains(k));
    let v = w.after_page(head);
    let none = Seq::<IssueView>::empty();
    assert(none + none =~= none);
    if own.len() == 1 {
        assert(!page::ends_open(own.last().lacing));
    }
    assert(validate::tail_issues(w.report.pages, head, None) =~= none) by {
        if page::packets_ended(p.lacing) > 0 {
            assert(page::packets_ended(own[0].lacing) > 0);
        }
    }
    assert(w.bos_issues(head) =~= none);
    assert(w.report.issues =~= none);
    assert(v.report.issues =~= none);
    assert(v.live =~= Map::<u32, StreamModel>::empty().insert(k, w.stream_after(head)));
    assert(v.finished =~= past.serials);
    let m = v.live[k];
    assert(modelled(own, 1, m)) by {
        if m.last_granule is Some {
            assert forall|l: int|
                1 <= l < own.len() && page::packets_ended(
                    (#[trigger] own[l]).lacing,
                ) > 0 implies m.last_granule->Some_0 <= own[l].granule_position by {
                assert(page::packets_ended(own[0].lacing) > 0);
            }
        }
    }
    assert(pages.take(0) =~= Seq::empty());
    assert forall|l: u32|
        #[trigger] mux_laws::of_serial(pages.take(1), l).len() == (if l == k {
            1nat
        } else {
            0nat
        }) by {
        assert(mux_laws::of_serial(pages.take(0), l) =~= Seq::empty());
        assert(mux_laws::of_serial(pages.take(1), l) == if l == k {
            mux_laws::of_serial(pages.take(0), l).push(pages[0])
        } else {
            mux_laws::of_serial(pages.take(0), l)
        });
    }
}

proof fn lemma_page_followed(
    pages: Seq<PageView>,
    heads: int,
    i: int,
    w: Walk,
    head: HeadView,
    past: Past,
)
    requires
        grouped(pages, heads),
        unheard(pages, past),
        0 < i < pages.len(),
        followed(pages, heads, i, w, past),
        head.flags == pages[i].flags,
        head.granule == pages[i].granule_position,
        head.serial == pages[i].serial,
        head.seq_no == pages[i].seq_no,
        head.lacing == pages[i].lacing,
    ensures
        followed(pages, heads, i + 1, w.after_page(head), past),
{
    let p = pages[i];
    let k = p.serial;
    let own = mux_laws::of_serial(pages, k);
    let j = rank(pages, i) as int;
    lemma_ranked(pages, i);
    assert(validate_laws::one_stream(k, own));
    assert(framing_laws::well_placed(k, own, j, true));
    let continued = j > 0 && page::ends_open(own[j - 1].lacing);
    framing::law_page_flags(continued, j == 0, j == own.len() - 1);
    assert(p.seq_no == j);
    assert(!past.serials.contains(k));
    assert(rank(pages, i) == 0 <==> i < heads);
    let v = w.after_page(head);
    let none = Seq::<IssueView>::empty();
    assert(none + none =~= none);
    assert(w.live.contains_key(k) <==> j > 0);
    let previous = if j == 0 {
        None
    } else {
        w.live[k].last_granule
    };
    if j == own.len() - 1 {
        assert(!page::ends_open(own.last().lacing));
    }
    assert(validate::tail_issues(w.report.pages, head, previous) =~= none) by {
        if previous is Some && page::packets_ended(p.lacing) > 0 {
            assert(page::packets_ended(own[j].lacing) > 0);
            assert(modelled(own, j, w.live[k]));
        }
    }
    if j == 0 {
        assert(w.bos_issues(head) =~= none);
    } else {
        assert(modelled(own, j, w.live[k]));
        assert(validate::seq_distance((j - 1) as u32, j as u32) == 1);
        assert(w.data_issues(head) =~= none);
    }
    assert(w.page_issues(head) =~= none);
    assert(w.report.issues =~= none);
    assert(v.report.issues =~= none);
    assert(v.live == w.live.insert(k, w.stream_after(head)));
    let m = v.live[k];
    assert(modelled(own, j + 1, m)) by {
        if m.last_granule is Some {
            assert forall|l: int|
                j + 1 <= l < own.len() && page::packets_ended(
                    (#[trigger] own[l]).lacing,
                ) > 0 implies m.last_granule->Some_0 <= own[l].granule_position by {
                if page::packets_ended(p.lacing) > 0 && p.granule_position != -1 {
                    assert(page::packets_ended(own[j].lacing) > 0);
                }
            }
        }
    }
    assert forall|l: u32| #[trigger] v.live.contains_key(l) implies modelled(
        mux_laws::of_serial(pages, l),
        mux_laws::of_serial(pages.take(i + 1), l).len() as int,
        v.live[l],
    ) by {
        if l != k {
            assert(w.live.contains_key(l));
            assert(mux_laws::of_serial(pages.take(i + 1), l) == mux_laws::of_serial(
                pages.take(i),
                l,
            ));
        } else {
            assert(mux_laws::of_serial(pages.take(i + 1), k).len() == j + 1);
        }
    }
    assert forall|l: u32| #[trigger] v.live.contains_key(l) <==> mux_laws::of_serial(
        pages.take(i + 1),
        l,
    ).len() > 0 by {
        assert(w.live.contains_key(l) <==> mux_laws::of_serial(pages.take(i), l).len() > 0);
    }
}

/// The walk goes through the link `pages`, which stands behind the first `base`
/// pages of `all`.
proof fn lemma_walk_followed(
    all: Seq<PageView>,
    base: int,
    pages: Seq<PageView>,
    heads: int,
    i: int,
    w: Walk,
    past: Past,
) -> (v: Walk)
    requires
        forall|l: int| 0 <= l < all.len() ==> (#[trigger] all[l]).wf(),
        0 <= base,
        base + pages.len() <= all.len(),
        pages == all.subrange(base, base + pages.len()),
        grouped(pages, heads),
        unheard(pages, past),
        past.links < u32::MAX,
        0 <= i <= pages.len(),
        if i == 0 {
            between_links(w, past)
        } else {
            followed(pages, heads, i, w, past)
        },
    ensures
        followed(pages, heads, pages.len() as int, v, past),
        validate::walked(
            framing::bytes_of(all),
            framing::bytes_of(all.take(base + i)).len(),
            w,
        ) == validate::walked(
            framing::bytes_of(all),
            framing::bytes_of(all.take(base + pages.len())).len(),
            v,
        ),
    decreases pages.len() - i,
{
    let data = framing::bytes_of(all);
    let pos = framing::bytes_of(all.take(base + i)).len();
    if i == pages.len() {
        w
    } else {
        let p = all[base + i];
        assert(p == pages[i]);
        validate_laws::lemma_bytes_split(all, base + i);
        let tail = data.skip(pos as int).skip(p.encoded().len() as int);
        assert(data.skip(pos as int) =~= p.encoded() + tail);
        page::law_parse_encoded(p, tail);
        validate::law_located_is_parsed(data, pos);
        let head = validate::located(data, pos)->Page_head;
        if i == 0 {
            lemma_first_followed(pages, heads, w, head, past);
        } else {
            lemma_page_followed(pages, heads, i, w, head, past);
        }
        assert(all.take(base + i + 1).drop_last() =~= all.take(base + i));
        assert(validate::step(data, pos, w) == (w.after_page(head), pos + p.encoded_len())) by {
            reveal(validate::step);
        }
        lemma_walk_followed(all, base, pages, heads, i + 1, w.after_page(head), past)
    }
}

/// The pages of links, one behind the other.
pub open spec fn linked(groups: Seq<Seq<PageView>>) -> Seq<PageView>
    decreases groups.len(),
{
    if groups.len() == 0 {
        Seq::empty()
    } else {
        linked(groups.drop_last()) + groups.last()
    }
}

/// No two pages of different links have one serial.
pub open spec fn own_serials(groups: Seq<Seq<PageView>>) -> bool {
    forall|a: int, b: int, i: int, j: int|
        0 <= a < b < groups.len() && 0 <= i < groups[a].len() && 0 <= j < groups[b].len()
            ==> (#[trigger] groups[a][i]).serial != (#[trigger] groups[b][j]).serial
}

/// Every link is one of closed bitstreams that begin together and hold more than
/// their first pages.
pub open spec fn sound_links(groups: Seq<Seq<PageView>>, heads: Seq<int>) -> bool {
    &&& heads.len() == groups.len()
    &&& forall|j: int|
        0 <= j < groups.len() ==> #[trigger] grouped(groups[j], heads[j]) && groups[j].len()
            > heads[j]
    &&& own_serials(groups)
}

/// What the first `n` links leave behind.
spec fn past_of(groups: Seq<Seq<PageView>>, n: int) -> Past {
    Past {
        pages: linked(groups.take(n)).len(),
        links: n as u32,
        serials: Set::new(
            |k: u32|
                exists|a: int, i: int|
                    0 <= a < n && 0 <= i < groups[a].len() && (#[trigger] groups[a][i]).serial
                        == k,
        ),
    }
}

/// The links up to `n` are a beginning of all of them.
proof fn lemma_linked_take(groups: Seq<Seq<PageView>>, n: int)
    requires
        0 <= n < groups.len(),
    ensures
        ({
            let all = linked(groups);
            let base = linked(groups.take(n)).len() as int;
            &&& base + groups[n].len() <= all.len()
            &&& all.subrange(base, base + groups[n].len()) == groups[n]
            &&& all.take(base) == linked(groups.take(n))
            &&& all.take((base + groups[n].len()) as int) == linked(groups.take(n + 1))
            &&& linked(groups.take(n + 1)).len() == base + groups[n].len()
        }),
    decreases groups.len(),
{
    let front = groups.drop_last();
    let all = linked(groups);
    assert(groups.take(n + 1).drop_last() =~= groups.take(n));
    let base = linked(groups.take(n)).len() as int;
    if n == groups.len() - 1 {
        assert(groups.take(n) =~= front);
        assert(groups.take(n + 1) =~= groups);
        assert(all.subrange(base, base + groups[n].len()) =~= groups[n]);
        assert(all.take(base) =~= linked(front));
        assert(all.take((base + groups[n].len()) as int) =~= all);
    } else {
        lemma_linked_take(front, n);
        let most = linked(front);
        assert(front.take(n) =~= groups.take(n));
        assert(front.take(n + 1) =~= groups.take(n + 1));
        assert(all.subrange(base, base + groups[n].len()) =~= most.subrange(
            base,
            base + groups[n].len(),
        ));
        assert(all.take(base) =~= most.take(base));
        assert(all.take((base + groups[n].len()) as int) =~= most.take(
            (base + groups[n].len()) as int,
        ));
    }
}

proof fn lemma_group_wf(pages: Seq<PageView>, heads: int)
    requires
        grouped(pages, heads),
    ensures
        forall|l: int| 0 <= l < pages.len() ==> (#[trigger] pages[l]).wf(),
{
    assert forall|l: int| 0 <= l < pages.len() implies (#[trigger] pages[l]).wf() by {
        lemma_ranked(pages, l);
        let own = mux_laws::of_serial(pages, pages[l].serial);
        assert(validate_laws::one_stream(pages[l].serial, own));
        assert(framing_laws::well_placed(pages[l].serial, own, rank(pages, l) as int, true));
    }
}

proof fn lemma_links_wf(groups: Seq<Seq<PageView>>, heads: Seq<int>)
    requires
        heads.len() == groups.len(),
        forall|j: int| 0 <= j < groups.len() ==> #[trigger] grouped(groups[j], heads[j]),
    ensures
        forall|l: int| 0 <= l < linked(groups).len() ==> (#[trigger] linked(groups)[l]).wf(),
    decreases groups.len(),
{
    if groups.len() > 0 {
        let front = groups.drop_last();
        let fewer = heads.drop_last();
        let n = groups.len() - 1;
        assert forall|j: int| 0 <= j < front.len() implies #[trigger] grouped(
            front[j],
            fewer[j],
        ) by {
            assert(grouped(groups[j], heads[j]));
        }
        lemma_links_wf(front, fewer);
        assert(grouped(groups[n], heads[n]));
        lemma_group_wf(groups[n], heads[n]);
        let all = linked(groups);
        assert forall|l: int| 0 <= l < all.len() implies (#[trigger] all[l]).wf() by {
            if l < linked(front).len() {
                assert(linked(front)[l].wf());
            } else {
                assert(all[l] == groups[n][l - linked(front).len()]);
            }
        }
    }
}

/// A link that has been gone through is a link that lies behind.
proof fn lemma_link_over(groups: Seq<Seq<PageView>>, heads: Seq<int>, n: int, w: Walk)
    requires
        sound_links(groups, heads),
        0 <= n < groups.len() <= u32::MAX,
        followed(groups[n], heads[n], groups[n].len() as int, w, past_of(groups, n)),
    ensures
        between_links(w, past_of(groups, n + 1)),
{
    let pages = groups[n];
    let past = past_of(groups, n + 1);
    assert(grouped(groups[n], heads[n]));
    assert(pages.take(pages.len() as int) =~= pages);
    lemma_linked_take(groups, n);
    assert forall|k: u32| #[trigger] w.live.contains_key(k) implies w.live[k].eos by {
        assert(modelled(
            mux_laws::of_serial(pages, k),
            mux_laws::of_serial(pages, k).len() as int,
            w.live[k],
        ));
    }
    assert forall|k: u32| #[trigger] past.serials.contains(k) <==> w.finished.contains(k)
        || w.live.contains_key(k) by {
        if past.serials.contains(k) {
            let (a, i) = choose|a: int, i: int|
                0 <= a < n + 1 && 0 <= i < groups[a].len() && (#[trigger] groups[a][i]).serial
                    == k;
            if a == n {
                lemma_some_of_serial(pages, i);
                assert(w.live.contains_key(k));
            } else {
                assert(past_of(groups, n).serials.contains(k));
            }
        }
        if w.live.contains_key(k) {
            assert(mux_laws::of_serial(pages, k).len() > 0);
            lemma_found_of_serial(pages, k);
            let i = choose|i: int| 0 <= i < pages.len() && (#[trigger] pages[i]).serial == k;
            assert(groups[n][i].serial == k);
        }
        if w.finished.contains(k) {
            assert(past_of(groups, n).serials.contains(k));
            let (a, i) = choose|a: int, i: int|
                0 <= a < n && 0 <= i < groups[a].len() && (#[trigger] groups[a][i]).serial == k;
            assert(groups[a][i].serial == k);
        }
    }
}

/// A page is among the pages of its bitstream.
proof fn lemma_some_of_serial(pages: Seq<PageView>, i: int)
    requires
        0 <= i < pages.len(),
    ensures
        mux_laws::of_serial(pages, pages[i].serial).len() > 0,
{
    lemma_ranked(pages, i);
}

/// Pages of a bitstream are among all pages.
pub proof fn lemma_found_of_serial(pages: Seq<PageView>, serial: u32)
    ensures
        mux_laws::of_serial(pages, serial).len() > 0 ==> exists|i: int|
            0 <= i < pages.len() && (#[trigger] pages[i]).serial == serial,
    decreases pages.len(),
{
    if pages.len() > 0 {
        let front = pages.drop_last();
        lemma_found_of_serial(front, serial);
        if pages.last().serial == serial {
            assert(pages[pages.len() - 1].serial == serial);
        } else if mux_laws::of_serial(front, serial).len() > 0 {
            let i = choose|i: int| 0 <= i < front.len() && (#[trigger] front[i]).serial == serial;
            assert(pages[i].serial == serial);
        }
    }
}

/// The walk goes through the first `n` links.
proof fn lemma_links_walked(groups: Seq<Seq<PageView>>, heads: Seq<int>, n: int) -> (w: Walk)
    requires
        sound_links(groups, heads),
        0 <= n <= groups.len() <= u32::MAX,
    ensures
        between_links(w, past_of(groups, n)),
        validate::walked(framing::bytes_of(linked(groups)), 0, Walk::start())
            == validate::walked(
            framing::bytes_of(linked(groups)),
            framing::bytes_of(linked(groups.take(n))).len(),
            w,
        ),
    decreases n,
{
    let all = linked(groups);
    if n == 0 {
        assert(groups.take(0) =~= Seq::empty());
        assert(linked(groups.take(0)) =~= Seq::empty());
        assert(framing::bytes_of(linked(groups.take(0))).len() == 0);
        Walk::start()
    } else {
        let w = lemma_links_walked(groups, heads, n - 1);
        let pages = groups[n - 1];
        let past = past_of(groups, n - 1);
        lemma_linked_take(groups, n - 1);
        let base = linked(groups.take(n - 1)).len() as int;
        assert forall|j: int| 0 <= j < groups.len() implies #[trigger] grouped(
            groups[j],
            heads[j],
        ) by {}
        lemma_links_wf(groups, heads);
        assert(grouped(groups[n - 1], heads[n - 1]));
        assert(unheard(pages, past)) by {
            assert forall|j: int| 0 <= j < pages.len() implies !past.serials.contains(
                (#[trigger] pages[j]).serial,
            ) by {
                if past.serials.contains(pages[j].serial) {
                    let (a, i) = choose|a: int, i: int|
                        0 <= a < n - 1 && 0 <= i < groups[a].len() && (
                        #[trigger] groups[a][i]).serial == pages[j].serial;
                    assert(groups[a][i].serial != groups[n - 1][j].serial);
                }
            }
        }
        let v = lemma_walk_followed(all, base, pages, heads[n - 1], 0, w, past);
        lemma_link_over(groups, heads, n - 1, v);
        v
    }
}

/// Links of closed bitstreams that begin together, each bitstream with a serial
/// of its own and with granule positions that are not negative and never fall,
/// violate no rule, in whatever order the other pages of a link stand.
pub proof fn law_links_clean(groups: Seq<Seq<PageView>>, heads: Seq<int>)
    requires
        sound_links(groups, heads),
        0 < groups.len() <= u32::MAX,
    ensures
        ({
            let report = validate::validated(framing::bytes_of(linked(groups)));
            &&& report.clean()
            &&& report.pages == linked(groups).len()
            &&& report.links == groups.len()
            &&& report.junk_bytes == 0
        }),
{
    let all = linked(groups);
    let data = framing::bytes_of(all);
    let w = lemma_links_walked(groups, heads, groups.len() as int);
    assert(groups.take(groups.len() as int) =~= groups);
    assert(validate::walked(data, data.len(), w) == w);
    lemma_clean_end(data, w);
    assert(grouped(groups[0], heads[0]));
    lemma_linked_take(groups, 0);
    lemma_links_wf(groups, heads);
    validate_laws::lemma_bytes_split(all, 0);
    page::law_parse_encoded(all[0], Seq::empty());
}

/// A walk that ends with every bitstream closed has nothing to add.
pub proof fn lemma_clean_end(data: Seq<u8>, w: Walk)
    requires
        validate::walked(data, 0, Walk::start()) == w,
        w.report.clean(),
        w.all_closed(),
    ensures
        data.len() > 0 ==> validate::validated(data) == w.report,
{
    assert forall|k: u32| !validate::open_serials(w).contains(k) by {}
    assert(validate::open_serials(w) =~= Set::<u32>::empty());
    let none = Seq::<u32>::empty();
    assert(none.to_set() =~= Set::<u32>::empty());
    validate::lemma_in_order(none);
    assert(w.report.issues + Seq::<IssueView>::empty() =~= w.report.issues);
    assert(none.map_values(|s: u32| validate::missing_eos(data.len(), s)) =~= Seq::empty());
}

/// Closed bitstreams that begin together, whose granule positions are not
/// negative and never fall, violate no rule, in whatever order their other
/// pages stand.
pub proof fn law_group_clean(pages: Seq<PageView>, heads: int)
    requires
        grouped(pages, heads),
    ensures
        ({
            let report = validate::validated(framing::bytes_of(pages));
            &&& report.clean()
            &&& report.pages == pages.len()
            &&& report.links == 1
            &&& report.junk_bytes == 0
        }),
{
    let data = framing::bytes_of(pages);
    let past = Past { pages: 0, links: 0, serials: Set::empty() };
    lemma_group_wf(pages, heads);
    assert(pages.take(0) =~= Seq::empty());
    assert(framing::bytes_of(pages.take(0)).len() == 0);
    assert(pages.subrange(0, pages.len() as int) =~= pages);
    let w = lemma_walk_followed(pages, 0, pages, heads, 0, Walk::start(), past);
    assert(pages.take(pages.len() as int) =~= pages);
    assert(validate::walked(data, data.len(), w) == w);
    validate_laws::lemma_bytes_split(pages, 0);
    page::law_parse_encoded(pages[0], Seq::empty());
    assert forall|k: u32| #[trigger] w.live.contains_key(k) implies w.live[k].eos by {
        assert(modelled(
            mux_laws::of_serial(pages, k),
            mux_laws::of_serial(pages, k).len() as int,
            w.live[k],
        ));
    }
    lemma_clean_end(data, w);
}

} // verus!
