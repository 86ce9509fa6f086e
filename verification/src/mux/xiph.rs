//! Header packets laced into one blob: a count, the sizes of all packets but
//! the last, and the packets themselves.
use crate::bytes::push_all;
use crate::framing;
use crate::page;
use crate::page::lace;
use vstd::prelude::*;

verus! {

/// Sizes one after the other, each as a run of 255s and a smaller byte.
pub open spec fn sizes_laced(packets: Seq<Seq<u8>>) -> Seq<u8>
    decreases packets.len(),
{
    if packets.len() == 0 {
        Seq::empty()
    } else {
        page::laced(packets[0].len()) + sizes_laced(packets.skip(1))
    }
}

/// Packets one after the other.
pub open spec fn joined(packets: Seq<Seq<u8>>) -> Seq<u8>
    decreases packets.len(),
{
    if packets.len() == 0 {
        Seq::empty()
    } else {
        packets[0] + joined(packets.skip(1))
    }
}

/// The blob that packets are laced into.
pub open spec fn blob_of(packets: Seq<Seq<u8>>) -> Seq<u8> {
    seq![(packets.len() - 1) as u8] + sizes_laced(packets.drop_last()) + joined(packets)
}

/// The size at the start of `buf` and the number of bytes it takes, where one
/// stands there whole.
pub open spec fn size_at(buf: Seq<u8>) -> Option<(nat, nat)>
    decreases buf.len(),
{
    if buf.len() == 0 {
        None
    } else if buf[0] < 255 {
        Some((buf[0] as nat, 1))
    } else {
        match size_at(buf.skip(1)) {
            Some((size, used)) => Some((size + 255, used + 1)),
            None => None,
        }
    }
}

/// The first `count` sizes in `buf` and the number of bytes they take.
pub open spec fn sizes_in(buf: Seq<u8>, count: nat) -> Option<(Seq<nat>, nat)>
    decreases count,
{
    if count == 0 {
        Some((Seq::empty(), 0))
    } else {
        match size_at(buf) {
            None => None,
            Some((size, used)) => match sizes_in(buf.skip(used as int), (count - 1) as nat) {
                None => None,
                Some((rest, more)) => Some((seq![size] + rest, used + more)),
            },
        }
    }
}

/// The sum of sizes.
pub open spec fn total(sizes: Seq<nat>) -> nat
    decreases sizes.len(),
{
    if sizes.len() == 0 {
        0
    } else {
        sizes[0] + total(sizes.skip(1))
    }
}

/// `body` cut into packets of the given sizes and one of all that is left.
pub open spec fn cut(body: Seq<u8>, sizes: Seq<nat>) -> Seq<Seq<u8>>
    decreases sizes.len(),
{
    if sizes.len() == 0 {
        seq![body]
    } else {
        seq![body.take(sizes[0] as int)] + cut(body.skip(sizes[0] as int), sizes.skip(1))
    }
}

/// The packets laced into a blob, where its sizes are whole and fit it.
pub open spec fn packets_in(blob: Seq<u8>) -> Option<Seq<Seq<u8>>> {
    if blob.len() == 0 {
        None
    } else {
        match sizes_in(blob.skip(1), blob[0] as nat) {
            None => None,
            Some((sizes, used)) => if 1 + used + total(sizes) > blob.len() {
                None
            } else {
                Some(cut(blob.skip(1 + used as int), sizes))
            },
        }
    }
}

/// What slices of bytes hold.
pub open spec fn slices_view(packets: Seq<&[u8]>) -> Seq<Seq<u8>> {
    packets.map_values(|p: &[u8]| p@)
}

proof fn lemma_sizes_push(packets: Seq<Seq<u8>>, p: Seq<u8>)
    ensures
        sizes_laced(packets.push(p)) == sizes_laced(packets) + page::laced(p.len()),
        joined(packets.push(p)) == joined(packets) + p,
    decreases packets.len(),
{
    let longer = packets.push(p);
    if packets.len() == 0 {
        assert(longer.skip(1) =~= Seq::<Seq<u8>>::empty());
        assert(sizes_laced(longer.skip(1)) =~= Seq::<u8>::empty());
        assert(joined(longer.skip(1)) =~= Seq::<u8>::empty());
        assert(sizes_laced(longer) =~= sizes_laced(packets) + page::laced(p.len()));
        assert(joined(longer) =~= joined(packets) + p);
    } else {
        assert(longer.skip(1) =~= packets.skip(1).push(p));
        lemma_sizes_push(packets.skip(1), p);
        assert(sizes_laced(longer) =~= sizes_laced(packets) + page::laced(p.len()));
        assert(joined(longer) =~= joined(packets) + p);
    }
}

/// Laces packets into one blob. There is none for no packets and for more than
/// 256.
pub fn xiph_lace(packets: &[&[u8]]) -> (r: Option<Vec<u8>>)
    ensures
        match r {
            Some(out) => 1 <= packets@.len() <= 256 && out@ == blob_of(slices_view(packets@)),
            None => packets@.len() == 0 || packets@.len() > 256,
        },
{
    let n: usize = packets.len();
    if n == 0 || n > 256 {
        return None;
    }
    let ghost all = slices_view(packets@);
    let mut out: Vec<u8> = Vec::new();
    out.push((n - 1) as u8);
    let ghost head = seq![(all.len() - 1) as u8];
    let mut i: usize = 0;
    assert(out@ =~= head + sizes_laced(all.take(0)));
    while i < n - 1
        invariant
            1 <= n <= 256,
            n == packets@.len(),
            all == slices_view(packets@),
            i <= n - 1,
            out@ == head + sizes_laced(all.take(i as int)),
        decreases n - i,
    {
        let sizes = lace(packets[i].len());
        push_all(&mut out, sizes.as_slice());
        proof {
            assert(all.take(i + 1) =~= all.take(i as int).push(all[i as int]));
            lemma_sizes_push(all.take(i as int), all[i as int]);
            assert(out@ =~= head + sizes_laced(all.take(i + 1)));
        }
        i += 1;
    }
    assert(all.take(n - 1) =~= all.drop_last());
    let ghost front = out@;
    let mut k: usize = 0;
    assert(out@ =~= front + joined(all.take(0)));
    while k < n
        invariant
            n == packets@.len(),
            all == slices_view(packets@),
            k <= n,
            out@ == front + joined(all.take(k as int)),
        decreases n - k,
    {
        push_all(&mut out, packets[k]);
        proof {
            assert(all.take(k + 1) =~= all.take(k as int).push(all[k as int]));
            lemma_sizes_push(all.take(k as int), all[k as int]);
            assert(out@ =~= front + joined(all.take(k + 1)));
        }
        k += 1;
    }
    assert(all.take(n as int) =~= all);
    Some(out)
}

fn read_size(buf: &[u8], from: usize) -> (r: Option<(u128, usize)>)
    requires
        from <= buf@.len(),
    ensures
        match r {
            Some((size, end)) => from < end <= buf@.len() && size_at(buf@.skip(from as int))
                == Some((size as nat, (end - from) as nat)) && size <= 255 * (end - from),
            None => size_at(buf@.skip(from as int)) is None,
        },
{
    let n: usize = buf.len();
    let mut at: usize = from;
    let mut size: u128 = 0;
    let ghost here = buf@.skip(from as int);
    while at < n && buf[at] == 255
        invariant
            n == buf@.len(),
            from <= at <= n,
            size == 255 * (at - from),
            here == buf@.skip(from as int),
            size_at(here) == (match size_at(buf@.skip(at as int)) {
                Some((more, used)) => Some(((size + more) as nat, (at - from + used) as nat)),
                None => None,
            }),
        decreases n - at,
    {
        assert(buf@.skip(at as int).skip(1) =~= buf@.skip(at + 1));
        size = size + 255;
        at += 1;
    }
    if at >= n {
        return None;
    }
    Some((size + buf[at] as u128, at + 1))
}

/// What a list of sizes stands for.
spec fn sizes_view(sizes: Seq<u128>) -> Seq<nat> {
    sizes.map_values(|v: u128| v as nat)
}

proof fn lemma_total_push(sizes: Seq<nat>, size: nat)
    ensures
        total(sizes.push(size)) == total(sizes) + size,
    decreases sizes.len(),
{
    if sizes.len() == 0 {
        assert(sizes.push(size).skip(1) =~= Seq::<nat>::empty());
        assert(total(sizes.push(size).skip(1)) == 0);
    } else {
        assert(sizes.push(size).skip(1) =~= sizes.skip(1).push(size));
        lemma_total_push(sizes.skip(1), size);
    }
}

/// Reads the sizes at the start of a blob: where the packets begin, the sizes,
/// and their sum.
fn read_sizes(buf: &[u8], count: usize) -> (r: Option<(usize, Vec<u128>, u128)>)
    requires
        1 <= buf@.len(),
        count <= 255,
    ensures
        match r {
            Some((at, sizes, sum)) => 1 <= at <= buf@.len() && sizes@.len() == count && sizes_in(
                buf@.skip(1),
                count as nat,
            ) == Some((sizes_view(sizes@), (at - 1) as nat)) && sum == total(sizes_view(sizes@)),
            None => sizes_in(buf@.skip(1), count as nat) is None,
        },
{
    let ghost body = buf@.skip(1);
    let mut at: usize = 1;
    let mut sizes: Vec<u128> = Vec::new();
    let mut sum: u128 = 0;
    let mut k: usize = 0;
    assert(sizes_view(sizes@) =~= Seq::<nat>::empty());
    proof {
        match sizes_in(body, count as nat) {
            Some((rest, more)) => {
                assert(Seq::<nat>::empty() + rest =~= rest);
            },
            None => {},
        }
    }
    while k < count
        invariant
            1 <= at <= buf@.len(),
            k <= count,
            count <= 255,
            body == buf@.skip(1),
            sizes@.len() == k,
            sum <= 255 * (at - 1),
            sum == total(sizes_view(sizes@)),
            sizes_in(body, count as nat) == (match sizes_in(
                buf@.skip(at as int),
                (count - k) as nat,
            ) {
                Some((rest, more)) => Some((sizes_view(sizes@) + rest, (at - 1 + more) as nat)),
                None => None,
            }),
        decreases count - k,
    {
        let ghost before = sizes_view(sizes@);
        match read_size(buf, at) {
            None => {
                return None;
            },
            Some((size, end)) => {
                proof {
                    assert(buf@.skip(at as int).skip(end - at) =~= buf@.skip(end as int));
                    lemma_total_push(before, size as nat);
                    match sizes_in(buf@.skip(end as int), (count - k - 1) as nat) {
                        Some((rest, more)) => {
                            assert(before + (seq![size as nat] + rest) =~= before.push(size as nat)
                                + rest);
                        },
                        None => {},
                    }
                }
                sizes.push(size);
                assert(sizes_view(sizes@) =~= before.push(size as nat));
                sum = sum + size;
                at = end;
                k += 1;
            },
        }
    }
    assert(sizes_view(sizes@) + Seq::<nat>::empty() =~= sizes_view(sizes@));
    Some((at, sizes, sum))
}

/// Takes the packets out of a blob. There are none where the blob is empty or
/// its sizes run over its end.
pub fn xiph_unlace(buf: &[u8]) -> (r: Option<Vec<Vec<u8>>>)
    ensures
        match r {
            Some(packets) => packets_in(buf@) == Some(framing::packets_view(packets@)),
            None => packets_in(buf@) is None,
        },
{
    let n: usize = buf.len();
    if n == 0 {
        return None;
    }
    let (start, sizes, sum) = match read_sizes(buf, buf[0] as usize) {
        Some(r) => r,
        None => return None,
    };
    if sum > (n - start) as u128 {
        return None;
    }
    let ghost views = sizes_view(sizes@);
    let ghost body = buf@.skip(start as int);
    let mut packets: Vec<Vec<u8>> = Vec::new();
    let mut at: usize = start;
    let mut k: usize = 0;
    proof {
        assert(views.skip(0) =~= views);
        assert(framing::packets_view(packets@) + cut(body, views) =~= cut(body, views));
    }
    while k < sizes.len()
        invariant
            n == buf@.len(),
            start <= at <= n,
            k <= sizes@.len(),
            views == sizes_view(sizes@),
            body == buf@.skip(start as int),
            at + total(views.skip(k as int)) <= n,
            cut(body, views) == framing::packets_view(packets@) + cut(
                buf@.skip(at as int),
                views.skip(k as int),
            ),
        decreases sizes@.len() - k,
    {
        let ghost before = framing::packets_view(packets@);
        assert(views.skip(k as int).skip(1) =~= views.skip(k + 1));
        assert(views.skip(k as int)[0] == sizes@[k as int]);
        let size: usize = sizes[k] as usize;
        let piece = vstd::slice::slice_subrange(buf, at, at + size);
        let packet = vstd::slice::slice_to_vec(piece);
        proof {
            let here = buf@.skip(at as int);
            assert(here.take(size as int) =~= packet@);
            assert(here.skip(size as int) =~= buf@.skip(at + size));
            let rest = cut(buf@.skip(at + size), views.skip(k + 1));
            assert(before + (seq![packet@] + rest) =~= before.push(packet@) + rest);
        }
        packets.push(packet);
        assert(framing::packets_view(packets@) =~= before.push(packet@));
        at = at + size;
        k += 1;
    }
    let ghost before = framing::packets_view(packets@);
    let last = vstd::slice::slice_to_vec(vstd::slice::slice_subrange(buf, at, n));
    assert(last@ =~= buf@.skip(at as int));
    packets.push(last);
    proof {
        assert(framing::packets_view(packets@) =~= before.push(last@));
        assert(before + seq![last@] =~= before.push(last@));
    }
    Some(packets)
}

proof fn lemma_size_laced(n: nat, tail: Seq<u8>)
    ensures
        size_at(page::laced(n) + tail) == Some((n, page::laced(n).len())),
    decreases n,
{
    let buf = page::laced(n) + tail;
    if n >= 255 {
        lemma_size_laced((n - 255) as nat, tail);
        assert(buf.skip(1) =~= page::laced((n - 255) as nat) + tail);
    }
}

/// The sizes of packets.
spec fn lengths(packets: Seq<Seq<u8>>) -> Seq<nat> {
    packets.map_values(|p: Seq<u8>| p.len())
}

proof fn lemma_sizes_laced(packets: Seq<Seq<u8>>, tail: Seq<u8>)
    ensures
        sizes_in(sizes_laced(packets) + tail, packets.len()) == Some(
            (lengths(packets), sizes_laced(packets).len()),
        ),
    decreases packets.len(),
{
    if packets.len() == 0 {
        assert(lengths(packets) =~= Seq::<nat>::empty());
    } else {
        let rest = packets.skip(1);
        let first = page::laced(packets[0].len());
        let buf = sizes_laced(packets) + tail;
        assert(buf =~= first + (sizes_laced(rest) + tail));
        lemma_size_laced(packets[0].len(), sizes_laced(rest) + tail);
        assert(buf.skip(first.len() as int) =~= sizes_laced(rest) + tail);
        lemma_sizes_laced(rest, tail);
        assert(lengths(packets) =~= seq![packets[0].len()] + lengths(rest));
    }
}

proof fn lemma_cut_joined(packets: Seq<Seq<u8>>)
    requires
        packets.len() >= 1,
    ensures
        cut(joined(packets), lengths(packets.drop_last())) == packets,
        total(lengths(packets.drop_last())) <= joined(packets).len(),
    decreases packets.len(),
{
    let sizes = lengths(packets.drop_last());
    let rest = packets.skip(1);
    if packets.len() == 1 {
        assert(joined(rest) =~= Seq::<u8>::empty());
        assert(joined(packets) =~= packets[0]);
        assert(seq![packets[0]] =~= packets);
    } else {
        lemma_cut_joined(rest);
        assert(sizes.skip(1) =~= lengths(rest.drop_last()));
        assert(joined(packets).take(packets[0].len() as int) =~= packets[0]);
        assert(joined(packets).skip(packets[0].len() as int) =~= joined(rest));
        assert(seq![packets[0]] + rest =~= packets);
    }
}

/// What was laced into a blob comes out of it.
pub proof fn law_lace_round_trip(packets: Seq<Seq<u8>>)
    requires
        1 <= packets.len() <= 256,
    ensures
        packets_in(blob_of(packets)) == Some(packets),
{
    let blob = blob_of(packets);
    let front = packets.drop_last();
    let sizes = sizes_laced(front);
    lemma_sizes_laced(front, joined(packets));
    assert(blob.skip(1) =~= sizes + joined(packets));
    assert(blob.skip(1 + sizes.len() as int) =~= joined(packets));
    lemma_cut_joined(packets);
}

proof fn lemma_cut_len(body: Seq<u8>, sizes: Seq<nat>)
    ensures
        cut(body, sizes).len() == sizes.len() + 1,
    decreases sizes.len(),
{
    if sizes.len() > 0 {
        lemma_cut_len(body.skip(sizes[0] as int), sizes.skip(1));
    }
}

proof fn lemma_sizes_len(buf: Seq<u8>, count: nat)
    ensures
        sizes_in(buf, count) matches Some((sizes, used)) ==> sizes.len() == count,
    decreases count,
{
    if count > 0 {
        if let Some((size, used)) = size_at(buf) {
            lemma_sizes_len(buf.skip(used as int), (count - 1) as nat);
        }
    }
}

/// A blob holds as many packets as its first byte says, and one more.
pub proof fn law_blob_count(blob: Seq<u8>)
    ensures
        packets_in(blob) matches Some(packets) ==> packets.len() == blob[0] + 1,
{
    if blob.len() > 0 {
        lemma_sizes_len(blob.skip(1), blob[0] as nat);
        if let Some((sizes, used)) = sizes_in(blob.skip(1), blob[0] as nat) {
            lemma_cut_len(blob.skip(1 + used as int), sizes);
        }
    }
}

/// The bytes of sizes.
spec fn sizes_written(sizes: Seq<nat>) -> Seq<u8>
    decreases sizes.len(),
{
    if sizes.len() == 0 {
        Seq::empty()
    } else {
        page::laced(sizes[0]) + sizes_written(sizes.skip(1))
    }
}

proof fn lemma_size_back(buf: Seq<u8>)
    ensures
        size_at(buf) matches Some((size, used)) ==> 0 < used <= buf.len() && buf.take(
            used as int,
        ) == page::laced(size),
    decreases buf.len(),
{
    if buf.len() > 0 {
        if buf[0] < 255 {
            assert(buf.take(1) =~= page::laced(buf[0] as nat));
        } else {
            lemma_size_back(buf.skip(1));
            if let Some((size, used)) = size_at(buf.skip(1)) {
                assert(buf.take((used + 1) as int) =~= seq![255u8] + buf.skip(1).take(used as int));
                assert((size + 255 - 255) as nat == size);
            }
        }
    }
}

proof fn lemma_sizes_back(buf: Seq<u8>, count: nat)
    ensures
        sizes_in(buf, count) matches Some((sizes, used)) ==> used <= buf.len() && sizes.len()
            == count && buf.take(used as int) == sizes_written(sizes),
    decreases count,
{
    if count == 0 {
        assert(buf.take(0) =~= Seq::<u8>::empty());
    } else {
        lemma_size_back(buf);
        if let Some((size, used)) = size_at(buf) {
            lemma_sizes_back(buf.skip(used as int), (count - 1) as nat);
            if let Some((rest, more)) = sizes_in(buf.skip(used as int), (count - 1) as nat) {
                let sizes = seq![size] + rest;
                assert(sizes.skip(1) =~= rest);
                assert(buf.take((used + more) as int) =~= buf.take(used as int) + buf.skip(
                    used as int,
                ).take(more as int));
            }
        }
    }
}

proof fn lemma_cut_back(body: Seq<u8>, sizes: Seq<nat>)
    requires
        total(sizes) <= body.len(),
    ensures
        cut(body, sizes).len() == sizes.len() + 1,
        joined(cut(body, sizes)) == body,
        sizes_laced(cut(body, sizes).drop_last()) == sizes_written(sizes),
    decreases sizes.len(),
{
    let packets = cut(body, sizes);
    if sizes.len() == 0 {
        assert(packets.skip(1) =~= Seq::<Seq<u8>>::empty());
        assert(packets.drop_last() =~= Seq::<Seq<u8>>::empty());
        assert(joined(packets.skip(1)) =~= Seq::<u8>::empty());
        assert(joined(packets) =~= body);
    } else {
        let n = sizes[0] as int;
        lemma_cut_back(body.skip(n), sizes.skip(1));
        let rest = cut(body.skip(n), sizes.skip(1));
        assert(packets.skip(1) =~= rest);
        assert(packets.drop_last().skip(1) =~= rest.drop_last());
        assert(packets.drop_last()[0] == body.take(n));
        assert(body.take(n) + body.skip(n) =~= body);
    }
}

/// A blob from which packets come out is the one that they are laced into: no byte
/// of it is passed over.
pub proof fn law_unlace_lace(blob: Seq<u8>)
    ensures
        packets_in(blob) matches Some(packets) ==> 1 <= packets.len() <= 256 && blob_of(packets)
            == blob,
{
    if blob.len() > 0 {
        lemma_sizes_back(blob.skip(1), blob[0] as nat);
        if let Some((sizes, used)) = sizes_in(blob.skip(1), blob[0] as nat) {
            if 1 + used + total(sizes) <= blob.len() {
                let body = blob.skip(1 + used as int);
                lemma_cut_back(body, sizes);
                let packets = cut(body, sizes);
                assert((packets.len() - 1) as u8 == blob[0]);
                assert(blob =~= seq![blob[0]] + blob.skip(1).take(used as int) + body);
            }
        }
    }
}

} // verus!
