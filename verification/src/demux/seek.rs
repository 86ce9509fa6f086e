//! Seeking: which reads lead to the page where reading goes on.
use crate::demux::bisect::Bisect;
use crate::demux::demuxer;
use crate::demux::demuxer::{DemuxView, OggDemuxer};
use crate::demux::page_scan::{PageScan, ScanStage, ScanView, SeenPage};
use crate::demux::seek_index;
use crate::error::{Error, Fault};
use vstd::prelude::*;

verus! {

/// What a seek has come to.
#[derive(Clone, Copy, Debug, PartialEq, Eq, Structural)]
pub enum SeekStage {
    /// More of the file is needed.
    Reading,
    /// Reading goes on at the page at `offset`, whose granule position is
    /// `granule`.
    Landed { offset: u64, granule: i64 },
    /// There is no page to go to.
    Nowhere,
}

/// A seek that is under way.
#[derive(Debug)]
pub struct Seek {
    stream: u32,
    serial: u32,
    search: Bisect,
    scan: PageScan,
    stage: SeekStage,
}

/// What a [`Seek`] stands for: the stream number, its serial, the search for a
/// page, the look at one range of the file, and what came of it.
pub struct SeekView {
    pub stream: u32,
    pub serial: u32,
    pub search: Bisect,
    pub scan: ScanView,
    pub stage: SeekStage,
}

impl View for Seek {
    type V = SeekView;

    closed spec fn view(&self) -> SeekView {
        SeekView {
            stream: self.stream,
            serial: self.serial,
            search: self.search,
            scan: self.scan@,
            stage: self.stage,
        }
    }
}

/// The page that a look at a range of the file found.
pub open spec fn scan_result(s: ScanView) -> Option<(u64, i64)> {
    match s.stage {
        ScanStage::Found { offset, granule } => Some((offset, granule)),
        _ => None,
    }
}

impl SeekView {
    /// The search goes on with the next range that it asks for, and ends where
    /// it asks for none.
    pub open spec fn resumed(self) -> SeekView {
        match self.search.asked() {
            Some((start, end)) => SeekView {
                scan: ScanView::started(start, end, self.serial),
                stage: SeekStage::Reading,
                ..self
            },
            None => SeekView {
                stage: match self.search.landed {
                    Some((offset, granule)) => SeekStage::Landed { offset, granule },
                    None => SeekStage::Nowhere,
                },
                ..self
            },
        }
    }

    /// A seek that has read nothing.
    pub open spec fn started(stream: u32, serial: u32, target: i64, file_size: u64) -> SeekView {
        SeekView {
            stream,
            serial,
            search: Bisect::started(target, file_size),
            scan: ScanView::started(0, 0, serial),
            stage: SeekStage::Reading,
        }.resumed()
    }

    /// The piece of the file that the seek asks for: nothing at the start of a
    /// range that holds nothing.
    pub open spec fn asked(self) -> Option<(u64, nat)> {
        if self.stage != SeekStage::Reading {
            None
        } else {
            match self.scan.asked() {
                Some(piece) => Some(piece),
                None => Some((self.scan.cursor, 0)),
            }
        }
    }

    /// The seek after the bytes that it asked for, or as many as there are.
    pub open spec fn after(self, got: Seq<u8>) -> SeekView {
        if self.stage != SeekStage::Reading {
            self
        } else {
            let scan = self.scan.after(got);
            if scan.asked() is Some {
                SeekView { scan, ..self }
            } else {
                SeekView { scan, search: self.search.after(scan_result(scan)), ..self }.resumed()
            }
        }
    }

    /// The demuxer after these bytes: it knows the page whose header is among
    /// them, and drops what waits when the seek has landed.
    pub open spec fn taught(self, d: DemuxView, got: Seq<u8>) -> DemuxView {
        if self.stage != SeekStage::Reading {
            d
        } else {
            let m = match self.scan.noted(got) {
                Some(p) => DemuxView {
                    index: seek_index::recorded(d.index, p.serial, p.granule, p.offset),
                    ..d
                },
                None => d,
            };
            if self.after(got).stage is Landed {
                m.flushed()
            } else {
                m
            }
        }
    }
}

impl Seek {
    /// The seek is in a state that its operations lead to.
    pub closed spec fn wf(&self) -> bool {
        &&& self.search.wf()
        &&& self.scan.wf()
    }

    fn resume(&mut self)
        requires
            old(self).wf(),
        ensures
            final(self).wf(),
            final(self)@ == old(self)@.resumed(),
    {
        match self.search.request() {
            Some((start, end)) => {
                self.scan = PageScan::new(start, end, self.serial);
                self.stage = SeekStage::Reading;
            },
            None => {
                self.stage = match self.search.landed {
                    Some((offset, granule)) => SeekStage::Landed { offset, granule },
                    None => SeekStage::Nowhere,
                };
            },
        }
    }

    /// What the seek has come to.
    pub fn stage(&self) -> (r: SeekStage)
        ensures
            r == self@.stage,
    {
        self.stage
    }

    /// The piece of the file that the seek asks for: its offset and length.
    pub fn request(&self) -> (r: Option<(u64, usize)>)
        requires
            self.wf(),
        ensures
            match r {
                Some((offset, len)) => self@.asked() == Some((offset, len as nat)),
                None => self@.asked() is None,
            },
    {
        match self.stage {
            SeekStage::Reading => match self.scan.request() {
                Some(piece) => Some(piece),
                None => Some((self.scan.position(), 0)),
            },
            _ => None,
        }
    }

    /// Takes the bytes that the seek asked for, or as many as there are.
    pub fn answer(&mut self, demuxer: &mut OggDemuxer, got: &[u8])
        requires
            old(self).wf(),
            old(demuxer).wf(),
        ensures
            final(self).wf(),
            final(demuxer).wf(),
            final(self)@ == old(self)@.after(got@),
            final(demuxer)@ == old(self)@.taught(old(demuxer)@, got@),
    {
        if self.stage != SeekStage::Reading {
            return;
        }
        let noted: Option<SeenPage> = self.scan.answer(got);
        if let Some(p) = noted {
            demuxer.index_record(p.serial, p.granule, p.offset);
        }
        if self.scan.request().is_none() {
            let found: Option<(u64, i64)> = match self.scan.stage() {
                ScanStage::Found { offset, granule } => Some((offset, granule)),
                _ => None,
            };
            self.search = self.search.answer(found);
            self.resume();
            if let SeekStage::Landed { offset: _, granule: _ } = self.stage {
                demuxer.flush();
            }
        }
    }

    /// What the seek has come to, once nothing more is read: where reading goes
    /// on and which granule position stands there, or that there is no page.
    pub fn outcome(&self) -> (r: Option<Result<(u64, i64), Error>>)
        ensures
            r == match self@.stage {
                SeekStage::Reading => None,
                SeekStage::Landed { offset, granule } => Some(
                    Ok::<(u64, i64), Error>((offset, granule)),
                ),
                SeekStage::Nowhere => Some(
                    Err::<(u64, i64), Error>(
                        Error::Unsupported(Fault::SeekNoPage { index: self@.stream }),
                    ),
                ),
            },
    {
        match self.stage {
            SeekStage::Reading => None,
            SeekStage::Landed { offset, granule } => Some(Ok((offset, granule))),
            SeekStage::Nowhere => Some(
                Err(Error::Unsupported(Fault::SeekNoPage { index: self.stream })),
            ),
        }
    }
}

/// The page that the seek index knows where a seek to `target` may go.
pub open spec fn known_page(d: DemuxView, serial: u32, target: i64) -> Option<
    seek_index::SeekEntry,
> {
    seek_index::floor_in(seek_index::list_of(d.index, serial), target)
}

/// What is wrong with a seek, or the serial that it looks for.
pub open spec fn seek_begun(d: DemuxView, stream: u32, file_size: u64) -> Result<u32, Error> {
    match demuxer::seek_serial(d, stream) {
        Err(e) => Err(e),
        Ok(serial) => if file_size == 0 {
            Err(Error::Unsupported(Fault::SeekEmpty))
        } else {
            Ok(serial)
        },
    }
}

/// A seek that has read nothing. Where the seek index holds every page, it has
/// landed on the page that the index knows.
pub open spec fn seek_started(
    d: DemuxView,
    stream: u32,
    serial: u32,
    target: i64,
    file_size: u64,
) -> SeekView {
    let fresh = SeekView::started(stream, serial, target, file_size);
    match known_page(d, serial, target) {
        Some((granule, offset)) => if d.index_built {
            SeekView { stage: SeekStage::Landed { offset, granule }, ..fresh }
        } else {
            fresh
        },
        None => fresh,
    }
}

impl OggDemuxer {
    /// Begins a seek in the stream number `stream_index` to the timestamp `pts`,
    /// in a file of `file_size` bytes. Where the seek index holds every page it
    /// has landed at once; a page that the index knows makes what waits void.
    pub fn begin_seek(&mut self, stream_index: u32, pts: i64, file_size: u64) -> (r: Result<
        Seek,
        Error,
    >)
        requires
            old(self).wf(),
        ensures
            final(self).wf(),
            match seek_begun(old(self)@, stream_index, file_size) {
                Err(e) => r == Err::<Seek, Error>(e) && final(self)@ == old(self)@,
                Ok(serial) => r is Ok && r->Ok_0.wf() && ({
                    &&& final(self)@ == (if known_page(old(self)@, serial, pts) is Some {
                        old(self)@.flushed()
                    } else {
                        old(self)@
                    })
                    &&& r->Ok_0@ == seek_started(
                        old(self)@,
                        stream_index,
                        serial,
                        pts,
                        file_size,
                    )
                }),
            },
    {
        let serial: u32 = match self.seek_target(stream_index) {
            Ok(serial) => serial,
            Err(e) => return Err(e),
        };
        if file_size == 0 {
            return Err(Error::Unsupported(Fault::SeekEmpty));
        }
        let mut s = Seek {
            stream: stream_index,
            serial,
            search: Bisect::new(pts, file_size),
            scan: PageScan::new(0, 0, serial),
            stage: SeekStage::Reading,
        };
        s.resume();
        if let Some(entry) = self.index_floor(serial, pts) {
            self.flush();
            if self.index_is_built() {
                s.stage = SeekStage::Landed { offset: entry.1, granule: entry.0 };
            }
        }
        Ok(s)
    }
}

} // verus!
