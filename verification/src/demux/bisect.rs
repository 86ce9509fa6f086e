//! Looking for the last page not beyond a granule position, by halving the file.
use crate::demux::page_scan;
use vstd::prelude::*;

verus! {

/// How far each probe looks, and how small a range is looked through page by
/// page.
pub const WINDOW: u64 = 65536;

/// The most probes of the halving.
pub const MAX_PROBES: u32 = 64;

/// What a search waits for.
#[derive(Clone, Copy, Debug, PartialEq, Eq, Structural)]
pub enum BisectStage {
    /// The next page from the middle of the range on.
    Halving,
    /// The next page behind the best one, up to `end`.
    Tail { cursor: u64, end: u64 },
    /// The first page of all.
    FromStart,
    /// Nothing more.
    Done,
}

/// A search for a page to seek to.
#[derive(Clone, Copy, Debug, PartialEq, Eq)]
pub struct Bisect {
    /// The granule position that is looked for.
    pub target: i64,
    /// Length of the file.
    pub file_size: u64,
    /// The range in which the page is looked for.
    pub lo: u64,
    /// The end of that range.
    pub hi: u64,
    /// The best page so far: its offset and granule position.
    pub landed: Option<(u64, i64)>,
    /// Number of probes of the halving so far.
    pub probes: u32,
    /// What the search waits for.
    pub stage: BisectStage,
    /// The page is the first of all, whatever its granule position.
    pub from_start: bool,
}

impl Bisect {
    /// The middle of the range.
    pub open spec fn middle(self) -> u64 {
        (self.lo + (self.hi - self.lo) / 2) as u64
    }

    /// The halving is over: the pages behind the best one are looked through,
    /// or the first page of all is taken where there is none.
    pub open spec fn narrowed(self) -> Bisect {
        match self.landed {
            Some((offset, granule)) => {
                let cursor = page_scan::capped(offset + 1);
                let far = page_scan::capped(cursor + 2 * WINDOW);
                let end = if self.hi < far {
                    self.hi
                } else {
                    far
                };
                Bisect {
                    stage: if cursor < end {
                        BisectStage::Tail { cursor, end }
                    } else {
                        BisectStage::Done
                    },
                    ..self
                }
            },
            None => Bisect { stage: BisectStage::FromStart, ..self },
        }
    }

    /// The halving goes on as long as there is a range and probes are left.
    pub open spec fn halved(self) -> Bisect {
        if self.lo < self.hi && self.probes < MAX_PROBES {
            Bisect { stage: BisectStage::Halving, ..self }
        } else {
            self.narrowed()
        }
    }

    /// A search that has looked at nothing.
    pub open spec fn started(target: i64, file_size: u64) -> Bisect {
        Bisect {
            target,
            file_size,
            lo: 0,
            hi: file_size,
            landed: None,
            probes: 0,
            stage: BisectStage::Halving,
            from_start: false,
        }.halved()
    }

    /// The range in which the search asks for the next page.
    pub open spec fn asked(self) -> Option<(u64, u64)> {
        match self.stage {
            BisectStage::Halving => {
                let far = page_scan::capped(self.middle() + WINDOW);
                Some(
                    (
                        self.middle(),
                        if self.file_size < far {
                            self.file_size
                        } else {
                            far
                        },
                    ),
                )
            },
            BisectStage::Tail { cursor, end } => Some((cursor, end)),
            BisectStage::FromStart => Some((0, self.file_size)),
            BisectStage::Done => None,
        }
    }

    /// A page not beyond the target is the best so far unless its granule
    /// position lies before that of the best.
    pub open spec fn improved(self, offset: u64, granule: i64) -> Bisect {
        match self.landed {
            Some((o, g)) => if granule >= g {
                Bisect { landed: Some((offset, granule)), ..self }
            } else {
                self
            },
            None => Bisect { landed: Some((offset, granule)), ..self },
        }
    }

    /// The search after the page that it asked for, where there is one.
    pub open spec fn after(self, found: Option<(u64, i64)>) -> Bisect {
        match self.stage {
            BisectStage::Halving => {
                let s = Bisect { probes: (self.probes + 1) as u32, ..self };
                match found {
                    None => Bisect { hi: self.middle(), ..s }.halved(),
                    Some((offset, granule)) => {
                        let t = if granule <= self.target {
                            Bisect {
                                lo: page_scan::capped(offset + 1),
                                ..s.improved(offset, granule)
                            }
                        } else {
                            Bisect { hi: offset, ..s }
                        };
                        if t.hi - t.lo < WINDOW {
                            t.narrowed()
                        } else {
                            t.halved()
                        }
                    },
                }
            },
            BisectStage::Tail { cursor, end } => match found {
                None => Bisect { stage: BisectStage::Done, ..self },
                Some((offset, granule)) => if granule > self.target {
                    Bisect { stage: BisectStage::Done, ..self }
                } else {
                    let next = page_scan::capped(offset + 1);
                    Bisect {
                        stage: if next < end {
                            BisectStage::Tail { cursor: next, end }
                        } else {
                            BisectStage::Done
                        },
                        ..self.improved(offset, granule)
                    }
                },
            },
            BisectStage::FromStart => Bisect {
                landed: found,
                stage: BisectStage::Done,
                from_start: true,
                ..self
            },
            BisectStage::Done => self,
        }
    }

    /// Probes are counted, the range lies in the file while it is halved, and a
    /// page that was landed on is not beyond the target unless it is the first
    /// of all.
    pub open spec fn wf(self) -> bool {
        &&& self.probes <= MAX_PROBES
        &&& self.stage == BisectStage::Halving ==> self.lo < self.hi && self.probes < MAX_PROBES
        &&& !self.from_start ==> (self.landed matches Some((offset, granule)) ==> granule
            <= self.target)
    }

    fn narrow(self) -> (r: Bisect)
        requires
            self.probes <= MAX_PROBES,
            !self.from_start ==> (self.landed matches Some((offset, granule)) ==> granule
                <= self.target),
        ensures
            r == self.narrowed(),
            r.wf(),
    {
        match self.landed {
            Some((offset, _)) => {
                let cursor: u64 = offset.saturating_add(1);
                let far: u64 = cursor.saturating_add(2 * WINDOW);
                let end: u64 = if self.hi < far {
                    self.hi
                } else {
                    far
                };
                let stage = if cursor < end {
                    BisectStage::Tail { cursor, end }
                } else {
                    BisectStage::Done
                };
                Bisect { stage, ..self }
            },
            None => Bisect { stage: BisectStage::FromStart, ..self },
        }
    }

    fn halve(self) -> (r: Bisect)
        requires
            self.probes <= MAX_PROBES,
            !self.from_start ==> (self.landed matches Some((offset, granule)) ==> granule
                <= self.target),
        ensures
            r == self.halved(),
            r.wf(),
    {
        if self.lo < self.hi && self.probes < MAX_PROBES {
            Bisect { stage: BisectStage::Halving, ..self }
        } else {
            self.narrow()
        }
    }

    /// A search in a file.
    pub fn new(target: i64, file_size: u64) -> (r: Bisect)
        ensures
            r == Bisect::started(target, file_size),
            r.wf(),
    {
        Bisect {
            target,
            file_size,
            lo: 0,
            hi: file_size,
            landed: None,
            probes: 0,
            stage: BisectStage::Halving,
            from_start: false,
        }.halve()
    }

    fn mid(self) -> (r: u64)
        requires
            self.lo <= self.hi,
        ensures
            r == self.middle(),
    {
        self.lo + (self.hi - self.lo) / 2
    }

    /// The range in which the search asks for the next page.
    pub fn request(self) -> (r: Option<(u64, u64)>)
        requires
            self.wf(),
        ensures
            r == self.asked(),
    {
        match self.stage {
            BisectStage::Halving => {
                let mid: u64 = self.mid();
                let far: u64 = mid.saturating_add(WINDOW);
                let end: u64 = if self.file_size < far {
                    self.file_size
                } else {
                    far
                };
                Some((mid, end))
            },
            BisectStage::Tail { cursor, end } => Some((cursor, end)),
            BisectStage::FromStart => Some((0, self.file_size)),
            BisectStage::Done => None,
        }
    }

    fn improve(self, offset: u64, granule: i64) -> (r: Bisect)
        ensures
            r == self.improved(offset, granule),
    {
        match self.landed {
            Some((_, g)) => {
                if granule >= g {
                    Bisect { landed: Some((offset, granule)), ..self }
                } else {
                    self
                }
            },
            None => Bisect { landed: Some((offset, granule)), ..self },
        }
    }

    /// Takes the page that the search asked for, where there is one.
    pub fn answer(self, found: Option<(u64, i64)>) -> (r: Bisect)
        requires
            self.wf(),
        ensures
            r == self.after(found),
            r.wf(),
    {
        match self.stage {
            BisectStage::Halving => {
                let mid: u64 = self.mid();
                let s = Bisect { probes: self.probes + 1, ..self };
                match found {
                    None => Bisect { hi: mid, ..s }.halve(),
                    Some((offset, granule)) => {
                        let t = if granule <= self.target {
                            Bisect {
                                lo: offset.saturating_add(1),
                                ..s.improve(offset, granule)
                            }
                        } else {
                            Bisect { hi: offset, ..s }
                        };
                        if t.hi.saturating_sub(t.lo) < WINDOW {
                            t.narrow()
                        } else {
                            t.halve()
                        }
                    },
                }
            },
            BisectStage::Tail { cursor: _, end } => match found {
                None => Bisect { stage: BisectStage::Done, ..self },
                Some((offset, granule)) => {
                    if granule > self.target {
                        Bisect { stage: BisectStage::Done, ..self }
                    } else {
                        let next: u64 = offset.saturating_add(1);
                        let stage = if next < end {
                            BisectStage::Tail { cursor: next, end }
                        } else {
                            BisectStage::Done
                        };
                        Bisect { stage, ..self.improve(offset, granule) }
                    }
                },
            },
            BisectStage::FromStart => Bisect {
                landed: found,
                stage: BisectStage::Done,
                from_start: true,
                ..self
            },
            BisectStage::Done => self,
        }
    }
}

/// The answer lies in the range that was asked for.
pub open spec fn in_range(s: Bisect, found: Option<(u64, i64)>) -> bool {
    match (s.asked(), found) {
        (Some((start, end)), Some((offset, granule))) => start <= offset < end,
        _ => true,
    }
}

/// An upper bound of the questions that a search still asks.
pub open spec fn questions_left(s: Bisect) -> int {
    match s.stage {
        BisectStage::Halving => (MAX_PROBES - s.probes) + 2 * WINDOW + 1,
        BisectStage::Tail { cursor, end } => if cursor < end {
            end - cursor
        } else {
            0
        },
        BisectStage::FromStart => 1,
        BisectStage::Done => 0,
    }
}

/// Every answer brings a search closer to its end.
pub proof fn law_bisect_ends(s: Bisect, found: Option<(u64, i64)>)
    requires
        s.wf(),
        in_range(s, found),
        s.stage != BisectStage::Done,
        s.stage matches BisectStage::Tail { cursor, end } ==> cursor < end,
    ensures
        0 <= questions_left(s.after(found)) < questions_left(s),
{
}

/// A search never lands before a page it has landed on, and a page that it
/// landed on before the end is not beyond the target.
pub proof fn law_bisect_improves(s: Bisect, found: Option<(u64, i64)>)
    requires
        s.wf(),
        s.stage == BisectStage::FromStart ==> s.landed is None,
    ensures
        s.landed matches Some((offset, granule)) ==> s.after(found).landed matches Some((o, g)) && g
            >= granule,
        !s.after(found).from_start ==> (s.after(found).landed matches Some((o, g)) ==> g
            <= s.target),
{
}

} // verus!
