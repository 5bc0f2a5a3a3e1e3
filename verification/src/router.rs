//! The dual-connection router: routing modes, the deduplicating mode
//! ticker, and the dispatcher state machine with its park buffers.
//!
//! Two upstream connections, A and B, are valid in complementary daily
//! windows split at two cutoff times.  Around each cutoff both run for a
//! short overlap; the inactive one's events are parked per symbol and
//! flushed, in arrival order, when the hand-off completes.  Times of day
//! are plain seconds since midnight (`0 .. 86400`); the caller converts
//! whatever clock type it uses into that representation.

use vstd::prelude::*;

use crate::depth::DepthUpdate;
use crate::streaming::TimedStream;
use crate::text;

verus! {

/// Seconds in one day; times of day are values below this bound.
pub const SECS_PER_DAY: u32 = 86400;

/// How long before a cutoff the replacement connection is pre-opened.
pub const OVERLAP_SECS: u32 = 3;

/// Which upstream connections the dispatcher listens to.
#[derive(Clone, Copy, Debug, PartialEq, Eq, Structural)]
pub enum Mode {
    OnlyA,
    BothAB,
    OnlyB,
}

/// Which upstream connection an event came from, and which one is
/// authoritative during an overlap.
#[derive(Clone, Copy, Debug, PartialEq, Eq, Structural)]
pub enum Active {
    A,
    B,
}

/// True when the time of day `t` lies in the window `[start, end)`,
/// where a window with `end < start` wraps midnight.
pub open spec fn in_window_spec(t: u32, start: u32, end: u32) -> bool {
    if start <= end {
        start <= t && t < end
    } else {
        t >= start || t < end
    }
}

/// Decides membership of `t` in the (possibly midnight-wrapping) window `[start, end)`.
pub fn in_window(t: u32, start: u32, end: u32) -> (r: bool)
    ensures
        r == in_window_spec(t, start, end),
{
    if start <= end {
        t >= start && t < end
    } else {
        t >= start || t < end
    }
}

/// `secs` seconds before the time of day `t`, wrapping midnight.
pub open spec fn sub_wrap_spec(t: u32, secs: u32) -> u32 {
    if t >= secs {
        (t - secs) as u32
    } else {
        (t + SECS_PER_DAY - secs) as u32
    }
}

/// Subtracts seconds from a time of day, wrapping midnight.
pub fn sub_secs_wrap(t: u32, secs: u32) -> (r: u32)
    requires
        t < SECS_PER_DAY,
        secs < SECS_PER_DAY,
    ensures
        r == sub_wrap_spec(t, secs),
        r < SECS_PER_DAY,
{
    if t >= secs {
        t - secs
    } else {
        t + SECS_PER_DAY - secs
    }
}

/// The routing mode at time of day `now`: both connections during the
/// overlap before either cutoff, A alone inside `[cut_a, cut_b)`, B alone
/// otherwise.
pub open spec fn mode_for(now: u32, cut_a: u32, cut_b: u32) -> Mode {
    if in_window_spec(now, sub_wrap_spec(cut_a, OVERLAP_SECS), cut_a) || in_window_spec(
        now,
        sub_wrap_spec(cut_b, OVERLAP_SECS),
        cut_b,
    ) {
        Mode::BothAB
    } else if in_window_spec(now, cut_a, cut_b) {
        Mode::OnlyA
    } else {
        Mode::OnlyB
    }
}

/// Samples the wall clock and deduplicates the modes it computes: a mode
/// is emitted only when it differs from the last one emitted.
pub struct ModeTicker {
    pub cut_a: u32,
    pub cut_b: u32,
    pub win_a_start: u32,
    pub win_b_start: u32,
    pub last_sent: Option<Mode>,
}

impl ModeTicker {
    /// The cached window starts match the cutoffs.
    pub open spec fn wf(self) -> bool {
        &&& self.cut_a < SECS_PER_DAY
        &&& self.cut_b < SECS_PER_DAY
        &&& self.win_a_start == sub_wrap_spec(self.cut_a, OVERLAP_SECS)
        &&& self.win_b_start == sub_wrap_spec(self.cut_b, OVERLAP_SECS)
    }

    /// The mode this ticker computes at time of day `now`.
    pub open spec fn mode_at(self, now: u32) -> Mode {
        mode_for(now, self.cut_a, self.cut_b)
    }

    /// A ticker for the two cutoffs.  The control channel starts out
    /// holding `OnlyA`, so that is the last mode considered sent.
    pub fn new(cut_a: u32, cut_b: u32) -> (r: ModeTicker)
        requires
            cut_a < SECS_PER_DAY,
            cut_b < SECS_PER_DAY,
        ensures
            r.wf(),
            r.cut_a == cut_a,
            r.cut_b == cut_b,
            r.last_sent == Option::Some(Mode::OnlyA),
    {
        ModeTicker {
            cut_a,
            cut_b,
            win_a_start: sub_secs_wrap(cut_a, OVERLAP_SECS),
            win_b_start: sub_secs_wrap(cut_b, OVERLAP_SECS),
            last_sent: Some(Mode::OnlyA),
        }
    }

    /// One clock sample: computes the mode at `now` and emits it exactly
    /// when it differs from the last mode emitted.
    pub fn tick(&mut self, now: u32) -> (r: Option<Mode>)
        requires
            old(self).wf(),
        ensures
            final(self).wf(),
            final(self).cut_a == old(self).cut_a,
            final(self).cut_b == old(self).cut_b,
            r == if old(self).last_sent == Option::Some(old(self).mode_at(now)) {
                Option::<Mode>::None
            } else {
                Option::Some(old(self).mode_at(now))
            },
            final(self).last_sent == Option::Some(old(self).mode_at(now)),
    {
        let in_a = in_window(now, self.win_a_start, self.cut_a);
        let in_b = in_window(now, self.win_b_start, self.cut_b);
        let new_mode = if in_a || in_b {
            Mode::BothAB
        } else if in_window(now, self.cut_a, self.cut_b) {
            Mode::OnlyA
        } else {
            Mode::OnlyB
        };
        let same = match self.last_sent {
            Some(prev) => prev == new_mode,
            None => false,
        };
        if same {
            None
        } else {
            self.last_sent = Some(new_mode);
            Some(new_mode)
        }
    }
}

/// Law: the ticker deduplicates.  After a tick, `last_sent` holds the
/// mode just computed, so a second sample that computes the same mode is
/// not emitted again: the dispatcher sees one change, not two.
pub proof fn lemma_ticker_dedup(t: ModeTicker, now1: u32, now2: u32)
    requires
        t.wf(),
        t.last_sent == Option::Some(t.mode_at(now1)),
        t.mode_at(now2) == t.mode_at(now1),
    ensures
        t.last_sent == Option::Some(t.mode_at(now2)),
{
}

/// What the dispatcher asks its surroundings to do.
#[derive(Debug)]
pub enum RouterAction {
    /// Connect upstream A.
    OpenA,
    /// Connect upstream B.
    OpenB,
    /// Drop upstream A.
    CloseA,
    /// Drop upstream B.
    CloseB,
    /// Send the event to the output queue of the symbol at this index.
    Forward(usize, DepthUpdate),
}

/// A mode hop the transition table does not list: the ticker never skips
/// a mode, so the dispatcher treats this as a programming error.
#[derive(Clone, Copy, Debug, PartialEq, Eq, Structural)]
pub struct ModeSwitchError {
    pub from: Mode,
    pub to: Mode,
}

/// Forward actions for one symbol's parked events, in arrival order.
pub open spec fn forwards_for(idx: usize, evs: Seq<DepthUpdate>) -> Seq<RouterAction> {
    evs.map_values(|ev: DepthUpdate| RouterAction::Forward(idx, ev))
}

/// Forward actions that flush every park buffer from `from` on: each
/// symbol's buffer in order, FIFO within a symbol.
pub open spec fn flush_from(parks: Seq<Vec<DepthUpdate>>, from: int) -> Seq<RouterAction>
    decreases parks.len() - from,
{
    if from < 0 || from >= parks.len() {
        Seq::empty()
    } else {
        forwards_for(from as usize, parks[from]@) + flush_from(parks, from + 1)
    }
}

/// A bounded FIFO park: on overflow the oldest entry leaves.
pub open spec fn park_push(buf: Seq<DepthUpdate>, ev: DepthUpdate, cap: usize) -> Seq<
    DepthUpdate,
> {
    if buf.len() >= cap && buf.len() > 0 {
        buf.drop_first().push(ev)
    } else {
        buf.push(ev)
    }
}

/// Index of the first symbol whose characters equal `sym`, if any.
pub open spec fn sym_index(syms: Seq<String>, sym: Seq<char>) -> Option<int>
    decreases syms.len(),
{
    if syms.len() == 0 {
        Option::None
    } else if syms[0]@ == sym {
        Option::Some(0int)
    } else {
        match sym_index(syms.drop_first(), sym) {
            Option::None => Option::None,
            Option::Some(i) => Option::Some(i + 1),
        }
    }
}

proof fn lemma_sym_index_at(syms: Seq<String>, sym: Seq<char>, k: int)
    requires
        0 <= k <= syms.len(),
        forall|j: int| 0 <= j < k ==> syms[j]@ != sym,
        k == syms.len() || syms[k]@ == sym,
    ensures
        sym_index(syms, sym) == if k == syms.len() {
            Option::<int>::None
        } else {
            Option::<int>::Some(k)
        },
    decreases k,
{
    if k == 0 {
    } else {
        assert(syms[0]@ != sym);
        assert(forall|j: int| 0 <= j < k - 1 ==> syms.drop_first()[j] == syms[j + 1]);
        assert(k - 1 == syms.drop_first().len() || syms.drop_first()[k - 1]@ == sym);
        lemma_sym_index_at(syms.drop_first(), sym, k - 1);
    }
}

/// The dispatcher's decision state: the configured symbols, one park
/// buffer per symbol, the current mode and the authoritative connection.
/// The surrounding event loop owns the sockets and queues; this type
/// decides what happens to every event and every mode change.
pub struct RouterCore {
    pub symbols: Vec<String>,
    pub park: Vec<Vec<DepthUpdate>>,
    pub park_cap: usize,
    pub mode: Mode,
    pub active: Active,
}

impl RouterCore {
    /// Every park buffer is empty.
    pub open spec fn parks_empty(self) -> bool {
        forall|i: int| 0 <= i < self.park@.len() ==> self.park@[i]@.len() == 0
    }

    /// One park buffer per symbol; outside an overlap nothing is parked
    /// and the single open connection is the active one.
    pub open spec fn wf(self) -> bool {
        &&& self.park@.len() == self.symbols@.len()
        &&& (self.mode == Mode::OnlyA ==> self.parks_empty() && self.active == Active::A)
        &&& (self.mode == Mode::OnlyB ==> self.parks_empty() && self.active == Active::B)
    }

    /// A dispatcher aligned to `mode`, with empty park buffers.
    pub fn new(symbols: Vec<String>, park_cap: usize, mode: Mode) -> (r: RouterCore)
        ensures
            r.wf(),
            r.symbols == symbols,
            r.park_cap == park_cap,
            r.mode == mode,
            r.active == if mode == Mode::OnlyB {
                Active::B
            } else {
                Active::A
            },
            r.parks_empty(),
    {
        let n = symbols.len();
        let mut park: Vec<Vec<DepthUpdate>> = Vec::new();
        let mut i: usize = 0;
        while i < n
            invariant
                0 <= i <= n,
                park@.len() == i,
                forall|j: int| 0 <= j < i ==> park@[j]@.len() == 0,
            decreases n - i,
        {
            park.push(Vec::new());
            i = i + 1;
        }
        let active = if matches!(mode, Mode::OnlyB) {
            Active::B
        } else {
            Active::A
        };
        RouterCore { symbols, park, park_cap, mode, active }
    }

    /// The connection actions that align the surroundings with the
    /// dispatcher's starting mode.
    pub fn start_actions(&self) -> (acts: Vec<RouterAction>)
        ensures
            self.mode == Mode::OnlyA ==> acts@ =~= seq![RouterAction::OpenA, RouterAction::CloseB],
            self.mode == Mode::OnlyB ==> acts@ =~= seq![RouterAction::OpenB, RouterAction::CloseA],
            self.mode == Mode::BothAB ==> acts@ =~= seq![RouterAction::OpenA, RouterAction::OpenB],
    {
        let mut acts: Vec<RouterAction> = Vec::new();
        match self.mode {
            Mode::OnlyA => {
                acts.push(RouterAction::OpenA);
                acts.push(RouterAction::CloseB);
            },
            Mode::OnlyB => {
                acts.push(RouterAction::OpenB);
                acts.push(RouterAction::CloseA);
            },
            Mode::BothAB => {
                acts.push(RouterAction::OpenA);
                acts.push(RouterAction::OpenB);
            },
        }
        acts
    }

    /// Empties every park buffer into Forward actions: symbols in index
    /// order, each buffer FIFO.
    fn flush(&mut self) -> (acts: Vec<RouterAction>)
        ensures
            acts@ == flush_from(old(self).park@, 0),
            final(self).parks_empty(),
            final(self).park@.len() == old(self).park@.len(),
            final(self).symbols == old(self).symbols,
            final(self).park_cap == old(self).park_cap,
            final(self).mode == old(self).mode,
            final(self).active == old(self).active,
    {
        let ghost park0 = self.park@;
        let mut acts: Vec<RouterAction> = Vec::new();
        let mut i: usize = 0;
        let n = self.park.len();
        while i < n
            invariant
                n == park0.len(),
                self.park@.len() == n,
                0 <= i <= n,
                forall|j: int| 0 <= j < i ==> self.park@[j]@.len() == 0,
                forall|j: int| i <= j < n ==> self.park@[j] == park0[j],
                flush_from(park0, 0) == acts@ + flush_from(park0, i as int),
                self.symbols == old(self).symbols,
                self.park_cap == old(self).park_cap,
                self.mode == old(self).mode,
                self.active == old(self).active,
            decreases n - i,
        {
            let ghost p1 = self.park@;
            let mut buf = self.park.remove(i);
            self.park.insert(i, Vec::new());
            proof {
                assert(self.park@ =~= p1.update(i as int, self.park@[i as int]));
                assert(self.park@[i as int]@.len() == 0);
            }
            let ghost orig = buf@;
            let ghost base = acts@;
            while buf.len() > 0
                invariant
                    buf@.len() <= orig.len(),
                    buf@ =~= orig.skip(orig.len() - buf@.len()),
                    acts@ =~= base + forwards_for(
                        i,
                        orig.take(orig.len() - buf@.len()),
                    ),
                decreases buf@.len(),
            {
                let ghost c = orig.len() - buf@.len();
                let ev = buf.remove(0);
                proof {
                    assert(orig.skip(c)[0] == orig[c]);
                }
                acts.push(RouterAction::Forward(i, ev));
                proof {
                    assert(ev == orig[c]);
                    assert(buf@ =~= orig.skip(c + 1));
                    assert(orig.take(c + 1) =~= orig.take(c).push(orig[c]));
                    assert(forwards_for(i, orig.take(c + 1)) =~= forwards_for(
                        i,
                        orig.take(c),
                    ).push(RouterAction::Forward(i, orig[c])));
                }
            }
            proof {
                assert(orig.take(orig.len() as int) =~= orig);
                assert(acts@ =~= base + forwards_for(i, orig));
                assert(flush_from(park0, i as int) == forwards_for(i, orig) + flush_from(
                    park0,
                    i + 1,
                ));
                assert(acts@ + flush_from(park0, i + 1) =~= (base + forwards_for(i, orig))
                    + flush_from(park0, i + 1));
                assert(base + (forwards_for(i, orig) + flush_from(park0, i + 1)) =~= (base
                    + forwards_for(i, orig)) + flush_from(park0, i + 1));
            }
            i = i + 1;
        }
        proof {
            assert(flush_from(park0, n as int) =~= Seq::<RouterAction>::empty());
            assert(acts@ + Seq::<RouterAction>::empty() =~= acts@);
        }
        acts
    }

    /// One hop of the transition table.  A repeated mode is a no-op; the
    /// four listed hops open, close and flush as the hand-off protocol
    /// demands; any other hop is refused.  After any real transition
    /// every park buffer is empty: entering an overlap parks nothing yet,
    /// and leaving one flushes first.
    pub fn on_mode_change(&mut self, new_mode: Mode) -> (r: Result<
        Vec<RouterAction>,
        ModeSwitchError,
    >)
        requires
            old(self).wf(),
        ensures
            final(self).wf(),
            final(self).symbols == old(self).symbols,
            final(self).park_cap == old(self).park_cap,
            old(self).mode != new_mode && r is Ok ==> final(self).parks_empty(),
            old(self).mode == new_mode ==> {
                &&& r matches Result::Ok(acts) && acts@ =~= Seq::<RouterAction>::empty()
                &&& *final(self) == *old(self)
            },
            old(self).mode == Mode::OnlyA && new_mode == Mode::BothAB ==> {
                &&& r matches Result::Ok(acts) && acts@ =~= seq![RouterAction::OpenB]
                &&& final(self).mode == Mode::BothAB
                &&& final(self).active == Active::A
                &&& final(self).park == old(self).park
            },
            old(self).mode == Mode::OnlyB && new_mode == Mode::BothAB ==> {
                &&& r matches Result::Ok(acts) && acts@ =~= seq![RouterAction::OpenA]
                &&& final(self).mode == Mode::BothAB
                &&& final(self).active == Active::B
                &&& final(self).park == old(self).park
            },
            old(self).mode == Mode::BothAB && new_mode == Mode::OnlyB ==> {
                &&& r matches Result::Ok(acts) && acts@ =~= flush_from(old(self).park@, 0)
                    + seq![RouterAction::CloseA, RouterAction::OpenB]
                &&& final(self).mode == Mode::OnlyB
                &&& final(self).active == Active::B
            },
            old(self).mode == Mode::BothAB && new_mode == Mode::OnlyA ==> {
                &&& r matches Result::Ok(acts) && acts@ =~= flush_from(old(self).park@, 0)
                    + seq![RouterAction::CloseB, RouterAction::OpenA]
                &&& final(self).mode == Mode::OnlyA
                &&& final(self).active == Active::A
            },
            (old(self).mode == Mode::OnlyA && new_mode == Mode::OnlyB) || (old(self).mode
                == Mode::OnlyB && new_mode == Mode::OnlyA) ==> {
                &&& r matches Result::Err(e) && e == (ModeSwitchError {
                    from: old(self).mode,
                    to: new_mode,
                })
                &&& *final(self) == *old(self)
            },
    {
        if matches!(self.mode, Mode::OnlyA) && matches!(new_mode, Mode::OnlyA) {
            return Ok(Vec::new());
        }
        if matches!(self.mode, Mode::OnlyB) && matches!(new_mode, Mode::OnlyB) {
            return Ok(Vec::new());
        }
        if matches!(self.mode, Mode::BothAB) && matches!(new_mode, Mode::BothAB) {
            return Ok(Vec::new());
        }
        match (self.mode, new_mode) {
            (Mode::OnlyA, Mode::BothAB) => {
                let mut acts: Vec<RouterAction> = Vec::new();
                acts.push(RouterAction::OpenB);
                self.mode = Mode::BothAB;
                self.active = Active::A;
                Ok(acts)
            },
            (Mode::OnlyB, Mode::BothAB) => {
                let mut acts: Vec<RouterAction> = Vec::new();
                acts.push(RouterAction::OpenA);
                self.mode = Mode::BothAB;
                self.active = Active::B;
                Ok(acts)
            },
            (Mode::BothAB, Mode::OnlyB) => {
                let mut acts = self.flush();
                acts.push(RouterAction::CloseA);
                acts.push(RouterAction::OpenB);
                self.mode = Mode::OnlyB;
                self.active = Active::B;
                Ok(acts)
            },
            (Mode::BothAB, Mode::OnlyA) => {
                let mut acts = self.flush();
                acts.push(RouterAction::CloseB);
                acts.push(RouterAction::OpenA);
                self.mode = Mode::OnlyA;
                self.active = Active::A;
                Ok(acts)
            },
            (from, to) => Err(ModeSwitchError { from, to }),
        }
    }

    /// Finds the output index of a (normalized) symbol, first match.
    fn find_symbol(&self, sym: &String) -> (r: Option<usize>)
        ensures
            r matches Option::Some(i) ==> i < self.symbols@.len() && sym_index(
                self.symbols@,
                sym@,
            ) == Option::Some(i as int),
            r is None ==> sym_index(self.symbols@, sym@) is None,
    {
        let n = self.symbols.len();
        let mut i: usize = 0;
        while i < n
            invariant
                n == self.symbols@.len(),
                0 <= i <= n,
                forall|j: int| 0 <= j < i ==> self.symbols@[j]@ != sym@,
            decreases n - i,
        {
            if self.symbols[i] == *sym {
                proof {
                    lemma_sym_index_at(self.symbols@, sym@, i as int);
                }
                return Some(i);
            }
            i = i + 1;
        }
        proof {
            lemma_sym_index_at(self.symbols@, sym@, n as int);
        }
        None
    }

    /// Routes one event from connection `src`.  In a single-connection
    /// mode, events of that connection forward to their symbol's queue;
    /// during an overlap the active connection forwards and the other
    /// parks, dropping the oldest parked event when the buffer is full.
    /// Events for unknown symbols, and events from a connection the mode
    /// has closed, are dropped.
    pub fn on_event(&mut self, src: Active, ev: DepthUpdate) -> (r: Option<RouterAction>)
        requires
            old(self).wf(),
        ensures
            final(self).wf(),
            final(self).symbols == old(self).symbols,
            final(self).mode == old(self).mode,
            final(self).active == old(self).active,
            final(self).park_cap == old(self).park_cap,
            ({
                let up = ev.s@.map_values(|c: char| text::upper_char(c));
                let si = sym_index(old(self).symbols@, up);
                let listening = (old(self).mode == Mode::OnlyA && src == Active::A) || (old(
                    self,
                ).mode == Mode::OnlyB && src == Active::B) || (old(self).mode == Mode::BothAB
                    && src == old(self).active);
                let parking = old(self).mode == Mode::BothAB && src != old(self).active;
                &&& (listening ==> final(self).park == old(self).park && r == (match si {
                    Option::Some(i) => Option::Some(RouterAction::Forward(i as usize, ev)),
                    Option::None => Option::<RouterAction>::None,
                }))
                &&& (parking ==> r is None && (match si {
                    Option::Some(i) => {
                        &&& final(self).park@.len() == old(self).park@.len()
                        &&& final(self).park@[i]@ == park_push(
                            old(self).park@[i]@,
                            ev,
                            old(self).park_cap,
                        )
                        &&& (forall|j: int|
                            0 <= j < old(self).park@.len() && j != i ==> final(self).park@[j]
                                == old(self).park@[j])
                    },
                    Option::None => final(self).park == old(self).park,
                }))
                &&& (!listening && !parking ==> r is None && final(self).park == old(self).park)
            }),
    {
        let up = text::to_upper(ev.s.as_str());
        let found = self.find_symbol(&up);
        let idx = match found {
            None => {
                return None;
            },
            Some(idx) => idx,
        };
        let listening = match (self.mode, src) {
            (Mode::OnlyA, Active::A) => true,
            (Mode::OnlyB, Active::B) => true,
            (Mode::BothAB, _) => src == self.active,
            _ => false,
        };
        if listening {
            return Some(RouterAction::Forward(idx, ev));
        }
        if matches!(self.mode, Mode::BothAB) {
            // The inactive connection parks, dropping the oldest on overflow.
            let mut buf = self.park.remove(idx);
            let ghost buf0 = buf@;
            if buf.len() >= self.park_cap && buf.len() > 0 {
                buf.remove(0);
            }
            buf.push(ev);
            self.park.insert(idx, buf);
            proof {
                assert(self.park@[idx as int]@ == park_push(buf0, ev, self.park_cap));
                assert(forall|j: int|
                    0 <= j < old(self).park@.len() && j != idx ==> self.park@[j] == old(
                        self,
                    ).park@[j]);
            }
            return None;
        }
        None
    }
}

/// The two overlapping upstream sessions and the cutoff times that split
/// the day between them.
pub struct DualRouter {
    pub switch_cutoff: (u32, u32),
    pub currency_pairs: Vec<String>,
    pub stream_a: TimedStream,
    pub stream_b: TimedStream,
}

impl DualRouter {
    /// Pairs the two sessions: A is valid in `[cut_a, cut_b)`, B in the
    /// complementary window, both subscribing the same pairs.
    pub fn new(switch_cutoff: (u32, u32), currency_pairs: Vec<String>) -> (r: DualRouter)
        ensures
            r.switch_cutoff == switch_cutoff,
            r.currency_pairs@ == currency_pairs@,
            r.stream_a.life_span == switch_cutoff,
            r.stream_b.life_span == (switch_cutoff.1, switch_cutoff.0),
            r.stream_a.currency_pairs@ == currency_pairs@,
            r.stream_b.currency_pairs@ == currency_pairs@,
    {
        let pairs_a = currency_pairs.clone();
        let pairs_b = currency_pairs.clone();
        proof {
            assert forall|i: int| 0 <= i < currency_pairs@.len() implies pairs_a@[i]
                == currency_pairs@[i] by {
                assert(cloned::<String>(currency_pairs@[i], pairs_a@[i]));
            }
            assert forall|i: int| 0 <= i < currency_pairs@.len() implies pairs_b@[i]
                == currency_pairs@[i] by {
                assert(cloned::<String>(currency_pairs@[i], pairs_b@[i]));
            }
            assert(pairs_a@ =~= currency_pairs@);
            assert(pairs_b@ =~= currency_pairs@);
        }
        let stream_a = TimedStream { currency_pairs: pairs_a, life_span: switch_cutoff };
        let stream_b = TimedStream {
            currency_pairs: pairs_b,
            life_span: (switch_cutoff.1, switch_cutoff.0),
        };
        DualRouter { switch_cutoff, currency_pairs, stream_a, stream_b }
    }
}

} // verus!
