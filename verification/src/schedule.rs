//! Actions that are due at given ticks of the clock: once, for a span of
//! ticks, or again and again.
//!
//! A scheduler hands out, tick by tick, the actions that are due.  Those
//! with the least start come first, and among those with one start the one
//! that was pushed first.  An action that is due again later is put back
//! with its next start.

use vstd::prelude::*;
use crate::{Clock, Span};

verus! {

/// When an action is due.
#[allow(inconsistent_fields)]
#[derive(Clone, Debug, PartialEq, Eq)]
pub enum ScheduleType {
    /// At one tick.
    Once(Clock),
    /// At each tick of a span.
    Span(Span),
    /// At the tick `next`, and then every `span` ticks after the tick at
    /// which it was handed out.
    RepeatedOnce { span: Clock, next: Clock },
    /// At each tick of the span `next`, which is `exec_span` ticks long, and
    /// then again for as long, ending `span` ticks after the tick at which
    /// the last of them was handed out.
    RepeatedSpan {
        // start to start
        span: Clock,
        next: Span,
        exec_span: Clock,
    },
}

impl ScheduleType {
    /// The first tick at which the action is due.
    pub open spec fn spec_start(self) -> Clock {
        match self {
            ScheduleType::Once(c) => c,
            ScheduleType::Span(s) => s.start,
            ScheduleType::RepeatedOnce { span: _, next: c } => c,
            ScheduleType::RepeatedSpan { span: _, next: s, exec_span: _ } => s.start,
        }
    }

    /// The first tick at which the action is due.
    pub fn start(&self) -> (c: Clock)
        ensures
            c == self.spec_start(),
    {
        match *self {
            ScheduleType::Once(c) => c,
            ScheduleType::Span(s) => s.start,
            ScheduleType::RepeatedOnce { span: _, next: c } => c,
            ScheduleType::RepeatedSpan { span: _, next: s, exec_span: _ } => s.start,
        }
    }

    /// Due at the tick `start`.
    pub fn once(start: Clock) -> (typ: ScheduleType)
        ensures
            typ == ScheduleType::Once(start),
    {
        ScheduleType::Once(start)
    }

    /// Due at the `span` ticks from `start` on.
    pub fn span(start: Clock, span: Clock) -> (typ: ScheduleType)
        requires
            1 <= start + span <= u64::MAX,
        ensures
            typ == ScheduleType::Span(Span { start, end: (start + span - 1) as u64 }),
    {
        ScheduleType::Span(Span::new(start, start + span - 1))
    }

    /// Due at `start` and then every `span` ticks.
    pub fn repeated_once(start: Clock, span: Clock) -> (typ: ScheduleType)
        ensures
            typ == (ScheduleType::RepeatedOnce { span, next: start }),
    {
        ScheduleType::RepeatedOnce { span: span, next: start }
    }

    /// Due at the `exec_span` ticks from `start` on, and then again.
    pub fn repeated_span(start: Clock, span: Clock, exec_span: Clock) -> (typ: ScheduleType)
        requires
            1 <= start + exec_span <= u64::MAX,
        ensures
            typ == (ScheduleType::RepeatedSpan {
                span,
                next: Span { start, end: (start + exec_span - 1) as u64 },
                exec_span,
            }),
    {
        let next = Span::new(start, start + exec_span - 1);
        ScheduleType::RepeatedSpan { span: span, next: next, exec_span: exec_span }
    }

    /// The next start of the action can be told at the tick `count` without
    /// leaving the range of the clock.
    pub open spec fn can_follow(self, count: Clock) -> bool {
        match self {
            ScheduleType::Once(_) => true,
            ScheduleType::Span(s) => s.end < u64::MAX && s.start <= s.end + 1,
            ScheduleType::RepeatedOnce { span, next: _ } => count + span <= u64::MAX,
            ScheduleType::RepeatedSpan { span, next, exec_span } => {
                &&& next.end < u64::MAX
                &&& next.start <= next.end + 1
                &&& next.spec_length() <= 1 ==> count + span < u64::MAX && exec_span <= count
                    + span + 1
            },
        }
    }

    /// When the action is due again after it was handed out at the tick
    /// `count`, if it is.
    pub open spec fn follow(self, count: Clock) -> Option<ScheduleType> {
        match self {
            ScheduleType::Once(_) => None,
            ScheduleType::Span(s) => if s.spec_length() <= 1 {
                None
            } else {
                Some(ScheduleType::Span(Span { start: (s.start + 1) as u64, end: s.end }))
            },
            ScheduleType::RepeatedOnce { span, next: _ } => Some(
                ScheduleType::RepeatedOnce { span, next: (count + span) as u64 },
            ),
            ScheduleType::RepeatedSpan { span, next, exec_span } => {
                let next_span = if next.spec_length() <= 1 {
                    Span {
                        start: (count + span + 1 - exec_span) as u64,
                        end: (count + span) as u64,
                    }
                } else {
                    Span { start: (next.start + 1) as u64, end: next.end }
                };
                if next_span.start > count {
                    Some(ScheduleType::RepeatedSpan { span, next: next_span, exec_span })
                } else {
                    None
                }
            },
        }
    }

    /// When the action is due again after it was handed out at the tick
    /// `count`, if it is.
    pub fn next_after(self, count: Clock) -> (next: Option<ScheduleType>)
        requires
            self.can_follow(count),
        ensures
            next == self.follow(count),
    {
        match self {
            ScheduleType::Span(mut s) => {
                if s.length() <= 1 {
                    return None;
                }
                s.start += 1;
                Some(ScheduleType::Span(s))
            },
            ScheduleType::RepeatedOnce { span: s, next: _ } => {
                Some(ScheduleType::RepeatedOnce { span: s, next: count + s })
            },
            ScheduleType::RepeatedSpan { span: s, next: mut n, exec_span: e } => {
                let next_span = if n.length() <= 1 {
                    let end = count + s;
                    let start = end + 1 - e;
                    Span::new(start, end)
                } else {
                    n.start += 1;
                    n
                };
                if next_span.start > count {
                    Some(ScheduleType::RepeatedSpan { span: s, next: next_span, exec_span: e })
                } else {
                    None
                }
            },
            _ => None,
        }
    }
}

/// An action with the ticks at which it is due.
pub ghost struct Entry<T> {
    pub action: T,
    pub typ: ScheduleType,
}

/// What one call of [`Scheduler::pop`] does.
pub ghost struct Popped<T> {
    /// The actions that are handed out, in their order.
    pub actions: Seq<T>,
    /// The entries that are not due yet.
    pub rest: Seq<Entry<T>>,
    /// The entries that are put back.
    pub nexts: Seq<Entry<T>>,
}

/// The place of the entry that is due first: of those with the least start
/// the one that was pushed first.  -1 where there is no entry.
pub open spec fn earliest<T>(entries: Seq<Entry<T>>) -> int
    decreases entries.len(),
{
    if entries.len() == 0 {
        -1
    } else {
        let e = earliest(entries.drop_last());
        if 0 <= e < entries.len() - 1 && entries[e].typ.spec_start()
            <= entries.last().typ.spec_start() {
            e
        } else {
            entries.len() - 1
        }
    }
}

/// The entry that is put back for one that was handed out at `count`: none
/// or one.
pub open spec fn put_back<T>(entry: Entry<T>, count: Clock) -> Seq<Entry<T>> {
    match entry.typ.follow(count) {
        Some(typ) => seq![Entry { action: entry.action, typ }],
        None => Seq::empty(),
    }
}

/// Handing out at the tick `count`: the entry that is due first is taken
/// again and again, until none is left or the first is due after `count`.
pub open spec fn pop_spec<T>(entries: Seq<Entry<T>>, count: Clock) -> Popped<T>
    decreases entries.len(),
{
    let i = earliest(entries);
    if i < 0 || i >= entries.len() || entries[i].typ.spec_start() > count {
        Popped { actions: Seq::empty(), rest: entries, nexts: Seq::empty() }
    } else {
        let later = pop_spec(entries.remove(i), count);
        Popped {
            actions: seq![entries[i].action] + later.actions,
            rest: later.rest,
            nexts: put_back(entries[i], count) + later.nexts,
        }
    }
}

/// The ticks before the end of the clock at which `start` lies.
pub proof fn lemma_key(start: u64)
    by (bit_vector)
    ensures
        0xffff_ffff_ffff_ffffu64 ^ start == 0xffff_ffff_ffff_ffffu64 - start,
{
}

struct Schedule<T> {
    action: T,
    typ: ScheduleType,
    /// The greater the earlier: the ticks from the start to the end of the
    /// clock.
    key: Clock,
}

impl<T> Schedule<T> {
    spec fn entry(self) -> Entry<T> {
        Entry { action: self.action, typ: self.typ }
    }

    /// The key tells the start.
    #[verifier::type_invariant]
    spec fn wf(self) -> bool {
        self.key == u64::MAX - self.typ.spec_start()
    }

    fn new(action: T, typ: ScheduleType) -> (made: Schedule<T>)
        ensures
            made.entry() == (Entry { action, typ }),
    {
        proof {
            lemma_key(typ.spec_start());
        }
        let key = u64::MAX ^ typ.start();
        Schedule { action: action, typ: typ, key: key }
    }
}

/// The actions that wait for their tick.
pub struct Scheduler<T> {
    inner: Vec<Schedule<T>>,
}

impl<T> View for Scheduler<T> {
    type V = Seq<Entry<T>>;

    closed spec fn view(&self) -> Seq<Entry<T>> {
        Seq::new(self.inner@.len(), |i: int| self.inner@[i].entry())
    }
}

impl<T> Scheduler<T> {
    /// A scheduler in which nothing waits.
    pub fn new() -> (made: Scheduler<T>)
        ensures
            made@ == Seq::<Entry<T>>::empty(),
    {
        let made = Scheduler { inner: Vec::new() };
        assert(made@ =~= Seq::<Entry<T>>::empty());
        made
    }

    /// Lets `action` wait for the ticks that `schedule` names.
    pub fn push(&mut self, schedule: ScheduleType, action: T)
        ensures
            final(self)@ == old(self)@.push(Entry { action, typ: schedule }),
    {
        let schedule = Schedule::new(action, schedule);
        self.inner.push(schedule);
        assert(self@ =~= old(self)@.push(Entry { action, typ: schedule.typ }));
    }

    /// The place of the entry that is due first.
    fn first_due(&self) -> (best: Option<usize>)
        ensures
            match best {
                Some(i) => i < self@.len() && i == earliest(self@),
                None => self@.len() == 0 && earliest(self@) == -1,
            },
    {
        if self.inner.len() == 0 {
            return None;
        }
        let mut best: usize = 0;
        let mut i: usize = 1;
        assert(self@.take(1).drop_last() =~= Seq::<Entry<T>>::empty());
        assert(earliest(self@.take(1).drop_last()) == -1);
        while i < self.inner.len()
            invariant
                1 <= i <= self.inner.len(),
                best < i,
                best == earliest(self@.take(i as int)),
            decreases self.inner.len() - i,
        {
            assert(self@.take(i + 1).drop_last() =~= self@.take(i as int));
            assert(self@.take(i + 1).last() == self@[i as int]);
            assert(self@.take(i + 1)[best as int] == self@[best as int]);
            let here = &self.inner[i];
            let so_far = &self.inner[best];
            proof {
                use_type_invariant(here);
                use_type_invariant(so_far);
            }
            if here.key > so_far.key {
                best = i;
            }
            i += 1;
        }
        assert(self@.take(self@.len() as int) =~= self@);
        Some(best)
    }
}

impl<T: Clone> Scheduler<T> {
    /// Hands out a copy of each action that is due at the tick `count`, the
    /// earliest first, and puts back those that are due again later.
    pub fn pop(&mut self, count: Clock) -> (res: Vec<T>)
        requires
            forall|i: int|
                0 <= i < old(self)@.len() && (#[trigger] old(self)@[i]).typ.spec_start() <= count
                    ==> old(self)@[i].typ.can_follow(count),
        ensures
            final(self)@ == pop_spec(old(self)@, count).rest + pop_spec(old(self)@, count).nexts,
            res@.len() == pop_spec(old(self)@, count).actions.len(),
            forall|i: int|
                0 <= i < res@.len() ==> cloned(
                    #[trigger] pop_spec(old(self)@, count).actions[i],
                    res@[i],
                ),
    {
        let least_key = u64::MAX - count;
        let mut res: Vec<T> = Vec::new();
        let mut nexts: Vec<Schedule<T>> = Vec::new();
        let ghost whole = pop_spec(self@, count);
        let ghost mut given: Seq<T> = Seq::empty();
        let ghost mut back: Seq<Entry<T>> = Seq::empty();
        loop
            invariant
                least_key == u64::MAX - count,
                forall|i: int|
                    0 <= i < self@.len() && (#[trigger] self@[i]).typ.spec_start() <= count
                        ==> self@[i].typ.can_follow(count),
                whole.actions == given + pop_spec(self@, count).actions,
                whole.rest == pop_spec(self@, count).rest,
                whole.nexts == back + pop_spec(self@, count).nexts,
                res@.len() == given.len(),
                forall|i: int| 0 <= i < res@.len() ==> cloned(#[trigger] given[i], res@[i]),
                nexts@.len() == back.len(),
                forall|i: int| 0 <= i < nexts@.len() ==> (#[trigger] nexts@[i]).entry() == back[i],
            ensures
                whole.actions == given,
                whole.rest == self@,
                whole.nexts == back,
                res@.len() == given.len(),
                forall|i: int| 0 <= i < res@.len() ==> cloned(#[trigger] given[i], res@[i]),
                nexts@.len() == back.len(),
                forall|i: int| 0 <= i < nexts@.len() ==> (#[trigger] nexts@[i]).entry() == back[i],
            decreases self.inner.len(),
        {
            let best = match self.first_due() {
                Some(best) => best,
                None => {
                    assert(whole.actions =~= given);
                    assert(whole.nexts =~= back);
                    break ;
                },
            };
            assert(self@[best as int] == self.inner@[best as int].entry());
            let first = &self.inner[best];
            proof {
                use_type_invariant(first);
            }
            if first.key < least_key {
                assert(whole.actions =~= given);
                assert(whole.nexts =~= back);
                break ;
            }
            let ghost before = self@;
            let ghost entry = before[best as int];
            let schedule = self.inner.remove(best);
            assert(self@ =~= before.remove(best as int));
            let copy = schedule.action.clone();
            res.push(copy);
            let Schedule { action, typ, key: _ } = schedule;
            match typ.next_after(count) {
                Some(typ) => {
                    let next = Schedule::new(action, typ);
                    nexts.push(next);
                },
                None => {},
            }
            proof {
                assert(back + put_back(entry, count) + pop_spec(self@, count).nexts =~= back + (
                put_back(entry, count) + pop_spec(self@, count).nexts));
                assert(given.push(entry.action) + pop_spec(self@, count).actions =~= given + (
                seq![entry.action] + pop_spec(self@, count).actions));
                given = given.push(entry.action);
                back = back + put_back(entry, count);
            }
        }
        self.inner.append(&mut nexts);
        assert(self@ =~= whole.rest + whole.nexts);
        res
    }
}

} // verus!
