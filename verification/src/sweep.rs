//! The event sweep that tracks which metaballs influence a ray.
//!
//! Per ball, the sphere-ray intersector yields an entry and an exit
//! parameter; sorted ascending by parameter, these form the event stream.
//! Walking the stream, the set of balls whose bounding sphere contains the
//! current ray parameter — the active set — grows on an entry event and
//! shrinks on an exit event.  Balls are tracked by identity (their index
//! in the scene's collection), never by value, so two structurally equal
//! balls cannot disturb each other's membership.

use vstd::prelude::*;

verus! {

/// Whether an event is the ray entering or leaving a ball's bounding sphere.
#[derive(Clone, Copy, PartialEq, Eq, Structural)]
pub enum EventKind {
    Entry,
    Exit,
}

/// One endpoint of a ball's intersection interval along the ray.  The ball
/// is named by its index in the scene's collection; the interval endpoints
/// themselves stay with the caller, which walks the events in ascending
/// parameter order.
#[derive(Clone, Copy, PartialEq, Eq, Structural)]
pub struct Event {
    pub ball: usize,
    pub kind: EventKind,
}

/// The active sequence with every occurrence of `b` removed, order kept.
pub open spec fn remove_ball(s: Seq<usize>, b: usize) -> Seq<usize>
    decreases s.len(),
{
    if s.len() == 0 {
        Seq::empty()
    } else {
        let rest = remove_ball(s.drop_last(), b);
        if s.last() == b {
            rest
        } else {
            rest.push(s.last())
        }
    }
}

/// The active sequence after one event: an entry appends the ball,
/// an exit removes it.
pub open spec fn event_step(s: Seq<usize>, e: Event) -> Seq<usize> {
    match e.kind {
        EventKind::Entry => s.push(e.ball),
        EventKind::Exit => remove_ball(s, e.ball),
    }
}

/// The active sequence after a whole event stream, starting from `s`.
pub open spec fn sweep_run(s: Seq<usize>, events: Seq<Event>) -> Seq<usize>
    decreases events.len(),
{
    if events.len() == 0 {
        s
    } else {
        sweep_run(event_step(s, events[0]), events.drop_first())
    }
}

/// The entry at position `i` is matched by a later exit of the same ball.
pub open spec fn has_later_exit(events: Seq<Event>, i: int) -> bool {
    exists|j: int|
        i < j < events.len() && (#[trigger] events[j]).kind == EventKind::Exit
            && events[j].ball == events[i].ball
}

/// The stream holds an exit event of ball `b`.
pub open spec fn has_exit(events: Seq<Event>, b: usize) -> bool {
    exists|j: int|
        0 <= j < events.len() && (#[trigger] events[j]).kind == EventKind::Exit
            && events[j].ball == b
}

/// Membership after a removal: exactly the other balls that were there.
proof fn lemma_remove_ball_contains(s: Seq<usize>, b: usize, x: usize)
    ensures
        remove_ball(s, b).contains(x) <==> s.contains(x) && x != b,
    decreases s.len(),
{
    if s.len() > 0 {
        lemma_remove_ball_contains(s.drop_last(), b, x);
        assert(s.contains(x) <==> s.drop_last().contains(x) || s.last() == x) by {
            if s.contains(x) {
                let i = choose|i: int| 0 <= i < s.len() && s[i] == x;
                if i < s.len() - 1 {
                    assert(s.drop_last()[i] == x);
                }
            }
            if s.drop_last().contains(x) {
                let i = choose|i: int| 0 <= i < s.drop_last().len() && s.drop_last()[i] == x;
                assert(s[i] == x);
            }
        }
        let rest = remove_ball(s.drop_last(), b);
        if s.last() != b {
            assert(rest.push(s.last()).contains(x) <==> rest.contains(x) || s.last() == x) by {
                if rest.push(s.last()).contains(x) {
                    let i = choose|i: int|
                        0 <= i < rest.push(s.last()).len() && rest.push(s.last())[i] == x;
                    if i < rest.len() {
                        assert(rest[i] == x);
                    }
                }
                if rest.contains(x) {
                    let i = choose|i: int| 0 <= i < rest.len() && rest[i] == x;
                    assert(rest.push(s.last())[i] == x);
                }
                assert(rest.push(s.last())[rest.len() as int] == s.last());
            }
        }
    }
}

/// Helper for the drain law, generalized over a starting active sequence:
/// if every entry event has a later matching exit, and every ball already
/// active has some exit in the stream, the sweep ends empty.
proof fn lemma_sweep_run_drains(s: Seq<usize>, events: Seq<Event>)
    requires
        forall|i: int|
            0 <= i < events.len() && (#[trigger] events[i]).kind == EventKind::Entry
                ==> has_later_exit(events, i),
        forall|b: usize| s.contains(b) ==> has_exit(events, b),
    ensures
        sweep_run(s, events).len() == 0,
    decreases events.len(),
{
    if events.len() == 0 {
        if s.len() > 0 {
            assert(s.contains(s[0]));
        }
    } else {
        let e = events[0];
        let rest = events.drop_first();
        let s1 = event_step(s, e);
        assert(forall|i: int| 0 <= i < rest.len() ==> rest[i] == events[i + 1]);
        assert forall|i: int|
            0 <= i < rest.len() && (#[trigger] rest[i]).kind == EventKind::Entry
                implies has_later_exit(rest, i) by {
            assert(events[i + 1].kind == EventKind::Entry);
            let j = choose|j: int|
                i + 1 < j < events.len() && (#[trigger] events[j]).kind == EventKind::Exit
                    && events[j].ball == events[i + 1].ball;
            assert(rest[j - 1] == events[j]);
            assert(has_later_exit(rest, i));
        }
        assert forall|b: usize| s1.contains(b) implies has_exit(rest, b) by {
            match e.kind {
                EventKind::Entry => {
                    assert(s1 == s.push(e.ball));
                    let i = choose|i: int| 0 <= i < s1.len() && s1[i] == b;
                    if i < s.len() {
                        assert(s[i] == b);
                        assert(s.contains(b));
                        let j = choose|j: int|
                            0 <= j < events.len() && (#[trigger] events[j]).kind
                                == EventKind::Exit && events[j].ball == b;
                        assert(j >= 1);
                        assert(rest[j - 1] == events[j]);
                        assert(has_exit(rest, b));
                    } else {
                        assert(b == e.ball);
                        assert(has_later_exit(events, 0));
                        let j = choose|j: int|
                            0 < j < events.len() && (#[trigger] events[j]).kind == EventKind::Exit
                                && events[j].ball == events[0].ball;
                        assert(rest[j - 1] == events[j]);
                        assert(has_exit(rest, b));
                    }
                },
                EventKind::Exit => {
                    lemma_remove_ball_contains(s, e.ball, b);
                    assert(s.contains(b) && b != e.ball);
                    let j = choose|j: int|
                        0 <= j < events.len() && (#[trigger] events[j]).kind == EventKind::Exit
                            && events[j].ball == b;
                    assert(j >= 1);
                    assert(rest[j - 1] == events[j]);
                    assert(has_exit(rest, b));
                },
            }
        }
        lemma_sweep_run_drains(s1, rest);
    }
}

/// When every entry event is matched by a later exit of the same ball, a
/// sweep over the whole stream ends with an empty active set.
pub proof fn lemma_sweep_drains(events: Seq<Event>)
    requires
        forall|i: int|
            0 <= i < events.len() && (#[trigger] events[i]).kind == EventKind::Entry
                ==> has_later_exit(events, i),
    ensures
        sweep_run(Seq::empty(), events).len() == 0,
{
    lemma_sweep_run_drains(Seq::empty(), events);
}

/// Ball `b` has an entry event among the first `k` events.
pub open spec fn entered_by(events: Seq<Event>, k: int, b: usize) -> bool {
    exists|i: int|
        0 <= i < k && (#[trigger] events[i]).kind == EventKind::Entry && events[i].ball == b
}

/// Ball `b` has an exit event among the first `k` events.
pub open spec fn exited_by(events: Seq<Event>, k: int, b: usize) -> bool {
    exists|i: int|
        0 <= i < k && (#[trigger] events[i]).kind == EventKind::Exit && events[i].ball == b
}

/// A well-formed event stream: two events of one ball always come as an
/// entry first and an exit second, so no ball enters or leaves twice.
pub open spec fn wf_events(events: Seq<Event>) -> bool {
    forall|i: int, j: int|
        0 <= i < j < events.len() && (#[trigger] events[i]).ball == (#[trigger] events[j]).ball
            ==> events[i].kind == EventKind::Entry && events[j].kind == EventKind::Exit
}

/// Processing an event stream one event longer means one more step.
proof fn lemma_sweep_run_snoc(s: Seq<usize>, es: Seq<Event>, e: Event)
    ensures
        sweep_run(s, es.push(e)) == event_step(sweep_run(s, es), e),
    decreases es.len(),
{
    if es.len() == 0 {
        assert(es.push(e)[0] == e);
        assert(es.push(e).drop_first() =~= Seq::<Event>::empty());
        assert(sweep_run(s, es) == s);
        assert(sweep_run(event_step(s, e), Seq::<Event>::empty()) == event_step(s, e));
        assert(sweep_run(s, es.push(e)) == sweep_run(
            event_step(s, e),
            Seq::<Event>::empty(),
        ));
    } else {
        assert(es.push(e)[0] == es[0]);
        assert(es.push(e).drop_first() =~= es.drop_first().push(e));
        lemma_sweep_run_snoc(event_step(s, es[0]), es.drop_first(), e);
        assert(sweep_run(s, es.push(e)) == sweep_run(
            event_step(s, es[0]),
            es.drop_first().push(e),
        ));
        assert(sweep_run(s, es) == sweep_run(event_step(s, es[0]), es.drop_first()));
    }
}

/// The invariant of the sweep: at any point, the active set holds exactly
/// the balls whose entry event has been consumed and whose exit event has
/// not.
pub proof fn lemma_active_set_tracks_events(events: Seq<Event>, k: int, b: usize)
    requires
        wf_events(events),
        0 <= k <= events.len(),
    ensures
        sweep_run(Seq::empty(), events.take(k)).contains(b) <==> entered_by(events, k, b)
            && !exited_by(events, k, b),
    decreases k,
{
    if k == 0 {
        assert(!sweep_run(Seq::empty(), events.take(0)).contains(b));
    } else {
        lemma_active_set_tracks_events(events, k - 1, b);
        let prev = sweep_run(Seq::<usize>::empty(), events.take(k - 1));
        let e = events[k - 1];
        assert(events.take(k) =~= events.take(k - 1).push(e));
        lemma_sweep_run_snoc(Seq::empty(), events.take(k - 1), e);
        let cur = event_step(prev, e);
        match e.kind {
            EventKind::Entry => {
                assert(cur == prev.push(e.ball));
                assert forall|x: usize| cur.contains(x) implies prev.contains(x) || x
                    == e.ball by {
                    let i = choose|i: int| 0 <= i < cur.len() && cur[i] == x;
                    if i < prev.len() {
                        assert(prev[i] == x);
                    }
                }
                assert(cur.contains(e.ball)) by {
                    assert(cur[cur.len() - 1] == e.ball);
                }
                assert forall|x: usize| prev.contains(x) implies cur.contains(x) by {
                    let i = choose|i: int| 0 <= i < prev.len() && prev[i] == x;
                    assert(cur[i] == x);
                }
                if b == e.ball {
                    assert(entered_by(events, k, b));
                    assert(!exited_by(events, k, b)) by {
                        if exited_by(events, k, b) {
                            let j = choose|j: int|
                                0 <= j < k && (#[trigger] events[j]).kind == EventKind::Exit
                                    && events[j].ball == b;
                            assert(j != k - 1);
                            assert(events[j].ball == events[k - 1].ball);
                        }
                    }
                } else {
                    assert(entered_by(events, k, b) <==> entered_by(events, k - 1, b)) by {
                        if entered_by(events, k, b) {
                            let i = choose|i: int|
                                0 <= i < k && (#[trigger] events[i]).kind == EventKind::Entry
                                    && events[i].ball == b;
                            assert(i != k - 1);
                        }
                    }
                    assert(exited_by(events, k, b) <==> exited_by(events, k - 1, b)) by {
                        if exited_by(events, k, b) {
                            let j = choose|j: int|
                                0 <= j < k && (#[trigger] events[j]).kind == EventKind::Exit
                                    && events[j].ball == b;
                            assert(j != k - 1);
                        }
                    }
                }
            },
            EventKind::Exit => {
                lemma_remove_ball_contains(prev, e.ball, b);
                if b == e.ball {
                    assert(exited_by(events, k, b));
                } else {
                    assert(entered_by(events, k, b) <==> entered_by(events, k - 1, b)) by {
                        if entered_by(events, k, b) {
                            let i = choose|i: int|
                                0 <= i < k && (#[trigger] events[i]).kind == EventKind::Entry
                                    && events[i].ball == b;
                            assert(i != k - 1);
                        }
                    }
                    assert(exited_by(events, k, b) <==> exited_by(events, k - 1, b)) by {
                        if exited_by(events, k, b) {
                            let j = choose|j: int|
                                0 <= j < k && (#[trigger] events[j]).kind == EventKind::Exit
                                    && events[j].ball == b;
                            assert(j != k - 1);
                        }
                    }
                }
            },
        }
    }
}

/// The ordered set of balls whose bounding sphere contains the current ray
/// parameter.  Mutated only by consuming events in ascending order.
pub struct ActiveSet {
    balls: Vec<usize>,
}

impl View for ActiveSet {
    type V = Seq<usize>;

    closed spec fn view(&self) -> Seq<usize> {
        self.balls@
    }
}

impl ActiveSet {
    /// An empty active set, for the start of a sweep.
    pub fn new() -> (s: ActiveSet)
        ensures
            s@ == Seq::<usize>::empty(),
    {
        ActiveSet { balls: Vec::new() }
    }

    /// Consumes one event: the named ball starts or stops influencing
    /// the ray.
    pub fn process(&mut self, e: &Event)
        ensures
            final(self)@ == event_step(old(self)@, *e),
    {
        match e.kind {
            EventKind::Entry => {
                self.balls.push(e.ball);
            },
            EventKind::Exit => {
                let mut kept: Vec<usize> = Vec::new();
                let n = self.balls.len();
                let mut i: usize = 0;
                while i < n
                    invariant
                        0 <= i <= n == self.balls.len(),
                        kept@ == remove_ball(self.balls@.take(i as int), e.ball),
                    decreases n - i,
                {
                    proof {
                        assert(self.balls@.take(i + 1).drop_last() =~= self.balls@.take(i as int));
                        assert(self.balls@.take(i + 1).last() == self.balls@[i as int]);
                    }
                    let b = self.balls[i];
                    if b != e.ball {
                        kept.push(b);
                    }
                    i = i + 1;
                }
                proof {
                    assert(self.balls@.take(n as int) =~= self.balls@);
                }
                self.balls = kept;
            },
        }
    }

    /// How many balls are active.
    pub fn len(&self) -> (n: usize)
        ensures
            n == self@.len(),
    {
        self.balls.len()
    }

    /// The index (identity) of the `i`-th active ball, in insertion order.
    pub fn get(&self, i: usize) -> (b: usize)
        requires
            i < self@.len(),
        ensures
            b == self@[i as int],
    {
        self.balls[i]
    }

    /// Whether the ball with index `b` is active.
    pub fn contains(&self, b: usize) -> (present: bool)
        ensures
            present == self@.contains(b),
    {
        let n = self.balls.len();
        let mut i: usize = 0;
        while i < n
            invariant
                0 <= i <= n == self.balls.len(),
                forall|j: int| 0 <= j < i ==> self.balls@[j] != b,
            decreases n - i,
        {
            if self.balls[i] == b {
                return true;
            }
            i = i + 1;
        }
        proof {
            if self@.contains(b) {
                let j = choose|j: int| 0 <= j < self@.len() && self@[j] == b;
                assert(self.balls@[j] != b);
            }
        }
        false
    }
}

/// Runs a whole sweep over an event stream, in order, starting from an
/// empty active set.
pub fn run_sweep(events: &Vec<Event>) -> (s: ActiveSet)
    ensures
        s@ == sweep_run(Seq::empty(), events@),
{
    let mut s = ActiveSet::new();
    let n = events.len();
    proof {
        assert(events@.skip(0) =~= events@);
    }
    let mut i: usize = 0;
    while i < n
        invariant
            0 <= i <= n == events@.len(),
            sweep_run(s@, events@.skip(i as int)) == sweep_run(Seq::empty(), events@),
        decreases n - i,
    {
        proof {
            assert(events@.skip(i as int)[0] == events@[i as int]);
            assert(events@.skip(i as int).drop_first() =~= events@.skip(i + 1));
        }
        s.process(&events[i]);
        i = i + 1;
    }
    proof {
        assert(events@.skip(n as int) =~= Seq::<Event>::empty());
    }
    s
}

} // verus!
