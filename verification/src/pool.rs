//! Sharing out the work of the thumbnail worker.
//!
//! Files wait to settle side by side, up to a bound, and only those that need
//! work then take one of a few places in which images are decoded. The number of
//! those places bounds the memory the worker needs. Deletions decode nothing, so
//! they take no place and wait for none.

use crate::text;
use crate::util;
use crate::worker::ThumbJob;
use crate::worker::PREPASS_CONCURRENCY;
use vstd::prelude::*;

verus! {

/// Something to be started.
#[derive(Debug, Clone)]
pub enum Step {
    /// Clean up after a deletion.
    Delete(String),
    /// Wait for a file to settle. [`Pool::settled`] takes how that ended.
    Settle(String),
    /// Do the work on a file. [`Pool::finished`] is told when it is done.
    Make(String),
}

/// The content of a [`Step`].
pub enum Start {
    Delete(Seq<char>),
    Settle(Seq<char>),
    Make(Seq<char>),
}

impl View for Step {
    type V = Start;

    open spec fn view(&self) -> Start {
        match self {
            Step::Delete(rel) => Start::Delete(rel@),
            Step::Settle(rel) => Start::Settle(rel@),
            Step::Make(rel) => Start::Make(rel@),
        }
    }
}

/// The contents of a list of steps.
pub open spec fn starts(steps: Seq<Step>) -> Seq<Start> {
    steps.map_values(|s: Step| s@)
}

/// How the work is shared out.
#[verifier::ext_equal]
pub struct PoolState {
    /// How many files may be worked on at once.
    pub places: nat,
    /// How many files are waiting to settle.
    pub settling: nat,
    /// The settled files that wait for a place, the first of them next.
    pub ready: Seq<Seq<char>>,
    /// How many files are being worked on.
    pub making: nat,
    /// A file that cannot even wait to settle yet.
    pub held: Option<Seq<char>>,
}

/// The bounds are kept, no place is idle while a file waits for one, and no file
/// is held back while there is room for it.
pub open spec fn in_bounds(s: PoolState) -> bool {
    &&& s.places > 0
    &&& s.making <= s.places
    &&& s.settling + s.ready.len() <= PREPASS_CONCURRENCY
    &&& s.ready.len() > 0 ==> s.making == s.places
    &&& s.held is Some ==> s.settling + s.ready.len() == PREPASS_CONCURRENCY
}

/// The state and the steps after the file held back is let in, where there is
/// room for it.
pub open spec fn let_in(s: PoolState) -> (PoolState, Seq<Start>) {
    match s.held {
        Some(rel) => if s.settling + s.ready.len() < PREPASS_CONCURRENCY {
            (PoolState { settling: s.settling + 1, held: None, ..s }, seq![Start::Settle(rel)])
        } else {
            (s, Seq::empty())
        },
        None => (s, Seq::empty()),
    }
}

/// The state and the steps after a file was added.
pub open spec fn created(s: PoolState, rel: Seq<char>) -> (PoolState, Seq<Start>) {
    let_in(PoolState { held: Some(rel), ..s })
}

/// The state and the steps after a file settled, and needs work or not.
pub open spec fn after_settling(s: PoolState, rel: Seq<char>, go: bool) -> (PoolState, Seq<Start>) {
    let left = PoolState { settling: (s.settling - 1) as nat, ..s };
    if !go {
        let_in(left)
    } else if s.making < s.places {
        let (next, more) = let_in(PoolState { making: s.making + 1, ..left });
        (next, seq![Start::Make(rel)] + more)
    } else {
        let_in(PoolState { ready: s.ready.push(rel), ..left })
    }
}

/// The state and the steps after the work on a file was done.
pub open spec fn after_work(s: PoolState) -> (PoolState, Seq<Start>) {
    if s.ready.len() > 0 {
        let (next, more) = let_in(PoolState { ready: s.ready.drop_first(), ..s });
        (next, seq![Start::Make(s.ready.first())] + more)
    } else {
        (PoolState { making: (s.making - 1) as nat, ..s }, Seq::empty())
    }
}

/// Whether nothing is under way.
pub open spec fn is_at_rest(s: PoolState) -> bool {
    s.settling == 0 && s.ready.len() == 0 && s.making == 0 && s.held is None
}

/// Whether another job may be taken off the queue.
pub open spec fn takes_jobs(s: PoolState) -> bool {
    s.held is None
}

/// Shares out the work.
pub struct Pool {
    places: usize,
    settling: usize,
    ready: Vec<String>,
    making: usize,
    held: Option<String>,
}

impl View for Pool {
    type V = PoolState;

    closed spec fn view(&self) -> PoolState {
        PoolState {
            places: self.places as nat,
            settling: self.settling as nat,
            ready: text::string_views(self.ready@),
            making: self.making as nat,
            held: util::opt_view(self.held),
        }
    }
}

impl Pool {
    /// A pool with this many places, all of them free.
    pub fn new(places: usize) -> (r: Self)
        requires
            places > 0,
        ensures
            in_bounds(r@),
            r@ == (PoolState {
                places: places as nat,
                settling: 0,
                ready: Seq::empty(),
                making: 0,
                held: None,
            }),
    {
        let r = Pool { places, settling: 0, ready: Vec::new(), making: 0, held: None };
        proof {
            assert(r@.ready =~= Seq::<Seq<char>>::empty());
        }
        r
    }

    /// Whether another job may be taken off the queue.
    pub fn accepts(&self) -> (r: bool)
        ensures
            r == self@.held is None,
            r == takes_jobs(self@),
    {
        self.held.is_none()
    }

    /// Whether nothing is under way.
    pub fn is_idle(&self) -> (r: bool)
        ensures
            r == (self@.settling == 0 && self@.ready.len() == 0 && self@.making == 0
                && self@.held is None),
            r == is_at_rest(self@),
    {
        self.settling == 0 && self.ready.len() == 0 && self.making == 0 && self.held.is_none()
    }

    /// Takes a job off the queue.
    pub fn submit(&mut self, job: ThumbJob) -> (r: Vec<Step>)
        requires
            in_bounds(old(self)@),
            old(self)@.held is None,
        ensures
            in_bounds(final(self)@),
            match job {
                ThumbJob::Delete { rel_path } => {
                    &&& final(self)@ == old(self)@
                    &&& starts(r@) == seq![Start::Delete(rel_path@)]
                },
                ThumbJob::Create { rel_path } => (final(self)@, starts(r@)) == created(
                    old(self)@,
                    rel_path@,
                ),
            },
    {
        let mut steps: Vec<Step> = Vec::new();
        match job {
            ThumbJob::Delete { rel_path } => {
                steps.push(Step::Delete(rel_path));
                proof {
                    assert(starts(steps@) =~= seq![Start::Delete(rel_path@)]);
                }
            },
            ThumbJob::Create { rel_path } => {
                self.held = Some(rel_path);
                self.let_held_in(&mut steps);
            },
        }
        steps
    }

    /// Takes how waiting for a file to settle ended: it needs work, or not.
    pub fn settled(&mut self, rel: String, go: bool) -> (r: Vec<Step>)
        requires
            in_bounds(old(self)@),
            old(self)@.settling > 0,
        ensures
            in_bounds(final(self)@),
            (final(self)@, starts(r@)) == after_settling(old(self)@, rel@, go),
    {
        let ghost before = self@;
        let mut steps: Vec<Step> = Vec::new();
        self.settling = self.settling - 1;
        if go {
            if self.making < self.places {
                self.making = self.making + 1;
                steps.push(Step::Make(rel));
                proof {
                    assert(starts(steps@) =~= seq![Start::Make(rel@)]);
                }
            } else {
                self.ready.push(rel);
                proof {
                    assert(self@.ready =~= before.ready.push(rel@));
                }
            }
        }
        self.let_held_in(&mut steps);
        steps
    }

    /// Takes that the work on a file is done, whatever came of it.
    pub fn finished(&mut self) -> (r: Vec<Step>)
        requires
            in_bounds(old(self)@),
            old(self)@.making > 0,
        ensures
            in_bounds(final(self)@),
            (final(self)@, starts(r@)) == after_work(old(self)@),
    {
        let ghost before = self@;
        let mut steps: Vec<Step> = Vec::new();
        if self.ready.len() > 0 {
            let rel = self.ready.remove(0);
            proof {
                assert(rel@ == before.ready.first());
                assert(self@.ready =~= before.ready.drop_first());
            }
            steps.push(Step::Make(rel));
            proof {
                assert(starts(steps@) =~= seq![Start::Make(before.ready.first())]);
            }
            self.let_held_in(&mut steps);
        } else {
            self.making = self.making - 1;
            proof {
                assert(starts(steps@) =~= Seq::<Start>::empty());
            }
        }
        steps
    }

    /// Lets the file held back in, where there is room for it.
    fn let_held_in(&mut self, steps: &mut Vec<Step>)
        requires
            old(self)@.settling + old(self)@.ready.len() <= PREPASS_CONCURRENCY,
        ensures
            final(self)@ == let_in(old(self)@).0,
            starts(final(steps)@) == starts(old(steps)@) + let_in(old(self)@).1,
    {
        let ghost had = steps@;
        let held = self.held.take();
        match held {
            Some(rel) => {
                if self.settling + self.ready.len() < PREPASS_CONCURRENCY {
                    self.settling = self.settling + 1;
                    steps.push(Step::Settle(rel));
                    proof {
                        assert(starts(steps@) =~= starts(had) + seq![Start::Settle(rel@)]);
                    }
                } else {
                    self.held = Some(rel);
                    proof {
                        assert(starts(steps@) =~= starts(had) + Seq::<Start>::empty());
                    }
                }
            },
            None => {
                proof {
                    assert(starts(steps@) =~= starts(had) + Seq::<Start>::empty());
                }
            },
        }
    }
}

/// How many files are on their way through the pool.
pub open spec fn under_way(s: PoolState) -> nat {
    s.settling + s.ready.len() + s.making + if s.held is Some {
        1nat
    } else {
        0
    }
}

/// No file is lost or worked on twice: one that is added is one more on its way,
/// one that settles stays on its way exactly when it needs work, and one whose
/// work is done leaves.
pub proof fn law_no_file_is_lost(s: PoolState, rel: Seq<char>, go: bool)
    requires
        in_bounds(s),
    ensures
        s.held is None ==> under_way(created(s, rel).0) == under_way(s) + 1,
        s.settling > 0 ==> under_way(after_settling(s, rel, go).0) == under_way(s) - if go {
            0int
        } else {
            1
        },
        s.making > 0 ==> under_way(after_work(s).0) == under_way(s) - 1,
{
}

/// Work never stalls: while files wait for a place every place is taken, so the
/// next one that is done makes room for the file that has waited longest.
pub proof fn law_the_longest_waiting_file_is_next(s: PoolState)
    requires
        in_bounds(s),
        s.ready.len() > 0,
    ensures
        s.making == s.places,
        after_work(s).1.len() > 0,
        after_work(s).1[0] == Start::Make(s.ready.first()),
{
}

/// Where a file goes that is added: it waits to settle at once while fewer than 256
/// files are waiting, and is held back otherwise. Nothing else changes.
pub proof fn law_where_an_added_file_goes(s: PoolState, rel: Seq<char>)
    requires
        in_bounds(s),
        s.held is None,
    ensures
        ({
            let (next, steps) = created(s, rel);
            let room = s.settling + s.ready.len() < 256;
            &&& next.places == s.places && next.making == s.making && next.ready == s.ready
            &&& room ==> steps == seq![Start::Settle(rel)] && next.held is None && next.settling
                == s.settling + 1
            &&& !room ==> steps.len() == 0 && next.held == Some(rel) && next.settling == s.settling
        }),
{
}

/// Where a file goes that has settled: into work where a place is free, to the end
/// of the line where none is, and out where it needs none. The file held back takes
/// the room it leaves.
pub proof fn law_where_a_settled_file_goes(s: PoolState, rel: Seq<char>, go: bool)
    requires
        in_bounds(s),
        s.settling > 0,
    ensures
        ({
            let (next, steps) = after_settling(s, rel, go);
            let at_once = go && s.making < s.places;
            let in_line = go && s.making == s.places;
            let admits = s.held is Some && !in_line;
            &&& at_once ==> steps.len() > 0 && steps[0] == Start::Make(rel) && next.making
                == s.making + 1
            &&& !at_once ==> next.making == s.making && forall|i: int|
                0 <= i < steps.len() ==> !(#[trigger] steps[i] is Make)
            &&& next.ready == if in_line {
                s.ready.push(rel)
            } else {
                s.ready
            }
            &&& admits ==> steps.len() > 0 && steps.last() == Start::Settle(s.held->0) && next.held
                is None
            &&& !admits ==> next.held == s.held
            &&& steps.len() == (if at_once {
                1int
            } else {
                0
            }) + (if admits {
                1int
            } else {
                0
            })
            &&& next.settling == s.settling - 1 + if admits {
                1int
            } else {
                0
            }
            &&& next.places == s.places
        }),
{
}

/// What happens when the work on a file is done: the first in line takes the place,
/// and the file held back takes the room in line; without a line the place is free.
pub proof fn law_a_free_place_goes_to_the_first_in_line(s: PoolState)
    requires
        in_bounds(s),
        s.making > 0,
    ensures
        ({
            let (next, steps) = after_work(s);
            &&& s.ready.len() > 0 ==> {
                &&& next.making == s.making
                &&& next.ready == s.ready.drop_first()
                &&& steps[0] == Start::Make(s.ready[0])
                &&& s.held is Some ==> steps.len() == 2 && steps[1] == Start::Settle(s.held->0)
                    && next.held is None && next.settling == s.settling + 1
                &&& s.held is None ==> steps.len() == 1 && next.settling == s.settling
            }
            &&& s.ready.len() == 0 ==> {
                &&& next.making == s.making - 1
                &&& next.ready == s.ready && next.settling == s.settling && next.held == s.held
                &&& steps.len() == 0
            }
            &&& next.places == s.places
        }),
{
}

/// The pool is at rest exactly where no file is on its way, and takes jobs as long
/// as there is room for them: only with 256 files waiting does it stop.
pub proof fn law_when_the_pool_takes_jobs(s: PoolState)
    requires
        in_bounds(s),
    ensures
        is_at_rest(s) <==> under_way(s) == 0,
        !takes_jobs(s) ==> s.settling + s.ready.len() == 256,
        s.settling + s.ready.len() < 256 ==> takes_jobs(s),
{
}

} // verus!
