use std::collections::VecDeque;

use vstd::prelude::*;

use crate::composite::CompositorSubmission;

verus! {

/// A piece of work a scheduled frame asks for.
#[derive(Debug, Clone, Copy, PartialEq, Eq, Structural)]
pub enum CompositorTask {
    Raster,
    Composite,
    Present,
}

/// At most this many frames wait in the scheduler; older ones are dropped.
pub const MAX_QUEUE_DEPTH: usize = 2;

/// A frame picked for presentation, with the work it needs and what
/// happened to the frames queued with it.
#[derive(Debug, Clone)]
pub struct ScheduledCompositorFrame<V> {
    pub generation: u64,
    pub submission: CompositorSubmission<V>,
    pub tasks: Vec<CompositorTask>,
    pub enqueued_frame_count: usize,
    pub stale_frame_count: usize,
    pub dropped_frame_count: usize,
}

#[derive(Debug, Clone, Copy, PartialEq, Eq, Structural)]
pub struct CompositorSchedulerStats {
    pub pending_frame_count: usize,
    pub dropped_frame_count: usize,
}

/// The tasks a submission needs: raster when it has tiles to raster,
/// composite when it has layers, and always present, in that order.
pub open spec fn tasks_for<V>(submission: CompositorSubmission<V>) -> Seq<CompositorTask> {
    let raster: Seq<CompositorTask> = if submission.raster_batch.tiles@.len() > 0 {
        seq![CompositorTask::Raster]
    } else {
        Seq::empty()
    };
    let composite: Seq<CompositorTask> = if submission.composite_pass.steps@.len() > 0 {
        seq![CompositorTask::Composite]
    } else {
        Seq::empty()
    };
    raster + composite + seq![CompositorTask::Present]
}

/// A frame asks for raster work exactly when its submission has a tile to
/// raster, for composite work exactly when its composite pass has a step,
/// and always ends with presenting; raster comes before composite, and no
/// task is asked for twice.
pub proof fn lemma_tasks_follow_submission<V>(submission: CompositorSubmission<V>)
    ensures
        tasks_for(submission).contains(CompositorTask::Raster) <==> submission.raster_batch.tiles@.len() > 0,
        tasks_for(submission).contains(CompositorTask::Composite) <==> submission.composite_pass.steps@.len()
            > 0,
        tasks_for(submission).contains(CompositorTask::Present),
        tasks_for(submission).last() == CompositorTask::Present,
        submission.raster_batch.tiles@.len() > 0 ==> tasks_for(submission)[0] == CompositorTask::Raster,
        forall|i: int, j: int|
            0 <= i < j < tasks_for(submission).len() ==> tasks_for(submission)[i] != tasks_for(submission)[j],
{
    lemma_tasks_shape(submission);
}

proof fn lemma_tasks_shape<V>(submission: CompositorSubmission<V>)
    ensures
        tasks_for(submission) == (if submission.raster_batch.tiles@.len() > 0 {
            if submission.composite_pass.steps@.len() > 0 {
                seq![CompositorTask::Raster, CompositorTask::Composite, CompositorTask::Present]
            } else {
                seq![CompositorTask::Raster, CompositorTask::Present]
            }
        } else if submission.composite_pass.steps@.len() > 0 {
            seq![CompositorTask::Composite, CompositorTask::Present]
        } else {
            seq![CompositorTask::Present]
        }),
{
    let t = tasks_for(submission);
    if submission.raster_batch.tiles@.len() > 0 {
        if submission.composite_pass.steps@.len() > 0 {
            assert(t =~= seq![CompositorTask::Raster, CompositorTask::Composite, CompositorTask::Present]);
        } else {
            assert(t =~= seq![CompositorTask::Raster, CompositorTask::Present]);
        }
    } else if submission.composite_pass.steps@.len() > 0 {
        assert(t =~= seq![CompositorTask::Composite, CompositorTask::Present]);
    } else {
        assert(t =~= seq![CompositorTask::Present]);
    }
}

/// The queue after one more frame is enqueued: the frame goes to the back
/// and the oldest frames beyond `MAX_QUEUE_DEPTH` are dropped.
pub open spec fn queue_after_enqueue<P>(pending: Seq<P>, frame: P) -> Seq<P> {
    let grown = pending.push(frame);
    if grown.len() > MAX_QUEUE_DEPTH {
        grown.skip(grown.len() - MAX_QUEUE_DEPTH)
    } else {
        grown
    }
}

/// How many frames one enqueue drops.
pub open spec fn dropped_by_enqueue<P>(pending: Seq<P>) -> nat {
    if pending.len() + 1 > MAX_QUEUE_DEPTH {
        (pending.len() + 1 - MAX_QUEUE_DEPTH) as nat
    } else {
        0
    }
}

/// Enqueuing keeps the queue within its depth, puts the new frame last,
/// and loses no frame: each one is still queued or counted as dropped.
pub proof fn lemma_enqueue_keeps_every_frame_accounted<P>(pending: Seq<P>, frame: P)
    ensures
        queue_after_enqueue(pending, frame).len() <= MAX_QUEUE_DEPTH,
        queue_after_enqueue(pending, frame).len() > 0,
        queue_after_enqueue(pending, frame).last() == frame,
        queue_after_enqueue(pending, frame).len() + dropped_by_enqueue(pending) == pending.len() + 1,
{
}

/// A frame scheduler that keeps only the newest frames and hands out the
/// latest one, counting the others as dropped.
#[derive(Debug, Clone)]
pub struct CompositorScheduler<V> {
    latest_generation: Option<u64>,
    pending_frames: VecDeque<(u64, CompositorSubmission<V>)>,
    dropped_frame_count: usize,
}

impl<V> CompositorScheduler<V> {
    /// The frames waiting, oldest first.
    pub closed spec fn pending(&self) -> Seq<(u64, CompositorSubmission<V>)> {
        self.pending_frames@
    }

    /// The generation of the last frame enqueued.
    pub closed spec fn latest(&self) -> Option<u64> {
        self.latest_generation
    }

    /// How many frames were dropped without being presented.
    pub closed spec fn dropped(&self) -> nat {
        self.dropped_frame_count as nat
    }

    /// At most `MAX_QUEUE_DEPTH` frames wait.
    pub open spec fn wf(&self) -> bool {
        self.pending().len() <= MAX_QUEUE_DEPTH
    }

    pub fn new() -> (scheduler: Self)
        ensures
            scheduler.wf(),
            scheduler.pending().len() == 0,
            scheduler.latest() is None,
            scheduler.dropped() == 0,
    {
        CompositorScheduler { latest_generation: None, pending_frames: VecDeque::new(), dropped_frame_count: 0 }
    }

    /// Queues frame `generation`; when more than `MAX_QUEUE_DEPTH` frames
    /// wait, the oldest are dropped.
    pub fn enqueue_frame(&mut self, generation: u64, submission: CompositorSubmission<V>)
        requires
            old(self).wf(),
            old(self).dropped() + 1 <= usize::MAX,
        ensures
            final(self).wf(),
            final(self).latest() == Some(generation),
            final(self).pending() == queue_after_enqueue(old(self).pending(), (generation, submission)),
            final(self).dropped() == old(self).dropped() + dropped_by_enqueue(old(self).pending()),
            final(self).dropped() + final(self).pending().len() == old(self).dropped() + old(self).pending().len()
                + 1,
    {
        let ghost before = self.pending();
        self.latest_generation = Some(generation);
        self.pending_frames.push_back((generation, submission));
        let ghost grown = self.pending();
        proof {
            assert(grown == before.push((generation, submission)));
        }
        while self.pending_frames.len() > MAX_QUEUE_DEPTH
            invariant
                grown.len() <= MAX_QUEUE_DEPTH + 1,
                self.pending().len() <= grown.len(),
                self.pending().len() >= MAX_QUEUE_DEPTH || self.pending().len() == grown.len(),
                self.pending() == grown.skip(grown.len() - self.pending().len()),
                self.dropped() == old(self).dropped() + (grown.len() - self.pending().len()),
                old(self).dropped() + 1 <= usize::MAX,
                self.latest() == Some(generation),
            decreases self.pending().len(),
        {
            let _ = self.pending_frames.pop_front();
            self.dropped_frame_count = self.dropped_frame_count + 1;
            proof {
                assert(self.pending() =~= grown.skip(grown.len() - self.pending().len()));
            }
        }
        proof {
            if grown.len() <= MAX_QUEUE_DEPTH {
                assert(grown.skip(0) =~= grown);
            }
        }
    }

    /// Hands out the newest waiting frame, if any: every older waiting frame
    /// is counted as dropped and the queue is emptied.
    pub fn take_latest(&mut self) -> (frame: Option<ScheduledCompositorFrame<V>>)
        requires
            old(self).wf(),
            old(self).dropped() + old(self).pending().len() <= usize::MAX,
        ensures
            final(self).wf(),
            final(self).latest() == old(self).latest(),
            old(self).pending().len() == 0 <==> frame is None,
            frame is None ==> final(self).pending() == old(self).pending() && final(self).dropped()
                == old(self).dropped(),
            frame matches Some(f) ==> {
                let last = old(self).pending().last();
                &&& f.generation == last.0
                &&& f.submission == last.1
                &&& f.tasks@ == tasks_for(last.1)
                &&& (f.tasks@.contains(CompositorTask::Raster) <==> last.1.raster_batch.tiles@.len() > 0)
                &&& (f.tasks@.contains(CompositorTask::Composite) <==> last.1.composite_pass.steps@.len() > 0)
                &&& f.tasks@.last() == CompositorTask::Present
                &&& f.enqueued_frame_count == old(self).pending().len()
                &&& f.stale_frame_count == old(self).pending().len() - 1
                &&& final(self).pending().len() == 0
                &&& final(self).dropped() == old(self).dropped() + f.stale_frame_count
                &&& f.dropped_frame_count == final(self).dropped()
                &&& final(self).dropped() + 1 == old(self).dropped() + old(self).pending().len()
            },
    {
        let enqueued_frame_count = self.pending_frames.len();
        let latest = self.pending_frames.pop_back();
        match latest {
            None => None,
            Some((generation, submission)) => {
                let stale_frame_count = self.pending_frames.len();
                self.dropped_frame_count = self.dropped_frame_count + stale_frame_count;
                self.pending_frames.clear();
                let mut tasks: Vec<CompositorTask> = Vec::new();
                if submission.raster_batch.tile_count() > 0 {
                    tasks.push(CompositorTask::Raster);
                }
                if submission.composite_pass.layer_count() > 0 {
                    tasks.push(CompositorTask::Composite);
                }
                tasks.push(CompositorTask::Present);
                proof {
                    assert(tasks@ =~= tasks_for(submission));
                    lemma_tasks_follow_submission(submission);
                }
                Some(
                    ScheduledCompositorFrame {
                        generation,
                        submission,
                        tasks,
                        enqueued_frame_count,
                        stale_frame_count,
                        dropped_frame_count: self.dropped_frame_count,
                    },
                )
            },
        }
    }

    /// Enqueues frame `generation` and at once hands out the newest frame,
    /// which is this one.
    pub fn schedule(&mut self, generation: u64, submission: CompositorSubmission<V>) -> (frame:
        ScheduledCompositorFrame<V>)
        requires
            old(self).wf(),
            old(self).dropped() + old(self).pending().len() + 1 <= usize::MAX,
        ensures
            final(self).wf(),
            final(self).latest() == Some(generation),
            final(self).pending().len() == 0,
            frame.generation == generation,
            frame.submission == submission,
            frame.tasks@ == tasks_for(submission),
            frame.tasks@.contains(CompositorTask::Raster) <==> submission.raster_batch.tiles@.len() > 0,
            frame.tasks@.contains(CompositorTask::Composite) <==> submission.composite_pass.steps@.len() > 0,
            frame.tasks@.last() == CompositorTask::Present,
            frame.enqueued_frame_count == queue_after_enqueue(old(self).pending(), (generation, submission)).len(),
            frame.stale_frame_count == frame.enqueued_frame_count - 1,
            final(self).dropped() == old(self).dropped() + old(self).pending().len(),
            frame.dropped_frame_count == final(self).dropped(),
    {
        let ghost s = submission;
        self.enqueue_frame(generation, submission);
        proof {
            lemma_enqueue_keeps_every_frame_accounted(old(self).pending(), (generation, s));
        }
        let frame = self.take_latest();
        match frame {
            Some(f) => f,
            None => vstd::pervasive::unreached(),
        }
    }

    pub fn latest_generation(&self) -> (g: Option<u64>)
        ensures
            g == self.latest(),
    {
        self.latest_generation
    }

    pub fn dropped_frame_count(&self) -> (n: usize)
        ensures
            n == self.dropped(),
    {
        self.dropped_frame_count
    }

    pub fn stats(&self) -> (stats: CompositorSchedulerStats)
        ensures
            stats.pending_frame_count == self.pending().len(),
            stats.dropped_frame_count == self.dropped(),
    {
        CompositorSchedulerStats {
            pending_frame_count: self.pending_frames.len(),
            dropped_frame_count: self.dropped_frame_count,
        }
    }
}

#[derive(Debug, Clone, Copy, PartialEq, Eq, Structural)]
pub struct CompositorWorkerStats {
    pub submitted_frame_count: usize,
    pub processed_frame_count: usize,
    pub latest_generation: Option<u64>,
    pub dropped_frame_count: usize,
    pub worker_threaded: bool,
    pub worker_alive: bool,
}

/// What a worker hands back for one submitted frame.
#[derive(Debug, Clone)]
pub struct CompositorWorkerOutput<V> {
    pub scheduled: ScheduledCompositorFrame<V>,
    pub worker_stats: CompositorWorkerStats,
    pub scheduler_stats: CompositorSchedulerStats,
}

#[derive(Debug, Clone, Copy, PartialEq, Eq, Structural)]
pub struct CompositorServiceStats {
    pub submitted_frame_count: usize,
    pub processed_frame_count: usize,
    pub dropped_frame_count: usize,
    pub worker_threaded: bool,
    pub worker_alive: bool,
}

impl CompositorServiceStats {
    /// A service's statistics as its worker last reported them.
    pub fn from_worker_stats(stats: CompositorWorkerStats) -> (service: Self)
        ensures
            service.submitted_frame_count == stats.submitted_frame_count,
            service.processed_frame_count == stats.processed_frame_count,
            service.dropped_frame_count == stats.dropped_frame_count,
            service.worker_threaded == stats.worker_threaded,
            service.worker_alive == stats.worker_alive,
    {
        CompositorServiceStats {
            submitted_frame_count: stats.submitted_frame_count,
            processed_frame_count: stats.processed_frame_count,
            dropped_frame_count: stats.dropped_frame_count,
            worker_threaded: stats.worker_threaded,
            worker_alive: stats.worker_alive,
        }
    }

    /// The statistics of a service that has not run a frame yet.
    pub fn initial() -> (service: Self)
        ensures
            service.submitted_frame_count == 0,
            service.processed_frame_count == 0,
            service.dropped_frame_count == 0,
            !service.worker_threaded,
            !service.worker_alive,
    {
        CompositorServiceStats {
            submitted_frame_count: 0,
            processed_frame_count: 0,
            dropped_frame_count: 0,
            worker_threaded: false,
            worker_alive: false,
        }
    }
}

/// A worker that schedules each submitted frame at once.
#[derive(Debug, Clone)]
pub struct CompositorWorker<V> {
    scheduler: CompositorScheduler<V>,
    submitted_frame_count: usize,
    processed_frame_count: usize,
}

impl<V> CompositorWorker<V> {
    pub closed spec fn submitted(&self) -> nat {
        self.submitted_frame_count as nat
    }

    pub closed spec fn processed(&self) -> nat {
        self.processed_frame_count as nat
    }

    pub closed spec fn scheduler(&self) -> CompositorScheduler<V> {
        self.scheduler
    }

    /// Every submitted frame was processed, its scheduler holds no frame,
    /// and no more frames were dropped than submitted.
    pub open spec fn wf(&self) -> bool {
        &&& self.scheduler().wf()
        &&& self.processed() == self.submitted()
        &&& self.scheduler().pending().len() == 0
        &&& self.scheduler().dropped() <= self.submitted()
    }

    pub fn new() -> (worker: Self)
        ensures
            worker.wf(),
            worker.submitted() == 0,
            worker.scheduler().latest() is None,
            worker.scheduler().dropped() == 0,
    {
        CompositorWorker { scheduler: CompositorScheduler::new(), submitted_frame_count: 0, processed_frame_count: 0 }
    }

    /// Schedules frame `generation` and returns it, scheduled.
    pub fn submit_frame(&mut self, generation: u64, submission: CompositorSubmission<V>) -> (frame:
        ScheduledCompositorFrame<V>)
        requires
            old(self).wf(),
            old(self).submitted() < usize::MAX,
        ensures
            final(self).wf(),
            final(self).submitted() == old(self).submitted() + 1,
            final(self).scheduler().latest() == Some(generation),
            final(self).scheduler().dropped() == old(self).scheduler().dropped(),
            frame.generation == generation,
            frame.submission == submission,
            frame.tasks@ == tasks_for(submission),
            frame.tasks@.contains(CompositorTask::Raster) <==> submission.raster_batch.tiles@.len() > 0,
            frame.tasks@.contains(CompositorTask::Composite) <==> submission.composite_pass.steps@.len() > 0,
            frame.tasks@.last() == CompositorTask::Present,
            frame.enqueued_frame_count == 1,
            frame.stale_frame_count == 0,
            frame.dropped_frame_count == final(self).scheduler().dropped(),
    {
        self.submitted_frame_count = self.submitted_frame_count + 1;
        let frame = self.scheduler.schedule(generation, submission);
        self.processed_frame_count = self.processed_frame_count + 1;
        frame
    }

    pub fn stats(&self) -> (stats: CompositorWorkerStats)
        ensures
            stats.submitted_frame_count == self.submitted(),
            stats.processed_frame_count == self.processed(),
            stats.latest_generation == self.scheduler().latest(),
            stats.dropped_frame_count == self.scheduler().dropped(),
            !stats.worker_threaded,
            stats.worker_alive,
    {
        CompositorWorkerStats {
            submitted_frame_count: self.submitted_frame_count,
            processed_frame_count: self.processed_frame_count,
            latest_generation: self.scheduler.latest_generation(),
            dropped_frame_count: self.scheduler.dropped_frame_count(),
            worker_threaded: false,
            worker_alive: true,
        }
    }

    pub fn scheduler_stats(&self) -> (stats: CompositorSchedulerStats)
        ensures
            stats.pending_frame_count == self.scheduler().pending().len(),
            stats.dropped_frame_count == self.scheduler().dropped(),
    {
        self.scheduler.stats()
    }
}

impl<V> Default for CompositorScheduler<V> {
    /// A scheduler with no frame, as `new` gives.
    fn default() -> (scheduler: Self)
        ensures
            scheduler.wf(),
            scheduler.pending().len() == 0,
            scheduler.latest() is None,
            scheduler.dropped() == 0,
    {
        CompositorScheduler::new()
    }
}

} // verus!
