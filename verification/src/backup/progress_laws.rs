//! What holds of the notifications of every run, whatever outcomes it is
//! fed: percentages lie between 0 and 100 and never fall, and a run that
//! counted no files sends none. Also: a run whose source is missing asks for
//! nothing that would change the filesystem.
use crate::backup::machine::{initial, next, pending, run_after, RunView};
use crate::backup::mirror_laws::{asked, lemma_run_keeps_roots};
use crate::backup::progress::{lemma_percent_bounded, lemma_percent_monotone, progress_of};
use crate::backup::protocol::{ActionView, ErrorView, EventView, FailureView};
use crate::backup::run_laws::{faithful, lemma_faithful_prefix, lemma_file_source_is_abandoned};
use crate::backup::tree::Tree;
use vstd::prelude::*;

verus! {

/// The count pass is over: the total is final.
pub open spec fn past_counting(s: RunView) -> bool {
    !(s.stage is CheckSource || s.stage is PrepareDestination || s.stage is Counting)
}

/// A notification is pending only in a run that counted at least one file.
pub open spec fn notifies_soundly(s: RunView) -> bool {
    s.stage is Notifying ==> s.total_files > 0
}

/// A step never lowers the number of files copied, and once the count pass
/// is over it leaves the total alone.
pub proof fn lemma_step_progress(s: RunView, e: EventView)
    ensures
        next(s, e).files_copied >= s.files_copied,
        past_counting(s) ==> past_counting(next(s, e)) && next(s, e).total_files == s.total_files,
        notifies_soundly(s) ==> notifies_soundly(next(s, e)),
        !(s.stage is Notifying) && next(s, e).stage is Notifying ==> next(s, e).files_copied
            == s.files_copied + 1,
        s.total_files > 0 && next(s, e).files_copied != s.files_copied ==> !(s.stage is Notifying)
            && next(s, e).stage is Notifying,
{
}

/// What [`lemma_step_progress`] says of one step holds from any point of a
/// run to its end.
pub proof fn lemma_run_progress(start: RunView, events: Seq<EventView>, i: int)
    requires
        0 <= i <= events.len(),
    ensures
        run_after(start, events).files_copied >= run_after(start, events.take(i)).files_copied,
        past_counting(run_after(start, events.take(i))) ==> past_counting(
            run_after(start, events),
        ) && run_after(start, events).total_files == run_after(
            start,
            events.take(i),
        ).total_files,
        notifies_soundly(run_after(start, events.take(i))) ==> notifies_soundly(
            run_after(start, events),
        ),
    decreases events.len(),
{
    if i == events.len() {
        assert(events.take(i) =~= events);
    } else {
        let earlier = events.drop_last();
        lemma_run_progress(start, earlier, i);
        assert(earlier.take(i) =~= events.take(i));
        lemma_step_progress(run_after(start, earlier), events.last());
    }
}

/// Whenever a run asks for a notification, it has counted at least one file,
/// and the notification reports its counters and a percentage between 0 and
/// 100.
pub proof fn lemma_notification_is_sound(
    source: Seq<char>,
    destination: Seq<char>,
    task_name: Seq<char>,
    events: Seq<EventView>,
)
    requires
        pending(run_after(initial(source, destination, task_name), events)) is Notify,
    ensures
        ({
            let end = run_after(initial(source, destination, task_name), events);
            let progress = pending(end)->progress;
            &&& end.total_files > 0
            &&& progress == progress_of(task_name, end.files_copied, end.total_files)
            &&& 0 <= progress.percent <= 100
        }),
{
    let start = initial(source, destination, task_name);
    let end = run_after(start, events);
    lemma_run_progress(start, events, 0);
    assert(events.take(0) =~= Seq::empty());
    lemma_run_keeps_roots(start, events);
    lemma_percent_bounded(end.files_copied, end.total_files);
}

/// Of two notifications of one run, the later reports the same total, at
/// least as many files copied, and at least as high a percentage. Where the
/// later one is newly asked for, it reports more files copied.
pub proof fn lemma_progress_never_falls(
    source: Seq<char>,
    destination: Seq<char>,
    task_name: Seq<char>,
    events: Seq<EventView>,
    i: int,
    j: int,
)
    requires
        0 <= i <= j <= events.len(),
        asked(initial(source, destination, task_name), events, i) is Notify,
        asked(initial(source, destination, task_name), events, j) is Notify,
    ensures
        ({
            let start = initial(source, destination, task_name);
            let sooner = asked(start, events, i)->progress;
            let later = asked(start, events, j)->progress;
            &&& sooner.total_files == later.total_files
            &&& sooner.files_copied <= later.files_copied
            &&& sooner.percent <= later.percent
            &&& i < j && !(asked(start, events, j - 1) is Notify) ==> sooner.files_copied
                < later.files_copied
        }),
{
    let start = initial(source, destination, task_name);
    let upto = events.take(j);
    lemma_run_progress(start, upto, i);
    assert(upto.take(i) =~= events.take(i));
    lemma_notification_is_sound(source, destination, task_name, events.take(i));
    lemma_notification_is_sound(source, destination, task_name, upto);
    let a = run_after(start, events.take(i));
    let b = run_after(start, upto);
    lemma_percent_monotone(a.files_copied, b.files_copied, a.total_files);
    if i < j {
        let before = upto.drop_last();
        assert(before =~= events.take(j - 1));
        lemma_run_progress(start, before, i);
        assert(before.take(i) =~= events.take(i));
        lemma_step_progress(run_after(start, before), upto.last());
    }
}

/// A run that counted no files never asks for a notification.
pub proof fn lemma_no_files_no_notification(
    source: Seq<char>,
    destination: Seq<char>,
    task_name: Seq<char>,
    events: Seq<EventView>,
)
    requires
        run_after(initial(source, destination, task_name), events).total_files == 0,
    ensures
        !(pending(run_after(initial(source, destination, task_name), events)) is Notify),
{
    if pending(run_after(initial(source, destination, task_name), events)) is Notify {
        lemma_notification_is_sound(source, destination, task_name, events);
    }
}

/// A run that learns first that its source is missing is abandoned for that
/// reason with no file copied, and stays so.
pub proof fn lemma_missing_source_abandons(
    source: Seq<char>,
    destination: Seq<char>,
    task_name: Seq<char>,
    events: Seq<EventView>,
)
    requires
        events.len() > 0,
        events[0] == EventView::SourceMissing,
    ensures
        pending(run_after(initial(source, destination, task_name), events)) == (ActionView::Fail {
            failure: FailureView { error: ErrorView::SourceNotFound, files_copied: 0 },
        }),
    decreases events.len(),
{
    let start = initial(source, destination, task_name);
    if events.len() == 1 {
        assert(events.drop_last() =~= Seq::empty());
    } else {
        lemma_missing_source_abandons(source, destination, task_name, events.drop_last());
    }
}

/// A run whose source is missing never asks for a directory to be made or a
/// file to be copied: all it ever asks is whether the source root is an
/// existing directory.
pub proof fn lemma_missing_source_changes_nothing(
    source: Seq<char>,
    destination: Seq<char>,
    task_name: Seq<char>,
    events: Seq<EventView>,
    i: int,
)
    requires
        events.len() > 0,
        events[0] == EventView::SourceMissing,
        0 <= i <= events.len(),
    ensures
        asked(initial(source, destination, task_name), events, i) is CheckSource || asked(
            initial(source, destination, task_name),
            events,
            i,
        ) is Fail,
{
    if i > 0 {
        lemma_missing_source_abandons(source, destination, task_name, events.take(i));
    } else {
        assert(events.take(0) =~= Seq::empty());
    }
}

/// A run whose source root is not a directory never asks for a directory
/// to be made or a file to be copied: all it ever asks is whether the source
/// root is an existing directory, and it is abandoned for want of one.
pub proof fn lemma_file_source_changes_nothing(
    t: Tree,
    source: Seq<char>,
    destination: Seq<char>,
    task_name: Seq<char>,
    events: Seq<EventView>,
    i: int,
)
    requires
        !(t is Directory),
        faithful(t, initial(source, destination, task_name), events),
        0 <= i <= events.len(),
    ensures
        asked(initial(source, destination, task_name), events, i) == (if i == 0 {
            ActionView::CheckSource { source }
        } else {
            ActionView::Fail {
                failure: FailureView { error: ErrorView::SourceNotFound, files_copied: 0 },
            }
        }),
{
    let start = initial(source, destination, task_name);
    lemma_faithful_prefix(t, start, events, i);
    lemma_file_source_is_abandoned(t, source, destination, task_name, events.take(i));
}

/// The notification that the run waits for after `j` outcomes is newly asked
/// for: just before, the run waited for something else.
pub open spec fn newly_notified(start: RunView, events: Seq<EventView>, j: int) -> bool {
    &&& 0 < j <= events.len()
    &&& asked(start, events, j) is Notify
    &&& !(asked(start, events, j - 1) is Notify)
}

/// While no notification is newly asked for, no file is copied.
proof fn lemma_quiet_stretch(
    source: Seq<char>,
    destination: Seq<char>,
    task_name: Seq<char>,
    events: Seq<EventView>,
    i: int,
    j: int,
)
    requires
        0 <= i <= j <= events.len(),
        asked(initial(source, destination, task_name), events, i) is Notify,
        forall|k: int|
            i < k <= j ==> !#[trigger] newly_notified(
                initial(source, destination, task_name),
                events,
                k,
            ),
    ensures
        run_after(initial(source, destination, task_name), events.take(j)).files_copied
            == run_after(initial(source, destination, task_name), events.take(i)).files_copied,
    decreases j - i,
{
    let start = initial(source, destination, task_name);
    if i < j {
        lemma_quiet_stretch(source, destination, task_name, events, i, j - 1);
        lemma_notification_is_sound(source, destination, task_name, events.take(i));
        let before = events.take(j - 1);
        lemma_run_progress(start, before, i);
        assert(before.take(i) =~= events.take(i));
        assert(events.take(j).drop_last() =~= before);
        assert(events.take(j).last() == events[j - 1]);
        lemma_step_progress(run_after(start, before), events[j - 1]);
        assert(!newly_notified(start, events, j));
    }
}

/// Of two notifications of one run that follow one another, the second
/// reports exactly one more file copied, the same total, and a percentage
/// at least as high.
pub proof fn lemma_next_notification_counts_one_more(
    source: Seq<char>,
    destination: Seq<char>,
    task_name: Seq<char>,
    events: Seq<EventView>,
    i: int,
    j: int,
)
    requires
        0 <= i < j <= events.len(),
        asked(initial(source, destination, task_name), events, i) is Notify,
        newly_notified(initial(source, destination, task_name), events, j),
        forall|k: int|
            i < k < j ==> !#[trigger] newly_notified(
                initial(source, destination, task_name),
                events,
                k,
            ),
    ensures
        ({
            let start = initial(source, destination, task_name);
            let sooner = asked(start, events, i)->progress;
            let later = asked(start, events, j)->progress;
            &&& later.files_copied == sooner.files_copied + 1
            &&& later.total_files == sooner.total_files
            &&& sooner.percent <= later.percent
        }),
{
    let start = initial(source, destination, task_name);
    lemma_quiet_stretch(source, destination, task_name, events, i, j - 1);
    lemma_progress_never_falls(source, destination, task_name, events, i, j);
    assert(events.take(j).drop_last() =~= events.take(j - 1));
    assert(events.take(j).last() == events[j - 1]);
    lemma_step_progress(run_after(start, events.take(j - 1)), events[j - 1]);
}

} // verus!
