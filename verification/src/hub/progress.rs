//! How far a download is, as a progress bar shows it.
//!
//! The bar itself is outside of this library. What it shows never goes back: neither its
//! position nor its length is ever set to less.
use vstd::prelude::*;

verus! {

/// The bytes of one file that are there.
pub struct FileProgress {
    pub filename: String,
    pub bytes_completed: u64,
}

impl View for FileProgress {
    type V = (Seq<char>, int);

    open spec fn view(&self) -> (Seq<char>, int) {
        (self.filename@, self.bytes_completed as int)
    }
}

/// The model of a list of files.
pub open spec fn file_seq(files: Seq<FileProgress>) -> Seq<(Seq<char>, int)> {
    Seq::new(files.len(), |i: int| files[i]@)
}

/// There is one entry for each file, with its name and its bytes.
pub proof fn lemma_file_seq(files: Seq<FileProgress>, i: int)
    requires
        0 <= i < files.len(),
    ensures
        file_seq(files).len() == files.len(),
        file_seq(files)[i] == (files[i].filename@, files[i].bytes_completed as int),
{
}

/// News of a download.
pub enum DownloadEvent {
    Start { total_bytes: u64 },
    Progress { files: Vec<FileProgress> },
    AggregateProgress { bytes_completed: u64, total_bytes: u64 },
    Complete,
}

/// News of a transfer.
pub enum ProgressEvent {
    Download(DownloadEvent),
    /// Of something else than a download.
    Other,
}

/// What a bar shows.
#[derive(Clone, Copy, PartialEq, Eq, Debug)]
pub struct Bar {
    pub position: u64,
    /// `None` where it is not known.
    pub length: Option<u64>,
}

/// What is to change about a bar.
#[derive(Clone, Copy, PartialEq, Eq, Debug)]
pub struct BarUpdate {
    pub length: Option<u64>,
    pub position: Option<u64>,
    pub finish: bool,
}

/// The position to set, where the bar shows `current`; `None` where it is to stay.
pub open spec fn advanced(current: u64, position: u64) -> Option<u64> {
    if position > current {
        Some(position)
    } else {
        None
    }
}

/// The length to set, where the bar shows `current`; `None` where it is to stay.
pub open spec fn extended(current: Option<u64>, length: u64) -> Option<u64> {
    match current {
        Some(known) if length <= known => None,
        _ => Some(length),
    }
}

/// The position to set, where the bar shows `current`.
pub fn set_position(current: u64, position: u64) -> (r: Option<u64>)
    ensures
        r == advanced(current, position),
{
    if position > current {
        Some(position)
    } else {
        None
    }
}

/// The length to set, where the bar shows `current`.
pub fn set_length(current: Option<u64>, length: u64) -> (r: Option<u64>)
    ensures
        r == extended(current, length),
{
    match current {
        Some(known) => if length > known {
            Some(length)
        } else {
            None
        },
        None => Some(length),
    }
}

/// What a bar shows after an update other than its end.
pub open spec fn shown(bar: Bar, update: BarUpdate) -> Bar {
    Bar {
        position: match update.position {
            Some(p) => p,
            None => bar.position,
        },
        length: match update.length {
            Some(l) => Some(l),
            None => bar.length,
        },
    }
}

/// The greater of two numbers.
pub open spec fn greater(a: int, b: int) -> int {
    if a > b {
        a
    } else {
        b
    }
}

/// `entries` after `bytes` of the file `name` were reported: a file counts with the most
/// that was ever reported of it.
pub open spec fn recorded(entries: Seq<(Seq<char>, int)>, name: Seq<char>, bytes: int) -> Seq<
    (Seq<char>, int),
>
    decreases entries.len(),
{
    if entries.len() == 0 {
        seq![(name, bytes)]
    } else if entries[0].0 == name {
        seq![(name, greater(entries[0].1, bytes))] + entries.drop_first()
    } else {
        seq![entries[0]] + recorded(entries.drop_first(), name, bytes)
    }
}

/// `entries` after all of `files` were reported, one after the other.
pub open spec fn recorded_all(
    entries: Seq<(Seq<char>, int)>,
    files: Seq<(Seq<char>, int)>,
) -> Seq<(Seq<char>, int)>
    decreases files.len(),
{
    if files.len() == 0 {
        entries
    } else {
        recorded_all(recorded(entries, files[0].0, files[0].1), files.drop_first())
    }
}

/// The bytes of all files together.
pub open spec fn total(entries: Seq<(Seq<char>, int)>) -> int
    decreases entries.len(),
{
    if entries.len() == 0 {
        0
    } else {
        entries[0].1 + total(entries.drop_first())
    }
}

/// The bytes of the file `name`; none where it was never reported.
pub open spec fn bytes_of(entries: Seq<(Seq<char>, int)>, name: Seq<char>) -> int
    decreases entries.len(),
{
    if entries.len() == 0 {
        0
    } else if entries[0].0 == name {
        entries[0].1
    } else {
        bytes_of(entries.drop_first(), name)
    }
}

/// Whether no file is listed twice.
pub open spec fn listed_once(entries: Seq<(Seq<char>, int)>) -> bool {
    forall|i: int, j: int| 0 <= i < j < entries.len() ==> entries[i].0 != entries[j].0
}

/// Whether no file counts with less than nothing.
pub open spec fn counted(entries: Seq<(Seq<char>, int)>) -> bool {
    forall|i: int| 0 <= i < entries.len() ==> (#[trigger] entries[i]).1 >= 0
}

proof fn lemma_recorded_names(
    entries: Seq<(Seq<char>, int)>,
    name: Seq<char>,
    bytes: int,
)
    ensures
        entries.len() <= recorded(entries, name, bytes).len() <= entries.len() + 1,
        forall|i: int|
            0 <= i < entries.len() ==> (#[trigger] recorded(entries, name, bytes)[i]).0
                == entries[i].0,
        recorded(entries, name, bytes).len() == entries.len() + 1 ==> recorded(
            entries,
            name,
            bytes,
        ).last().0 == name && forall|i: int| 0 <= i < entries.len() ==> entries[i].0 != name,
    decreases entries.len(),
{
    let all = recorded(entries, name, bytes);
    if entries.len() > 0 {
        if entries[0].0 == name {
            assert forall|i: int| 0 <= i < entries.len() implies (#[trigger] all[i]).0
                == entries[i].0 by {
                if i > 0 {
                    assert(all[i] == entries.drop_first()[i - 1]);
                }
            }
        } else {
            let rest = entries.drop_first();
            lemma_recorded_names(rest, name, bytes);
            let tail = recorded(rest, name, bytes);
            assert forall|i: int| 0 <= i < entries.len() implies (#[trigger] all[i]).0
                == entries[i].0 by {
                if i > 0 {
                    assert(all[i] == tail[i - 1]);
                    assert(entries[i] == rest[i - 1]);
                }
            }
            if all.len() == entries.len() + 1 {
                assert forall|i: int| 0 <= i < entries.len() implies entries[i].0 != name by {
                    if i > 0 {
                        assert(entries[i] == rest[i - 1]);
                    }
                }
                assert(all.last() == tail.last());
            }
        }
    }
}

/// A report raises the count of its file to what is reported, never lowers one, and leaves
/// the other files alone; the total of all files never falls. No file comes to be listed
/// twice.
pub proof fn lemma_report(
    entries: Seq<(Seq<char>, int)>,
    name: Seq<char>,
    bytes: int,
    other: Seq<char>,
)
    requires
        counted(entries),
        bytes >= 0,
    ensures
        counted(recorded(entries, name, bytes)),
        bytes_of(recorded(entries, name, bytes), name) == greater(bytes_of(entries, name), bytes),
        other != name ==> bytes_of(recorded(entries, name, bytes), other) == bytes_of(
            entries,
            other,
        ),
        total(recorded(entries, name, bytes)) >= total(entries),
        listed_once(entries) ==> listed_once(recorded(entries, name, bytes)),
    decreases entries.len(),
{
    let all = recorded(entries, name, bytes);
    let rest = entries.drop_first();
    lemma_recorded_names(entries, name, bytes);
    assert(listed_once(entries) ==> listed_once(all)) by {
        assert forall|i: int, j: int|
            listed_once(entries) && 0 <= i < j < all.len() implies all[i].0 != all[j].0 by {
            if j == entries.len() {
                assert(all[j] == all.last());
            }
        }
    }
    if entries.len() == 0 {
        assert(all.drop_first() == Seq::<(Seq<char>, int)>::empty());
        assert(total(all.drop_first()) == 0);
        assert(bytes_of(all.drop_first(), other) == 0);
    } else if entries[0].0 == name {
        assert(all.drop_first() == rest);
        assert(entries[0].1 >= 0);
        assert forall|i: int| 0 <= i < all.len() implies (#[trigger] all[i]).1 >= 0 by {
            if i > 0 {
                assert(all[i] == entries[i]);
            }
        }
    } else {
        assert forall|i: int| 0 <= i < rest.len() implies (#[trigger] rest[i]).1 >= 0 by {
            assert(rest[i] == entries[i + 1]);
        }
        lemma_report(rest, name, bytes, other);
        assert(all.drop_first() == recorded(rest, name, bytes));
        assert forall|i: int| 0 <= i < all.len() implies (#[trigger] all[i]).1 >= 0 by {
            if i > 0 {
                assert(all[i] == all.drop_first()[i - 1]);
            } else {
                assert(entries[0].1 >= 0);
            }
        }
    }
}

proof fn lemma_total_of_part(entries: Seq<(Seq<char>, int)>, n: int)
    requires
        counted(entries),
        0 <= n < entries.len(),
    ensures
        total(entries.take(n + 1)) == total(entries.take(n)) + entries[n].1,
        0 <= total(entries.take(n)),
        total(entries.take(n + 1)) <= total(entries),
    decreases entries.len(),
{
    let rest = entries.drop_first();
    assert forall|i: int| 0 <= i < rest.len() implies (#[trigger] rest[i]).1 >= 0 by {
        assert(rest[i] == entries[i + 1]);
    }
    assert(entries[0].1 >= 0);
    assert(entries.take(n + 1).drop_first() == rest.take(n));
    if n > 0 {
        assert(entries.take(n).drop_first() == rest.take(n - 1));
        lemma_total_of_part(rest, n - 1);
    } else {
        assert(rest.take(0) == Seq::<(Seq<char>, int)>::empty());
        assert(entries.take(0) == Seq::<(Seq<char>, int)>::empty());
        lemma_total_not_negative(rest);
    }
}

proof fn lemma_total_not_negative(entries: Seq<(Seq<char>, int)>)
    requires
        counted(entries),
    ensures
        total(entries) >= 0,
    decreases entries.len(),
{
    if entries.len() > 0 {
        let rest = entries.drop_first();
        assert forall|i: int| 0 <= i < rest.len() implies (#[trigger] rest[i]).1 >= 0 by {
            assert(rest[i] == entries[i + 1]);
        }
        assert(entries[0].1 >= 0);
        lemma_total_not_negative(rest);
    }
}

/// The model of news.
pub enum NewsView {
    Start(u64),
    Progress(Seq<(Seq<char>, int)>),
    Aggregate(u64, u64),
    Complete,
    Other,
}

impl View for ProgressEvent {
    type V = NewsView;

    open spec fn view(&self) -> NewsView {
        match self {
            ProgressEvent::Download(event) => event@,
            ProgressEvent::Other => NewsView::Other,
        }
    }
}

impl View for DownloadEvent {
    type V = NewsView;

    open spec fn view(&self) -> NewsView {
        match self {
            DownloadEvent::Start { total_bytes } => NewsView::Start(*total_bytes),
            DownloadEvent::Progress { files } => NewsView::Progress(file_seq(files@)),
            DownloadEvent::AggregateProgress { bytes_completed, total_bytes } => {
                NewsView::Aggregate(*bytes_completed, *total_bytes)
            },
            DownloadEvent::Complete => NewsView::Complete,
        }
    }
}

/// The files on record after some news.
pub open spec fn tracked_after(
    entries: Seq<(Seq<char>, int)>,
    event: NewsView,
) -> Seq<(Seq<char>, int)> {
    match event {
        NewsView::Start(_) => Seq::empty(),
        NewsView::Progress(files) => recorded_all(entries, files),
        _ => entries,
    }
}

/// What is to change about `bar` after some news.
pub open spec fn update_for(
    entries: Seq<(Seq<char>, int)>,
    event: NewsView,
    bar: Bar,
) -> BarUpdate {
    match event {
        NewsView::Start(length) => BarUpdate {
            length: extended(bar.length, length),
            position: None,
            finish: false,
        },
        NewsView::Progress(files) => BarUpdate {
            length: None,
            position: advanced(bar.position, total(recorded_all(entries, files)) as u64),
            finish: false,
        },
        NewsView::Aggregate(bytes, length) => BarUpdate {
            length: extended(bar.length, length),
            position: advanced(bar.position, bytes),
            finish: false,
        },
        NewsView::Complete => BarUpdate { length: None, position: None, finish: true },
        NewsView::Other => BarUpdate { length: None, position: None, finish: false },
    }
}

/// Whatever news comes, no file comes to be listed twice, and none counts with less than
/// nothing.
pub proof fn lemma_record_stays_sound(entries: Seq<(Seq<char>, int)>, event: NewsView)
    requires
        listed_once(entries),
        counted(entries),
        event matches NewsView::Progress(files) ==> counted(files),
    ensures
        listed_once(tracked_after(entries, event)),
        counted(tracked_after(entries, event)),
        event matches NewsView::Progress(files) ==> total(tracked_after(entries, event)) >= total(
            entries,
        ),
{
    if let NewsView::Progress(files) = event {
        lemma_reports_stay_sound(entries, files);
    }
}

proof fn lemma_reports_stay_sound(
    entries: Seq<(Seq<char>, int)>,
    files: Seq<(Seq<char>, int)>,
)
    requires
        listed_once(entries),
        counted(entries),
        counted(files),
    ensures
        listed_once(recorded_all(entries, files)),
        counted(recorded_all(entries, files)),
        total(recorded_all(entries, files)) >= total(entries),
    decreases files.len(),
{
    if files.len() > 0 {
        let rest = files.drop_first();
        assert(files[0].1 >= 0);
        assert forall|i: int| 0 <= i < rest.len() implies (#[trigger] rest[i]).1 >= 0 by {
            assert(rest[i] == files[i + 1]);
        }
        lemma_report(entries, files[0].0, files[0].1, files[0].0);
        lemma_reports_stay_sound(recorded(entries, files[0].0, files[0].1), rest);
    }
}

/// Until it is finished a bar never goes back: neither its position nor its length falls.
/// News of something else than a download changes nothing.
pub proof fn lemma_bar_never_goes_back(
    entries: Seq<(Seq<char>, int)>,
    event: NewsView,
    bar: Bar,
)
    requires
        !(event is Complete),
    ensures
        shown(bar, update_for(entries, event, bar)).position >= bar.position,
        bar.length matches Some(before) ==> shown(bar, update_for(entries, event, bar)).length
            matches Some(after) && after >= before,
        event is Other ==> tracked_after(entries, event) == entries && shown(
            bar,
            update_for(entries, event, bar),
        ) == bar,
{
}

/// Where a total is told, the bar is as long as the greatest that was told, or as it was
/// where it was longer; where the bytes are told with it, it stands there, or further where
/// it did. A start moves it nowhere, files do not lengthen it, and nothing but the end of the
/// download finishes it.
pub proof fn lemma_totals_are_shown(entries: Seq<(Seq<char>, int)>, event: NewsView, bar: Bar)
    ensures
        ({
            let after = shown(bar, update_for(entries, event, bar));
            &&& match event {
                NewsView::Start(length) => after.length == longest(bar.length, length)
                    && after.position == bar.position,
                NewsView::Aggregate(bytes, length) => after.length == longest(bar.length, length)
                    && after.position == greater(bar.position as int, bytes as int),
                _ => after.length == bar.length,
            }
            &&& update_for(entries, event, bar).finish <==> event is Complete
            &&& event is Complete ==> after == bar
        }),
{
}

/// The greater of a length, if it is known, and another.
pub open spec fn longest(known: Option<u64>, length: u64) -> Option<u64> {
    match known {
        Some(k) => Some(greater(k as int, length as int) as u64),
        None => Some(length),
    }
}

/// The files on record after all of `events`.
pub open spec fn record_after(events: Seq<NewsView>) -> Seq<(Seq<char>, int)>
    decreases events.len(),
{
    if events.len() == 0 {
        Seq::empty()
    } else {
        tracked_after(record_after(events.drop_last()), events.last())
    }
}

/// What `bar` shows after all of `events`, none of which is its end.
pub open spec fn bar_after(bar: Bar, events: Seq<NewsView>) -> Bar
    decreases events.len(),
{
    if events.len() == 0 {
        bar
    } else {
        let before = bar_after(bar, events.drop_last());
        shown(before, update_for(record_after(events.drop_last()), events.last(), before))
    }
}

/// Whether `events` report no file with less than nothing.
pub open spec fn well_reported(events: Seq<NewsView>) -> bool {
    forall|i: int|
        0 <= i < events.len() ==> ((#[trigger] events[i]) matches NewsView::Progress(files)
            ==> counted(files))
}

/// Whether none of `events` ends the download.
pub open spec fn underway(events: Seq<NewsView>) -> bool {
    forall|i: int| 0 <= i < events.len() ==> !((#[trigger] events[i]) is Complete)
}

/// All reports of files since the download was last started, in order.
pub open spec fn reports_since_start(events: Seq<NewsView>) -> Seq<(Seq<char>, int)>
    decreases events.len(),
{
    if events.len() == 0 {
        Seq::empty()
    } else {
        match events.last() {
            NewsView::Start(_) => Seq::empty(),
            NewsView::Progress(files) => reports_since_start(events.drop_last()) + files,
            _ => reports_since_start(events.drop_last()),
        }
    }
}

/// Whether `list` names the file `name`.
pub open spec fn lists(list: Seq<(Seq<char>, int)>, name: Seq<char>) -> bool {
    exists|i: int| 0 <= i < list.len() && (#[trigger] list[i]).0 == name
}

/// The most bytes that `reports` give for the file `name`; none where they do not name it.
pub open spec fn most_reported(reports: Seq<(Seq<char>, int)>, name: Seq<char>) -> int
    decreases reports.len(),
{
    if reports.len() == 0 {
        0
    } else if reports.last().0 == name {
        greater(most_reported(reports.drop_last(), name), reports.last().1)
    } else {
        most_reported(reports.drop_last(), name)
    }
}

/// The most bytes that `reports` give for each of the files `names`, together.
pub open spec fn sum_of_most(names: Seq<Seq<char>>, reports: Seq<(Seq<char>, int)>) -> int
    decreases names.len(),
{
    if names.len() == 0 {
        0
    } else {
        most_reported(reports, names[0]) + sum_of_most(names.drop_first(), reports)
    }
}

/// Whether `names` are the files that `reports` name, each of them once.
pub open spec fn files_of(names: Seq<Seq<char>>, reports: Seq<(Seq<char>, int)>) -> bool {
    &&& names.no_duplicates()
    &&& forall|name: Seq<char>| #[trigger] names.contains(name) <==> lists(reports, name)
}

/// Whether `entries` hold every file of `reports` once, with the most reported of it, and no
/// other file.
pub open spec fn holds_most(
    entries: Seq<(Seq<char>, int)>,
    reports: Seq<(Seq<char>, int)>,
) -> bool {
    &&& listed_once(entries)
    &&& forall|name: Seq<char>| #[trigger] lists(entries, name) <==> lists(reports, name)
    &&& forall|i: int|
        0 <= i < entries.len() ==> (#[trigger] entries[i]).1 == most_reported(reports, entries[i].0)
}

proof fn lemma_recorded_lists(
    entries: Seq<(Seq<char>, int)>,
    name: Seq<char>,
    bytes: int,
    other: Seq<char>,
)
    ensures
        lists(recorded(entries, name, bytes), other) <==> lists(entries, other) || other == name,
    decreases entries.len(),
{
    let all = recorded(entries, name, bytes);
    lemma_recorded_names(entries, name, bytes);
    if lists(all, other) {
        let i = choose|i: int| 0 <= i < all.len() && (#[trigger] all[i]).0 == other;
        if i < entries.len() {
            assert(entries[i].0 == other);
        } else {
            assert(all[i] == all.last());
        }
    }
    if lists(entries, other) {
        let i = choose|i: int| 0 <= i < entries.len() && (#[trigger] entries[i]).0 == other;
        assert(all[i].0 == other);
    }
    if entries.len() == 0 || entries[0].0 == name {
        assert(all[0].0 == name);
    } else {
        let rest = entries.drop_first();
        lemma_recorded_lists(rest, name, bytes, name);
        let tail = recorded(rest, name, bytes);
        let i = choose|i: int| 0 <= i < tail.len() && (#[trigger] tail[i]).0 == name;
        assert(all[i + 1] == tail[i]);
    }
}

proof fn lemma_bytes_of_entry(entries: Seq<(Seq<char>, int)>, i: int)
    requires
        listed_once(entries),
        0 <= i < entries.len(),
    ensures
        bytes_of(entries, entries[i].0) == entries[i].1,
    decreases entries.len(),
{
    if i > 0 {
        let rest = entries.drop_first();
        assert forall|j: int, k: int| 0 <= j < k < rest.len() implies rest[j].0 != rest[k].0 by {
            assert(rest[j] == entries[j + 1] && rest[k] == entries[k + 1]);
        }
        assert(entries[0].0 != entries[i].0);
        assert(rest[i - 1] == entries[i]);
        lemma_bytes_of_entry(rest, i - 1);
    }
}

spec fn mirrors(entries: Seq<(Seq<char>, int)>, reports: Seq<(Seq<char>, int)>) -> bool {
    &&& listed_once(entries)
    &&& counted(entries)
    &&& forall|name: Seq<char>| #[trigger] lists(entries, name) <==> lists(reports, name)
    &&& forall|name: Seq<char>| #[trigger]
        bytes_of(entries, name) == most_reported(reports, name)
}

proof fn lemma_report_mirrored(
    entries: Seq<(Seq<char>, int)>,
    reports: Seq<(Seq<char>, int)>,
    report: (Seq<char>, int),
)
    requires
        mirrors(entries, reports),
        report.1 >= 0,
    ensures
        mirrors(recorded(entries, report.0, report.1), reports.push(report)),
{
    let all = recorded(entries, report.0, report.1);
    let more = reports.push(report);
    assert(more.drop_last() == reports);
    lemma_report(entries, report.0, report.1, report.0);
    assert forall|name: Seq<char>| #[trigger] lists(all, name) <==> lists(more, name) by {
        lemma_recorded_lists(entries, report.0, report.1, name);
        assert(lists(entries, name) <==> lists(reports, name));
        if lists(reports, name) {
            let i = choose|i: int| 0 <= i < reports.len() && (#[trigger] reports[i]).0 == name;
            assert(more[i] == reports[i]);
        }
        if lists(more, name) {
            let i = choose|i: int| 0 <= i < more.len() && (#[trigger] more[i]).0 == name;
            if i < reports.len() {
                assert(reports[i].0 == name);
            }
        }
        assert(more[reports.len() as int].0 == report.0);
    }
    assert forall|name: Seq<char>| #[trigger]
        bytes_of(all, name) == most_reported(more, name) by {
        lemma_report(entries, report.0, report.1, name);
        assert(bytes_of(entries, name) == most_reported(reports, name));
    }
}

proof fn lemma_reports_mirrored(
    entries: Seq<(Seq<char>, int)>,
    reports: Seq<(Seq<char>, int)>,
    files: Seq<(Seq<char>, int)>,
)
    requires
        mirrors(entries, reports),
        counted(files),
    ensures
        mirrors(recorded_all(entries, files), reports + files),
    decreases files.len(),
{
    if files.len() == 0 {
        assert(reports + files == reports);
    } else {
        let rest = files.drop_first();
        assert(files[0].1 >= 0);
        assert forall|i: int| 0 <= i < rest.len() implies (#[trigger] rest[i]).1 >= 0 by {
            assert(rest[i] == files[i + 1]);
        }
        lemma_report_mirrored(entries, reports, files[0]);
        lemma_reports_mirrored(
            recorded(entries, files[0].0, files[0].1),
            reports.push(files[0]),
            rest,
        );
        assert(reports.push(files[0]) + rest == reports + files);
    }
}

proof fn lemma_record_mirrors(events: Seq<NewsView>)
    requires
        well_reported(events),
    ensures
        mirrors(record_after(events), reports_since_start(events)),
    decreases events.len(),
{
    if events.len() > 0 {
        let head = events.drop_last();
        assert forall|i: int| 0 <= i < head.len() implies ((
        #[trigger] head[i]) matches NewsView::Progress(files) ==> counted(files)) by {
            assert(head[i] == events[i]);
        }
        lemma_record_mirrors(head);
        assert(events[events.len() - 1] == events.last());
        if let NewsView::Progress(files) = events.last() {
            lemma_reports_mirrored(record_after(head), reports_since_start(head), files);
        }
    }
}

/// However a download went so far: on record are the files reported since it was last
/// started, each of them once, with the most that was ever reported of it since then.
pub proof fn lemma_record_holds_most(events: Seq<NewsView>)
    requires
        well_reported(events),
    ensures
        holds_most(record_after(events), reports_since_start(events)),
{
    lemma_record_mirrors(events);
    let entries = record_after(events);
    let reports = reports_since_start(events);
    assert forall|i: int| 0 <= i < entries.len() implies (#[trigger] entries[i]).1
        == most_reported(reports, entries[i].0) by {
        lemma_bytes_of_entry(entries, i);
        assert(bytes_of(entries, entries[i].0) == most_reported(reports, entries[i].0));
    }
}

proof fn lemma_sum_without(names: Seq<Seq<char>>, reports: Seq<(Seq<char>, int)>, k: int)
    requires
        0 <= k < names.len(),
    ensures
        sum_of_most(names, reports) == most_reported(reports, names[k]) + sum_of_most(
            names.remove(k),
            reports,
        ),
    decreases names.len(),
{
    let rest = names.drop_first();
    if k == 0 {
        assert(names.remove(0) == rest);
    } else {
        lemma_sum_without(rest, reports, k - 1);
        assert(names.remove(k).drop_first() == rest.remove(k - 1));
    }
}

proof fn lemma_total_is_sum(
    entries: Seq<(Seq<char>, int)>,
    names: Seq<Seq<char>>,
    reports: Seq<(Seq<char>, int)>,
)
    requires
        listed_once(entries),
        names.no_duplicates(),
        forall|name: Seq<char>| #[trigger] names.contains(name) <==> lists(entries, name),
        forall|i: int|
            0 <= i < entries.len() ==> (#[trigger] entries[i]).1 == most_reported(
                reports,
                entries[i].0,
            ),
    ensures
        total(entries) == sum_of_most(names, reports),
    decreases entries.len(),
{
    if entries.len() == 0 {
        if names.len() > 0 {
            assert(names.contains(names[0]));
        }
    } else {
        let first = entries[0].0;
        let rest = entries.drop_first();
        assert(lists(entries, first));
        assert(names.contains(first));
        let k = choose|k: int| 0 <= k < names.len() && names[k] == first;
        let others = names.remove(k);
        lemma_sum_without(names, reports, k);
        assert forall|i: int, j: int| 0 <= i < j < rest.len() implies rest[i].0 != rest[j].0 by {
            assert(rest[i] == entries[i + 1] && rest[j] == entries[j + 1]);
        }
        assert forall|i: int| 0 <= i < rest.len() implies (#[trigger] rest[i]).1 == most_reported(
            reports,
            rest[i].0,
        ) by {
            assert(rest[i] == entries[i + 1]);
        }
        assert forall|name: Seq<char>| #[trigger] others.contains(name) <==> lists(rest, name) by {
            if others.contains(name) {
                let i = choose|i: int| 0 <= i < others.len() && others[i] == name;
                let at = if i < k {
                    i
                } else {
                    i + 1
                };
                assert(names[at] == name);
                assert(names.contains(name));
                let j = choose|j: int| 0 <= j < entries.len() && (#[trigger] entries[j]).0 == name;
                assert(name != first);
                assert(rest[j - 1] == entries[j]);
            }
            if lists(rest, name) {
                let j = choose|j: int| 0 <= j < rest.len() && (#[trigger] rest[j]).0 == name;
                assert(entries[j + 1] == rest[j]);
                assert(lists(entries, name));
                assert(names.contains(name));
                let i = choose|i: int| 0 <= i < names.len() && names[i] == name;
                assert(entries[0].0 != entries[j + 1].0);
                if i < k {
                    assert(others[i] == name);
                } else {
                    assert(others[i - 1] == name);
                }
            }
        }
        lemma_total_is_sum(rest, others, reports);
    }
}

/// However a download went so far: where files are reported, the bar comes to stand at the
/// bytes of all files reported since the last start together, each with the most ever
/// reported of it since then, unless it stands further already. Its length stays.
pub proof fn lemma_position_is_sum_of_most(
    bar: Bar,
    events: Seq<NewsView>,
    files: Seq<(Seq<char>, int)>,
    names: Seq<Seq<char>>,
)
    requires
        well_reported(events.push(NewsView::Progress(files))),
        files_of(names, reports_since_start(events.push(NewsView::Progress(files)))),
        sum_of_most(names, reports_since_start(events.push(NewsView::Progress(files))))
            <= u64::MAX,
    ensures
        ({
            let all = events.push(NewsView::Progress(files));
            let after = shown(
                bar,
                update_for(record_after(events), NewsView::Progress(files), bar),
            );
            &&& after.position == greater(
                bar.position as int,
                sum_of_most(names, reports_since_start(all)),
            )
            &&& after.length == bar.length
            &&& total(record_after(all)) == sum_of_most(names, reports_since_start(all))
        }),
{
    let all = events.push(NewsView::Progress(files));
    let entries = record_after(all);
    let reports = reports_since_start(all);
    assert(all.drop_last() == events);
    lemma_record_mirrors(all);
    lemma_record_holds_most(all);
    assert forall|name: Seq<char>| #[trigger] names.contains(name) <==> lists(entries, name) by {
        assert(lists(entries, name) <==> lists(reports, name));
    }
    lemma_total_is_sum(entries, names, reports);
    lemma_total_not_negative(entries);
}

/// Whatever comes behind, until the bar is finished it never goes back.
pub proof fn lemma_download_never_goes_back(bar: Bar, events: Seq<NewsView>, more: Seq<NewsView>)
    requires
        underway(events + more),
    ensures
        bar_after(bar, events + more).position >= bar_after(bar, events).position,
        bar_after(bar, events).length matches Some(before) ==> bar_after(bar, events + more).length
            matches Some(after) && after >= before,
    decreases more.len(),
{
    let all = events + more;
    if more.len() == 0 {
        assert(all == events);
    } else {
        assert(all.drop_last() == events + more.drop_last());
        assert forall|i: int| 0 <= i < all.len() - 1 implies !((
        #[trigger] all.drop_last()[i]) is Complete) by {
            assert(all.drop_last()[i] == all[i]);
        }
        lemma_download_never_goes_back(bar, events, more.drop_last());
        assert(all[all.len() - 1] == all.last());
        lemma_bar_never_goes_back(
            record_after(all.drop_last()),
            all.last(),
            bar_after(bar, all.drop_last()),
        );
    }
}

/// The files of a download, and how much of each is there.
pub struct PrintProgress {
    files: Vec<FileProgress>,
}

impl View for PrintProgress {
    type V = Seq<(Seq<char>, int)>;

    closed spec fn view(&self) -> Seq<(Seq<char>, int)> {
        file_seq(self.files@)
    }
}

fn report(files: &mut Vec<FileProgress>, name: &String, bytes: u64)
    ensures
        file_seq(final(files)@) == recorded(file_seq(old(files)@), name@, bytes as int),
{
    let ghost before = file_seq(files@);
    let mut i: usize = 0;
    while i < files.len()
        invariant
            i <= files@.len(),
            before == file_seq(files@),
            files@ == old(files)@,
            forall|j: int| 0 <= j < i ==> (#[trigger] before[j]).0 != name@,
        decreases files@.len() - i,
    {
        assert(before[i as int] == files@[i as int]@);
        if files[i].filename == *name {
            let known: u64 = files[i].bytes_completed;
            let most: u64 = if bytes > known {
                bytes
            } else {
                known
            };
            let entry = FileProgress { filename: name.clone(), bytes_completed: most };
            files.set(i, entry);
            proof {
                lemma_recorded_at(before, name@, bytes as int, i as int);
                assert(file_seq(files@) == before.update(
                    i as int,
                    (name@, greater(known as int, bytes as int)),
                ));
            }
            return ;
        }
        i = i + 1;
    }
    files.push(FileProgress { filename: name.clone(), bytes_completed: bytes });
    proof {
        lemma_recorded_new(before, name@, bytes as int);
        assert(file_seq(files@) == before.push((name@, bytes as int)));
    }
}

proof fn lemma_recorded_at(
    entries: Seq<(Seq<char>, int)>,
    name: Seq<char>,
    bytes: int,
    at: int,
)
    requires
        0 <= at < entries.len(),
        entries[at].0 == name,
        forall|j: int| 0 <= j < at ==> (#[trigger] entries[j]).0 != name,
    ensures
        recorded(entries, name, bytes) == entries.update(
            at,
            (name, greater(entries[at].1, bytes)),
        ),
    decreases at,
{
    let want = entries.update(at, (name, greater(entries[at].1, bytes)));
    if at == 0 {
        assert(recorded(entries, name, bytes) == want);
    } else {
        assert(entries[0].0 != name);
        let rest = entries.drop_first();
        assert forall|j: int| 0 <= j < at - 1 implies (#[trigger] rest[j]).0 != name by {
            assert(rest[j] == entries[j + 1]);
        }
        lemma_recorded_at(rest, name, bytes, at - 1);
        assert(recorded(entries, name, bytes) == want);
    }
}

proof fn lemma_recorded_new(entries: Seq<(Seq<char>, int)>, name: Seq<char>, bytes: int)
    requires
        forall|j: int| 0 <= j < entries.len() ==> (#[trigger] entries[j]).0 != name,
    ensures
        recorded(entries, name, bytes) == entries.push((name, bytes)),
    decreases entries.len(),
{
    let want = entries.push((name, bytes));
    if entries.len() == 0 {
        assert(recorded(entries, name, bytes) == want);
    } else {
        assert(entries[0].0 != name);
        let rest = entries.drop_first();
        assert forall|j: int| 0 <= j < rest.len() implies (#[trigger] rest[j]).0 != name by {
            assert(rest[j] == entries[j + 1]);
        }
        lemma_recorded_new(rest, name, bytes);
        assert(recorded(entries, name, bytes) == want);
    }
}

fn report_all(files: &mut Vec<FileProgress>, news: &Vec<FileProgress>)
    ensures
        file_seq(final(files)@) == recorded_all(file_seq(old(files)@), file_seq(news@)),
{
    let ghost all = file_seq(news@);
    let ghost start = file_seq(files@);
    let mut i: usize = 0;
    assert(all.skip(0) == all);
    while i < news.len()
        invariant
            i <= news@.len(),
            all == file_seq(news@),
            recorded_all(file_seq(files@), all.skip(i as int)) == recorded_all(start, all),
        decreases news@.len() - i,
    {
        proof {
            assert(all.skip(i as int)[0] == news@[i as int]@);
            assert(all.skip(i as int).drop_first() == all.skip(i + 1));
        }
        report(files, &news[i].filename, news[i].bytes_completed);
        i = i + 1;
    }
    assert(all.skip(i as int).len() == 0);
}

fn sum(files: &Vec<FileProgress>) -> (r: Option<u64>)
    ensures
        match r {
            Some(n) => n == total(file_seq(files@)),
            None => total(file_seq(files@)) > u64::MAX,
        },
{
    let ghost all = file_seq(files@);
    let mut n: u64 = 0;
    let mut i: usize = 0;
    assert(all.take(0) == Seq::<(Seq<char>, int)>::empty());
    while i < files.len()
        invariant
            i <= files@.len(),
            all == file_seq(files@),
            n == total(all.take(i as int)),
        decreases files@.len() - i,
    {
        let bytes: u64 = files[i].bytes_completed;
        proof {
            assert(all[i as int].1 == bytes);
            assert(counted(all));
            lemma_total_of_part(all, i as int);
        }
        if bytes > u64::MAX - n {
            return None;
        }
        n = n + bytes;
        i = i + 1;
    }
    assert(all.take(i as int) == all);
    Some(n)
}

fn copied(files: &Vec<FileProgress>) -> (r: Vec<FileProgress>)
    ensures
        file_seq(r@) == file_seq(files@),
{
    let mut r: Vec<FileProgress> = Vec::new();
    let mut i: usize = 0;
    while i < files.len()
        invariant
            i <= files@.len(),
            r@.len() == i,
            forall|j: int| 0 <= j < i ==> (#[trigger] r@[j])@ == files@[j]@,
        decreases files@.len() - i,
    {
        let filename = files[i].filename.clone();
        r.push(FileProgress { filename, bytes_completed: files[i].bytes_completed });
        i = i + 1;
    }
    r
}

impl PrintProgress {
    /// No file is on record twice.
    pub open spec fn wf(&self) -> bool {
        listed_once(self@)
    }

    /// Nothing is on record at first.
    pub fn new() -> (r: PrintProgress)
        ensures
            r.wf(),
            r@ == Seq::<(Seq<char>, int)>::empty(),
    {
        let r = PrintProgress { files: Vec::new() };
        assert(r@ == Seq::<(Seq<char>, int)>::empty());
        r
    }

    /// Whether the bytes of all files can still be counted after some news.
    pub fn can_count(&self, event: &ProgressEvent) -> (r: bool)
        ensures
            r == (event@ is Progress ==> total(tracked_after(self@, event@)) <= u64::MAX),
    {
        match event {
            ProgressEvent::Download(DownloadEvent::Progress { files }) => {
                let mut after = copied(&self.files);
                report_all(&mut after, files);
                sum(&after).is_some()
            },
            _ => true,
        }
    }

    /// Takes news, and tells what is to change about the bar: nothing where it is of
    /// something else than a download.
    pub fn on_progress(&mut self, event: &ProgressEvent, bar: Bar) -> (r: BarUpdate)
        requires
            old(self).wf(),
            event@ is Progress ==> total(tracked_after(old(self)@, event@)) <= u64::MAX,
        ensures
            final(self).wf(),
            final(self)@ == tracked_after(old(self)@, event@),
            r == update_for(old(self)@, event@, bar),
    {
        proof {
            lemma_record_stays_sound(self@, event@);
        }
        let event = match event {
            ProgressEvent::Download(event) => event,
            ProgressEvent::Other => {
                return BarUpdate { length: None, position: None, finish: false };
            },
        };
        match event {
            DownloadEvent::Start { total_bytes } => {
                self.files = Vec::new();
                assert(self@ == Seq::<(Seq<char>, int)>::empty());
                BarUpdate {
                    length: set_length(bar.length, *total_bytes),
                    position: None,
                    finish: false,
                }
            },
            DownloadEvent::Progress { files } => {
                report_all(&mut self.files, files);
                let position: Option<u64> = match sum(&self.files) {
                    Some(n) => set_position(bar.position, n),
                    None => None,
                };
                BarUpdate { length: None, position, finish: false }
            },
            DownloadEvent::AggregateProgress { bytes_completed, total_bytes } => BarUpdate {
                length: set_length(bar.length, *total_bytes),
                position: set_position(bar.position, *bytes_completed),
                finish: false,
            },
            DownloadEvent::Complete => BarUpdate { length: None, position: None, finish: true },
        }
    }
}

} // verus!
