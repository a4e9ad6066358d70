//! The files of a delivery: where they go, what is done with them, and what is
//! removed again where that fails.
use crate::text::{
    decimal, decimal_string, lemma_decimal_digits, lemma_decimal_injective, optional_text,
};
use vstd::prelude::*;

verus! {

/// One of the three configured directories.
#[derive(Clone, Copy, Debug, PartialEq, Eq, Structural)]
pub enum Root {
    Inbox,
    Cleaned,
    Temp,
}

/// A file in a configured directory, or in a folder in it.
#[derive(Clone, Debug, PartialEq, Eq)]
pub struct FilePath {
    pub root: Root,
    pub folder: Option<String>,
    pub name: String,
}

/// What a `FilePath` says.
pub struct FileView {
    pub root: Root,
    pub folder: Option<Seq<char>>,
    pub name: Seq<char>,
}

impl View for FilePath {
    type V = FileView;

    open spec fn view(&self) -> FileView {
        FileView { root: self.root, folder: optional_text(self.folder), name: self.name@ }
    }
}

/// Which of the two copies of a message.
#[derive(Clone, Copy, Debug, PartialEq, Eq, Structural)]
pub enum Content {
    Message,
    CleanedCopy,
}

/// One thing to do with files.
#[derive(Clone, Debug, PartialEq, Eq)]
pub enum FileOp {
    /// Create a directory, and those that it stands in, unless it is there.
    CreateDir { root: Root, folder: Option<String> },
    /// Write a copy of the message to a file.
    Write { file: FilePath, content: Content },
    /// Move a file to another place, in place of what is there.
    Rename { from: FilePath, to: FilePath },
}

/// What a `FileOp` says.
pub enum OpView {
    CreateDir { root: Root, folder: Option<Seq<char>> },
    Write { file: FileView, content: Content },
    Rename { from: FileView, to: FileView },
}

impl View for FileOp {
    type V = OpView;

    open spec fn view(&self) -> OpView {
        match *self {
            FileOp::CreateDir { root, folder } => OpView::CreateDir {
                root,
                folder: optional_text(folder),
            },
            FileOp::Write { file, content } => OpView::Write { file: file@, content },
            FileOp::Rename { from, to } => OpView::Rename { from: from@, to: to@ },
        }
    }
}

/// One step of a delivery. Where it fails the delivery has failed, and these files
/// are removed.
#[derive(Clone, Debug, PartialEq, Eq)]
pub struct Step {
    pub op: FileOp,
    pub undo: Vec<FilePath>,
}

/// What a `Step` says.
pub struct StepView {
    pub op: OpView,
    pub undo: Seq<FileView>,
}

/// What files say.
pub open spec fn file_views(files: Seq<FilePath>) -> Seq<FileView> {
    Seq::new(files.len(), |i: int| files[i]@)
}

/// What steps say.
pub open spec fn step_views(steps: Seq<Step>) -> Seq<StepView> {
    Seq::new(
        steps.len(),
        |i: int| StepView { op: steps[i].op@, undo: file_views(steps[i].undo@) },
    )
}

/// The texts of optional strings.
pub open spec fn optional_texts(v: Seq<Option<String>>) -> Seq<Option<Seq<char>>> {
    Seq::new(v.len(), |i: int| optional_text(v[i]))
}

/// The name of a temporary file: it tells apart deliveries, the folders of one
/// delivery, and the two copies of a message.
pub open spec fn temp_name(
    filename: Seq<char>,
    delivery_id: nat,
    index: nat,
    content: Content,
) -> Seq<char> {
    filename + "."@ + decimal(delivery_id) + "."@ + decimal(index) + match content {
        Content::Message => ".tmp"@,
        Content::CleanedCopy => ".cleaned.tmp"@,
    }
}

/// A delivery: the name of the message, the number of the delivery, and the folders
/// that the message goes to, `None` for the inbox itself.
#[derive(Debug)]
pub struct Job {
    pub filename: String,
    pub delivery_id: u64,
    pub targets: Vec<Option<String>>,
}

/// What a `Job` says.
pub struct JobView {
    pub filename: Seq<char>,
    pub delivery_id: nat,
    pub targets: Seq<Option<Seq<char>>>,
}

impl View for Job {
    type V = JobView;

    open spec fn view(&self) -> JobView {
        JobView {
            filename: self.filename@,
            delivery_id: self.delivery_id as nat,
            targets: optional_texts(self.targets@),
        }
    }
}

impl JobView {
    /// The temporary file for a target.
    pub open spec fn temp(self, k: int, content: Content) -> FileView {
        FileView {
            root: Root::Temp,
            folder: None,
            name: temp_name(self.filename, self.delivery_id, k as nat, content),
        }
    }

    /// The file in which a target's message stands in the end.
    pub open spec fn stored(self, k: int) -> FileView {
        FileView { root: Root::Inbox, folder: self.targets[k], name: self.filename }
    }

    /// The file in which a target's cleaned copy stands in the end.
    pub open spec fn cleaned(self, k: int) -> FileView {
        FileView { root: Root::Cleaned, folder: self.targets[k], name: self.filename }
    }

    /// The messages of the first targets.
    pub open spec fn stored_files(self, n: int) -> Seq<FileView> {
        Seq::new(n as nat, |k: int| self.stored(k))
    }

    /// The cleaned copies of the first targets.
    pub open spec fn cleaned_files(self, n: int) -> Seq<FileView> {
        Seq::new(n as nat, |k: int| self.cleaned(k))
    }

    /// The steps for one target: both copies are written to temporary files and then
    /// moved to their places.
    pub open spec fn target_steps(self, k: int) -> Seq<StepView> {
        let earlier = self.stored_files(k) + self.cleaned_files(k);
        let temp = self.temp(k, Content::Message);
        let cleaned_temp = self.temp(k, Content::CleanedCopy);
        seq![
            StepView {
                op: OpView::CreateDir { root: Root::Inbox, folder: self.targets[k] },
                undo: Seq::empty(),
            },
            StepView {
                op: OpView::CreateDir { root: Root::Cleaned, folder: self.targets[k] },
                undo: Seq::empty(),
            },
            StepView {
                op: OpView::Write { file: temp, content: Content::Message },
                undo: Seq::empty(),
            },
            StepView {
                op: OpView::Write { file: cleaned_temp, content: Content::CleanedCopy },
                undo: Seq::empty(),
            },
            StepView {
                op: OpView::Rename { from: temp, to: self.stored(k) },
                undo: seq![temp, cleaned_temp] + earlier,
            },
            StepView {
                op: OpView::Rename { from: cleaned_temp, to: self.cleaned(k) },
                undo: seq![cleaned_temp, self.stored(k)] + earlier,
            },
        ]
    }

    /// The steps for the first targets.
    pub open spec fn steps(self, n: nat) -> Seq<StepView>
        decreases n,
    {
        if n == 0 {
            Seq::empty()
        } else {
            self.steps((n - 1) as nat) + self.target_steps(n - 1)
        }
    }

    /// The steps of the delivery.
    pub open spec fn all_steps(self) -> Seq<StepView> {
        self.steps(self.targets.len())
    }
}

fn copy_folder(folder: &Option<String>) -> (r: Option<String>)
    ensures
        optional_text(r) == optional_text(*folder),
{
    match folder {
        Some(name) => Some(name.as_str().to_owned()),
        None => None,
    }
}

impl Job {
    fn temp_file(&self, index: usize, content: Content) -> (r: FilePath)
        ensures
            r@ == self@.temp(index as int, content),
    {
        let mut name = self.filename.as_str().to_owned();
        name.append(".");
        name.append(decimal_string(self.delivery_id).as_str());
        name.append(".");
        name.append(decimal_string(index as u64).as_str());
        match content {
            Content::Message => {
                name.append(".tmp");
            },
            Content::CleanedCopy => {
                name.append(".cleaned.tmp");
            },
        }
        assert(name@ =~= temp_name(
            self.filename@,
            self.delivery_id as nat,
            index as nat,
            content,
        ));
        FilePath { root: Root::Temp, folder: None, name }
    }

    fn final_file(&self, index: usize, root: Root) -> (r: FilePath)
        requires
            index < self.targets@.len(),
        ensures
            r@ == (FileView { root, folder: self@.targets[index as int], name: self@.filename }),
    {
        FilePath {
            root,
            folder: copy_folder(&self.targets[index]),
            name: self.filename.as_str().to_owned(),
        }
    }

    fn append_final_files(&self, files: &mut Vec<FilePath>, root: Root, count: usize)
        requires
            count <= self.targets@.len(),
        ensures
            file_views(final(files)@) == file_views(old(files)@) + Seq::new(
                count as nat,
                |k: int|
                    FileView { root, folder: self@.targets[k], name: self@.filename },
            ),
    {
        let ghost wanted = Seq::new(
            count as nat,
            |k: int| FileView { root, folder: self@.targets[k], name: self@.filename },
        );
        let ghost before = file_views(files@);
        assert(file_views(files@) =~= before + wanted.take(0));
        let mut k: usize = 0;
        while k < count
            invariant
                k <= count <= self.targets@.len(),
                wanted == Seq::new(
                    count as nat,
                    |k: int| FileView { root, folder: self@.targets[k], name: self@.filename },
                ),
                file_views(files@) == before + wanted.take(k as int),
            decreases count - k,
        {
            let ghost so_far = file_views(files@);
            let file = self.final_file(k, root);
            files.push(file);
            assert(file_views(files@) =~= so_far.push(wanted[k as int]));
            assert(so_far.push(wanted[k as int]) =~= before + wanted.take(k + 1));
            k = k + 1;
        }
        assert(wanted.take(count as int) =~= wanted);
    }

    fn undo_files(&self, first: FilePath, second: FilePath, count: usize) -> (r: Vec<FilePath>)
        requires
            count <= self.targets@.len(),
        ensures
            file_views(r@) == seq![first@, second@] + (self@.stored_files(count as int)
                + self@.cleaned_files(count as int)),
    {
        let mut files: Vec<FilePath> = Vec::new();
        files.push(first);
        files.push(second);
        assert(file_views(files@) =~= seq![first@, second@]);
        self.append_final_files(&mut files, Root::Inbox, count);
        self.append_final_files(&mut files, Root::Cleaned, count);
        assert(file_views(files@) =~= seq![first@, second@] + (self@.stored_files(count as int)
            + self@.cleaned_files(count as int)));
        files
    }

    fn append_target_steps(&self, steps: &mut Vec<Step>, k: usize)
        requires
            k < self.targets@.len(),
        ensures
            step_views(final(steps)@) == step_views(old(steps)@) + self@.target_steps(k as int),
    {
        let ghost before = step_views(steps@);
        let create = Step {
            op: FileOp::CreateDir { root: Root::Inbox, folder: copy_folder(&self.targets[k]) },
            undo: Vec::new(),
        };
        let create_cleaned = Step {
            op: FileOp::CreateDir { root: Root::Cleaned, folder: copy_folder(&self.targets[k]) },
            undo: Vec::new(),
        };
        let write = Step {
            op: FileOp::Write {
                file: self.temp_file(k, Content::Message),
                content: Content::Message,
            },
            undo: Vec::new(),
        };
        let write_cleaned = Step {
            op: FileOp::Write {
                file: self.temp_file(k, Content::CleanedCopy),
                content: Content::CleanedCopy,
            },
            undo: Vec::new(),
        };
        let rename = Step {
            op: FileOp::Rename {
                from: self.temp_file(k, Content::Message),
                to: self.final_file(k, Root::Inbox),
            },
            undo: self.undo_files(
                self.temp_file(k, Content::Message),
                self.temp_file(k, Content::CleanedCopy),
                k,
            ),
        };
        let rename_cleaned = Step {
            op: FileOp::Rename {
                from: self.temp_file(k, Content::CleanedCopy),
                to: self.final_file(k, Root::Cleaned),
            },
            undo: self.undo_files(
                self.temp_file(k, Content::CleanedCopy),
                self.final_file(k, Root::Inbox),
                k,
            ),
        };
        let ghost added = seq![create, create_cleaned, write, write_cleaned, rename, rename_cleaned];
        steps.push(create);
        steps.push(create_cleaned);
        steps.push(write);
        steps.push(write_cleaned);
        steps.push(rename);
        steps.push(rename_cleaned);
        assert(file_views(create.undo@) =~= Seq::empty());
        assert(file_views(create_cleaned.undo@) =~= Seq::empty());
        assert(file_views(write.undo@) =~= Seq::empty());
        assert(file_views(write_cleaned.undo@) =~= Seq::empty());
        assert(step_views(added) =~= self@.target_steps(k as int));
        assert(step_views(steps@) =~= before + step_views(added));
    }

    /// The steps of the delivery, in their order.
    pub fn steps(&self) -> (r: Vec<Step>)
        ensures
            step_views(r@) == self@.all_steps(),
    {
        let mut steps: Vec<Step> = Vec::new();
        assert(step_views(steps@) =~= self@.steps(0));
        let mut k: usize = 0;
        while k < self.targets.len()
            invariant
                k <= self.targets@.len(),
                step_views(steps@) == self@.steps(k as nat),
            decreases self.targets@.len() - k,
        {
            self.append_target_steps(&mut steps, k);
            k = k + 1;
        }
        steps
    }

    /// The files in which the message stands after the delivery.
    pub fn stored_files(&self) -> (r: Vec<FilePath>)
        ensures
            file_views(r@) == self@.stored_files(self@.targets.len() as int),
    {
        let mut files: Vec<FilePath> = Vec::new();
        self.append_final_files(&mut files, Root::Inbox, self.targets.len());
        assert(file_views(files@) =~= self@.stored_files(self@.targets.len() as int));
        files
    }
}

/// The steps before any message is looked at: the configured directories are there.
pub open spec fn preparation() -> Seq<StepView> {
    seq![
        StepView {
            op: OpView::CreateDir { root: Root::Inbox, folder: None },
            undo: Seq::empty(),
        },
        StepView {
            op: OpView::CreateDir { root: Root::Cleaned, folder: None },
            undo: Seq::empty(),
        },
        StepView {
            op: OpView::CreateDir { root: Root::Temp, folder: None },
            undo: Seq::empty(),
        },
    ]
}

/// The steps before any message is looked at.
pub fn preparation_steps() -> (r: Vec<Step>)
    ensures
        step_views(r@) == preparation(),
{
    let mut steps: Vec<Step> = Vec::new();
    let inbox = Step {
        op: FileOp::CreateDir { root: Root::Inbox, folder: None },
        undo: Vec::new(),
    };
    let cleaned = Step {
        op: FileOp::CreateDir { root: Root::Cleaned, folder: None },
        undo: Vec::new(),
    };
    let temp = Step { op: FileOp::CreateDir { root: Root::Temp, folder: None }, undo: Vec::new() };
    assert(file_views(inbox.undo@) =~= Seq::empty());
    assert(file_views(cleaned.undo@) =~= Seq::empty());
    assert(file_views(temp.undo@) =~= Seq::empty());
    steps.push(inbox);
    steps.push(cleaned);
    steps.push(temp);
    assert(step_views(steps@) =~= preparation());
    steps
}

// ---------------------------------------------------------------------------
// Laws
// ---------------------------------------------------------------------------
/// The files in the configured directories, with what they hold.
pub type Files = Map<FileView, Seq<u8>>;

/// The two copies of a message.
pub struct Copies {
    pub content: Seq<u8>,
    pub cleaned: Seq<u8>,
}

impl Copies {
    /// The bytes of a copy.
    pub open spec fn bytes(self, content: Content) -> Seq<u8> {
        match content {
            Content::Message => self.content,
            Content::CleanedCopy => self.cleaned,
        }
    }
}

/// The files after something was done with them.
pub open spec fn performed(files: Files, op: OpView, copies: Copies) -> Files {
    match op {
        OpView::CreateDir { .. } => files,
        OpView::Write { file, content } => files.insert(file, copies.bytes(content)),
        OpView::Rename { from, to } => files.remove(from).insert(to, files[from]),
    }
}

/// The files after these steps were taken.
pub open spec fn after_steps(files: Files, steps: Seq<StepView>, copies: Copies) -> Files
    decreases steps.len(),
{
    if steps.len() == 0 {
        files
    } else {
        performed(after_steps(files, steps.drop_last(), copies), steps.last().op, copies)
    }
}

/// The files without those that are removed.
pub open spec fn without_files(files: Files, removed: Seq<FileView>) -> Files {
    files.remove_keys(removed.to_set())
}

/// The steps up to one target's, and the first of that target's.
pub open spec fn steps_so_far(job: JobView, k: int, j: int) -> Seq<StepView> {
    job.steps(k as nat) + job.target_steps(k).take(j)
}

/// The files during the delivery to a target.
pub open spec fn files_so_far(
    files: Files,
    job: JobView,
    copies: Copies,
    k: int,
    j: int,
) -> Files {
    after_steps(files, steps_so_far(job, k, j), copies)
}

proof fn lemma_after_steps_splits(
    files: Files,
    first: Seq<StepView>,
    second: Seq<StepView>,
    copies: Copies,
)
    ensures
        after_steps(files, first + second, copies) == after_steps(
            after_steps(files, first, copies),
            second,
            copies,
        ),
    decreases second.len(),
{
    if second.len() == 0 {
        assert(first + second =~= first);
    } else {
        lemma_after_steps_splits(files, first, second.drop_last(), copies);
        assert((first + second).drop_last() =~= first + second.drop_last());
        assert((first + second).last() == second.last());
    }
}

/// The files after the first steps for a target, from those before them.
spec fn target_files(files: Files, job: JobView, copies: Copies, k: int, j: int) -> Files {
    let temp = job.temp(k, Content::Message);
    let cleaned_temp = job.temp(k, Content::CleanedCopy);
    let written = files.insert(temp, copies.content);
    let both = written.insert(cleaned_temp, copies.cleaned);
    let moved = both.remove(temp).insert(job.stored(k), both[temp]);
    if j <= 2 {
        files
    } else if j == 3 {
        written
    } else if j == 4 {
        both
    } else if j == 5 {
        moved
    } else {
        moved.remove(cleaned_temp).insert(job.cleaned(k), moved[cleaned_temp])
    }
}

proof fn lemma_target_files(files: Files, job: JobView, copies: Copies, k: int, j: int)
    requires
        0 <= j <= 6,
    ensures
        after_steps(files, job.target_steps(k).take(j), copies) == target_files(
            files,
            job,
            copies,
            k,
            j,
        ),
    decreases j,
{
    let steps = job.target_steps(k);
    if j > 0 {
        lemma_target_files(files, job, copies, k, j - 1);
        assert(steps.take(j).drop_last() =~= steps.take(j - 1));
        assert(steps.take(j).last() == steps[j - 1]);
    }
}

proof fn lemma_temp_names_differ(job: JobView, k: int)
    ensures
        job.temp(k, Content::Message) != job.temp(k, Content::CleanedCopy),
{
    reveal_strlit(".tmp");
    reveal_strlit(".cleaned.tmp");
    assert(job.temp(k, Content::Message).name.len() != job.temp(k, Content::CleanedCopy).name.len());
}

/// Whether every file was there before and is as it was, but for what the delivery
/// has put in place for the first targets.
spec fn grown_by(files: Files, now: Files, job: JobView, copies: Copies, k: int) -> bool {
    forall|f: FileView| #[trigger]
        now.contains_key(f) ==> (files.contains_key(f) && now[f] == files[f]) || (job.stored_files(
            k,
        ).contains(f) && now[f] == copies.content) || (job.cleaned_files(k).contains(f) && now[f]
            == copies.cleaned)
}

proof fn lemma_grown(files: Files, job: JobView, copies: Copies, k: nat)
    ensures
        grown_by(files, after_steps(files, job.steps(k), copies), job, copies, k as int),
        forall|i: int|
            0 <= i < k ==> {
                let now = after_steps(files, job.steps(k), copies);
                &&& now.contains_key(#[trigger] job.stored(i))
                &&& now[job.stored(i)] == copies.content
                &&& now.contains_key(job.cleaned(i))
                &&& now[job.cleaned(i)] == copies.cleaned
                &&& !now.contains_key(job.temp(i, Content::Message))
                &&& !now.contains_key(job.temp(i, Content::CleanedCopy))
            },
    decreases k,
{
    if k > 0 {
        let n = k - 1;
        let before = after_steps(files, job.steps(n as nat), copies);
        let now = after_steps(files, job.steps(k), copies);
        lemma_grown(files, job, copies, n as nat);
        lemma_after_steps_splits(files, job.steps(n as nat), job.target_steps(n), copies);
        assert(job.target_steps(n).take(6) =~= job.target_steps(n));
        lemma_target_files(before, job, copies, n, 6);
        lemma_temp_names_differ(job, n);
        assert(now == target_files(before, job, copies, n, 6));
        assert forall|f: FileView| #[trigger] now.contains_key(f) implies (files.contains_key(f)
            && now[f] == files[f]) || (job.stored_files(k as int).contains(f) && now[f]
            == copies.content) || (job.cleaned_files(k as int).contains(f) && now[f]
            == copies.cleaned) by {
            if f == job.stored(n) {
                assert(job.stored_files(k as int)[n] == f);
            } else if f == job.cleaned(n) {
                assert(job.cleaned_files(k as int)[n] == f);
            } else {
                assert(before.contains_key(f) && before[f] == now[f]);
                if job.stored_files(n).contains(f) {
                    let i = choose|i: int| 0 <= i < n && job.stored_files(n)[i] == f;
                    assert(job.stored_files(k as int)[i] == f);
                }
                if job.cleaned_files(n).contains(f) {
                    let i = choose|i: int| 0 <= i < n && job.cleaned_files(n)[i] == f;
                    assert(job.cleaned_files(k as int)[i] == f);
                }
            }
        }
        assert forall|i: int| 0 <= i < k implies {
            &&& now.contains_key(#[trigger] job.stored(i))
            &&& now[job.stored(i)] == copies.content
            &&& now.contains_key(job.cleaned(i))
            &&& now[job.cleaned(i)] == copies.cleaned
            &&& !now.contains_key(job.temp(i, Content::Message))
            &&& !now.contains_key(job.temp(i, Content::CleanedCopy))
        } by {
            if i < n {
                assert(before.contains_key(job.stored(i)));
            }
        }
    }
}

/// After a delivery the message and its cleaned copy stand complete in every folder
/// that the message goes to, and no temporary file is left.
pub proof fn law_delivery_stores_both_copies(files: Files, job: JobView, copies: Copies, i: int)
    requires
        0 <= i < job.targets.len(),
    ensures
        ({
            let now = after_steps(files, job.all_steps(), copies);
            &&& now.contains_key(job.stored(i)) && now[job.stored(i)] == copies.content
            &&& now.contains_key(job.cleaned(i)) && now[job.cleaned(i)] == copies.cleaned
            &&& !now.contains_key(job.temp(i, Content::Message))
            &&& !now.contains_key(job.temp(i, Content::CleanedCopy))
        }),
{
    lemma_grown(files, job, copies, job.targets.len());
}

/// At no time does an inbox show part of a message: whatever stands there was there
/// before, or is a complete copy.
pub proof fn law_inboxes_hold_only_complete_files(
    files: Files,
    job: JobView,
    copies: Copies,
    k: int,
    j: int,
    file: FileView,
)
    requires
        0 <= k < job.targets.len(),
        0 <= j <= 6,
        file.root != Root::Temp,
        files_so_far(files, job, copies, k, j).contains_key(file),
    ensures
        ({
            let now = files_so_far(files, job, copies, k, j);
            ||| files.contains_key(file) && now[file] == files[file]
            ||| file.root == Root::Inbox && now[file] == copies.content
            ||| file.root == Root::Cleaned && now[file] == copies.cleaned
        }),
{
    let before = after_steps(files, job.steps(k as nat), copies);
    lemma_grown(files, job, copies, k as nat);
    lemma_after_steps_splits(files, job.steps(k as nat), job.target_steps(k).take(j), copies);
    lemma_target_files(before, job, copies, k, j);
    lemma_temp_names_differ(job, k);
    let now = files_so_far(files, job, copies, k, j);
    if before.contains_key(file) && before[file] == now[file] {
        if job.stored_files(k).contains(file) {
            let i = choose|i: int| 0 <= i < k && job.stored_files(k)[i] == file;
            assert(file == job.stored(i));
        }
        if job.cleaned_files(k).contains(file) {
            let i = choose|i: int| 0 <= i < k && job.cleaned_files(k)[i] == file;
            assert(file == job.cleaned(i));
        }
    }
}

/// Where a file cannot be moved to its place, nothing of the delivery is left:
/// every file that is still there was there before and is as it was.
pub proof fn law_failed_delivery_leaves_nothing(
    files: Files,
    job: JobView,
    copies: Copies,
    k: int,
    j: int,
    file: FileView,
)
    requires
        0 <= k < job.targets.len(),
        4 <= j <= 5,
        without_files(
            files_so_far(files, job, copies, k, j),
            job.target_steps(k)[j].undo,
        ).contains_key(file),
    ensures
        ({
            let left = without_files(
                files_so_far(files, job, copies, k, j),
                job.target_steps(k)[j].undo,
            );
            files.contains_key(file) && left[file] == files[file]
        }),
{
    let before = after_steps(files, job.steps(k as nat), copies);
    lemma_grown(files, job, copies, k as nat);
    lemma_after_steps_splits(files, job.steps(k as nat), job.target_steps(k).take(j), copies);
    lemma_target_files(before, job, copies, k, j);
    lemma_temp_names_differ(job, k);
    let now = files_so_far(files, job, copies, k, j);
    let undo = job.target_steps(k)[j].undo;
    assert(now.contains_key(file) && !undo.to_set().contains(file));
    let temp = job.temp(k, Content::Message);
    let cleaned_temp = job.temp(k, Content::CleanedCopy);
    assert(undo[0] == if j == 4 {
        temp
    } else {
        cleaned_temp
    });
    assert(undo[1] == if j == 4 {
        cleaned_temp
    } else {
        job.stored(k)
    });
    assert(undo.to_set().contains(undo[0]));
    assert(undo.to_set().contains(undo[1]));
    assert(before.contains_key(file) && before[file] == now[file]);
    if job.stored_files(k).contains(file) {
        let i = choose|i: int| 0 <= i < k && job.stored_files(k)[i] == file;
        assert(undo[2 + i] == file);
    }
    if job.cleaned_files(k).contains(file) {
        let i = choose|i: int| 0 <= i < k && job.cleaned_files(k)[i] == file;
        assert(undo[2 + k + i] == file);
    }
}

/// No two deliveries share a temporary file, nor do two folders or the two copies of
/// one delivery: the name of a temporary file tells all of these.
pub proof fn law_temp_names_are_distinct(
    filename: Seq<char>,
    delivery_id: nat,
    index: nat,
    content: Content,
    other_filename: Seq<char>,
    other_id: nat,
    other_index: nat,
    other_content: Content,
)
    requires
        temp_name(filename, delivery_id, index, content) == temp_name(
            other_filename,
            other_id,
            other_index,
            other_content,
        ),
    ensures
        filename == other_filename,
        delivery_id == other_id,
        index == other_index,
        content == other_content,
{
    reveal_strlit(".");
    reveal_strlit(".tmp");
    reveal_strlit(".cleaned.tmp");
    let name = temp_name(filename, delivery_id, index, content);
    let n = name.len() as int;
    let outer = filename + "."@ + decimal(delivery_id);
    let other_outer = other_filename + "."@ + decimal(other_id);
    let base = outer + "."@ + decimal(index);
    let other_base = other_outer + "."@ + decimal(other_index);
    lemma_decimal_digits(delivery_id);
    lemma_decimal_digits(other_id);
    lemma_decimal_digits(index);
    lemma_decimal_digits(other_index);
    if content != other_content {
        if content == Content::Message {
            assert(name[n - 5] == base[base.len() - 1]);
            assert(base[base.len() - 1] == decimal(index).last());
        } else {
            assert(name[n - 5] == other_base[other_base.len() - 1]);
            assert(other_base[other_base.len() - 1] == decimal(other_index).last());
        }
    }
    assert(base =~= name.take(base.len() as int));
    assert(other_base =~= name.take(other_base.len() as int));
    lemma_last_dot(outer, decimal(index), other_outer, decimal(other_index));
    lemma_last_dot(filename, decimal(delivery_id), other_filename, decimal(other_id));
    lemma_decimal_injective(index, other_index);
    lemma_decimal_injective(delivery_id, other_id);
}

proof fn lemma_last_dot(a: Seq<char>, d: Seq<char>, b: Seq<char>, e: Seq<char>)
    requires
        a + "."@ + d == b + "."@ + e,
        forall|i: int| 0 <= i < d.len() ==> '0' <= #[trigger] d[i] <= '9',
        forall|i: int| 0 <= i < e.len() ==> '0' <= #[trigger] e[i] <= '9',
    ensures
        a == b,
        d == e,
{
    reveal_strlit(".");
    let head = a + "."@;
    let other_head = b + "."@;
    let whole = head + d;
    assert(whole == other_head + e);
    assert(head[a.len() as int] == '.');
    assert(other_head[b.len() as int] == '.');
    assert(whole[a.len() as int] == '.');
    assert(whole[b.len() as int] == '.');
    assert(whole.len() == head.len() + d.len());
    assert(whole.len() == other_head.len() + e.len());
    if a.len() < b.len() {
        assert(whole[b.len() as int] == d[b.len() - a.len() - 1]);
    } else if b.len() < a.len() {
        assert(whole[a.len() as int] == e[a.len() - b.len() - 1]);
    }
    assert(a =~= whole.take(a.len() as int));
    assert(b =~= whole.take(b.len() as int));
    assert(d =~= whole.skip(a.len() as int + 1));
    assert(e =~= whole.skip(b.len() as int + 1));
}

/// The message goes to its folder in the inbox and the cleaned copy to the folder of that
/// name beside it, both under the message's name. Until then they stand in the directory for
/// temporary files, under names made of the message's, the number of the delivery and the
/// place of the folder.
pub proof fn law_places(job: JobView, k: int)
    requires
        0 <= k < job.targets.len(),
    ensures
        job.stored(k) == (FileView {
            root: Root::Inbox,
            folder: job.targets[k],
            name: job.filename,
        }),
        job.cleaned(k) == (FileView {
            root: Root::Cleaned,
            folder: job.targets[k],
            name: job.filename,
        }),
        job.temp(k, Content::Message) == (FileView {
            root: Root::Temp,
            folder: None,
            name: job.filename + seq!['.'] + decimal(job.delivery_id) + seq!['.'] + decimal(
                k as nat,
            ) + seq!['.', 't', 'm', 'p'],
        }),
        job.temp(k, Content::CleanedCopy) == (FileView {
            root: Root::Temp,
            folder: None,
            name: job.filename + seq!['.'] + decimal(job.delivery_id) + seq!['.'] + decimal(
                k as nat,
            ) + seq!['.', 'c', 'l', 'e', 'a', 'n', 'e', 'd', '.', 't', 'm', 'p'],
        }),
{
    reveal_strlit(".");
    reveal_strlit(".tmp");
    reveal_strlit(".cleaned.tmp");
    assert("."@ =~= seq!['.']);
    assert(".tmp"@ =~= seq!['.', 't', 'm', 'p']);
    assert(".cleaned.tmp"@ =~= seq!['.', 'c', 'l', 'e', 'a', 'n', 'e', 'd', '.', 't', 'm', 'p']);
}

/// Whether a directory is created by one of these steps.
pub open spec fn creates(steps: Seq<StepView>, root: Root, folder: Option<Seq<char>>) -> bool {
    exists|i: int|
        0 <= i < steps.len() && (#[trigger] steps[i]).op == (OpView::CreateDir { root, folder })
}

/// Whether a copy is written to a file by one of these steps.
pub open spec fn writes(steps: Seq<StepView>, file: FileView, content: Content) -> bool {
    exists|i: int|
        0 <= i < steps.len() && (#[trigger] steps[i]).op == (OpView::Write { file, content })
}

/// Everything is ready before it is needed: a file is moved only to a directory that an
/// earlier step created, and only after an earlier step wrote it, as the copy that belongs
/// there. Files are written in the directory for temporary files alone. Where a step other
/// than a move fails, nothing is removed.
pub proof fn law_steps_are_prepared(job: JobView, n: nat, i: int)
    requires
        n <= job.targets.len(),
        0 <= i < job.steps(n).len(),
    ensures
        match job.steps(n)[i].op {
            OpView::Rename { from, to } => {
                &&& creates(job.steps(n).take(i), to.root, to.folder)
                &&& to.root == Root::Inbox && writes(job.steps(n).take(i), from, Content::Message)
                    || to.root == Root::Cleaned && writes(
                    job.steps(n).take(i),
                    from,
                    Content::CleanedCopy,
                )
                &&& to.name == job.filename
            },
            OpView::Write { file, .. } => file.root == Root::Temp && file.folder is None
                && job.steps(n)[i].undo.len() == 0,
            OpView::CreateDir { root, .. } => root != Root::Temp && job.steps(n)[i].undo.len() == 0,
        },
    decreases n,
{
    let m = (n - 1) as nat;
    let before = job.steps(m);
    let own = job.target_steps(m as int);
    let all = job.steps(n);
    if i < before.len() {
        law_steps_are_prepared(job, m, i);
        assert(all.take(i) =~= before.take(i));
        assert(all[i] == before[i]);
    } else {
        let j = i - before.len();
        let done = all.take(i);
        assert(all[i] == own[j]);
        let start = before.len() as int;
        if j >= 4 {
            assert(done[start] == own[0]);
            assert(done[start + 1] == own[1]);
            assert(done[start + 2] == own[2]);
            assert(done[start + 3] == own[3]);
        }
    }
}

/// Before any message is looked at, each configured directory is created, and nothing else
/// is done.
pub proof fn law_preparation_creates_directories(root: Root, i: int)
    ensures
        creates(preparation(), root, None),
        0 <= i < preparation().len() ==> (preparation()[i].op is CreateDir)
            && preparation()[i].undo.len() == 0,
{
    match root {
        Root::Inbox => assert(preparation()[0].op == (OpView::CreateDir { root, folder: None })),
        Root::Cleaned => assert(preparation()[1].op == (OpView::CreateDir { root, folder: None })),
        Root::Temp => assert(preparation()[2].op == (OpView::CreateDir { root, folder: None })),
    }
}

/// The steps for a folder in their order: both directories are created, both copies are
/// written, and then the message is moved to its place, and after it the cleaned copy. Where
/// a move fails, what this folder has so far is removed, and all that earlier folders have.
pub proof fn law_order_of_steps(job: JobView, k: int)
    requires
        0 <= k < job.targets.len(),
    ensures
        ({
            let steps = job.target_steps(k);
            let folder = job.targets[k];
            let temp = job.temp(k, Content::Message);
            let cleaned_temp = job.temp(k, Content::CleanedCopy);
            let earlier = |f: FileView|
                exists|i: int|
                    0 <= i < k && (f == #[trigger] job.stored(i) || f == job.cleaned(i));
            &&& steps.len() == 6
            &&& steps[0].op == (OpView::CreateDir { root: Root::Inbox, folder })
            &&& steps[1].op == (OpView::CreateDir { root: Root::Cleaned, folder })
            &&& steps[2].op == (OpView::Write { file: temp, content: Content::Message })
            &&& steps[3].op == (OpView::Write { file: cleaned_temp, content: Content::CleanedCopy })
            &&& steps[4].op == (OpView::Rename { from: temp, to: job.stored(k) })
            &&& steps[5].op == (OpView::Rename { from: cleaned_temp, to: job.cleaned(k) })
            &&& forall|f: FileView| #[trigger]
                steps[4].undo.contains(f) <==> f == temp || f == cleaned_temp || earlier(f)
            &&& forall|f: FileView| #[trigger]
                steps[5].undo.contains(f) <==> f == cleaned_temp || f == job.stored(k) || earlier(f)
        }),
{
    let steps = job.target_steps(k);
    let temp = job.temp(k, Content::Message);
    let cleaned_temp = job.temp(k, Content::CleanedCopy);
    lemma_undone(steps[4].undo, job, k, temp, cleaned_temp);
    lemma_undone(steps[5].undo, job, k, cleaned_temp, job.stored(k));
}

proof fn lemma_undone(
    files: Seq<FileView>,
    job: JobView,
    k: int,
    first: FileView,
    second: FileView,
)
    requires
        0 <= k,
        files == seq![first, second] + (job.stored_files(k) + job.cleaned_files(k)),
    ensures
        forall|f: FileView| #[trigger]
            files.contains(f) <==> f == first || f == second || exists|i: int|
                0 <= i < k && (f == #[trigger] job.stored(i) || f == job.cleaned(i)),
{
    let stored = job.stored_files(k);
    let cleaned = job.cleaned_files(k);
    assert(stored.len() == k && cleaned.len() == k);
    assert(files[0] == first && files[1] == second);
    assert forall|f: FileView| #[trigger] files.contains(f) implies f == first || f == second
        || exists|i: int| 0 <= i < k && (f == #[trigger] job.stored(i) || f == job.cleaned(i)) by {
        let x = choose|x: int| 0 <= x < files.len() && files[x] == f;
        if 2 <= x < 2 + k {
            assert(files[x] == stored[x - 2]);
            assert(f == job.stored(x - 2));
        } else if x >= 2 + k {
            let i = x - 2 - k;
            assert(files[x] == cleaned[i]);
            assert(f == job.cleaned(i));
            let own = job.stored(i);
        }
    }
    assert forall|f: FileView|
        f == first || f == second || exists|i: int|
            0 <= i < k && (f == #[trigger] job.stored(i) || f == job.cleaned(
                i,
            )) implies #[trigger] files.contains(f) by {
        if f != first && f != second {
            let i = choose|i: int|
                0 <= i < k && (f == #[trigger] job.stored(i) || f == job.cleaned(i));
            assert(files[2 + i] == stored[i]);
            assert(files[2 + k + i] == cleaned[i]);
        }
    }
}

/// The folders are delivered to one after the other, in their order.
pub proof fn law_folders_in_their_order(job: JobView, n: nat)
    ensures
        job.steps(0).len() == 0,
        job.steps(n + 1) == job.steps(n) + job.target_steps(n as int),
        job.all_steps() == job.steps(job.targets.len()),
{
}

/// The files of a message are one for each folder, in their order.
pub proof fn law_stored_files(job: JobView, n: nat)
    requires
        n <= job.targets.len(),
    ensures
        job.stored_files(n as int).len() == n,
        forall|k: int|
            0 <= k < n ==> #[trigger] job.stored_files(n as int)[k] == (FileView {
                root: Root::Inbox,
                folder: job.targets[k],
                name: job.filename,
            }),
{
}

} // verus!
