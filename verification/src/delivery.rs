//! What becomes of a message: whether it is stored, under which name, and where.
use crate::auth::{message_satisfies_auth_results_policy, AuthPolicy};
use crate::bytes::headers_and_body;
use crate::clean::{clean_message_for_llm, cleaned_message, needs_boundary};
use crate::config::Config;
use crate::envelope::{message_content, stored_content};
use crate::files::{
    after_steps, optional_texts, preparation, Copies, FilePath, FileView, Files, Job, JobView, Root,
    StepView,
};
use crate::headers::parsed_headers;
use crate::ids::{next_id, IdSource};
use crate::order::{law_list_is_unique, lists};
use crate::outside::{
    base64_url_encode, base64_url_encoded, is_base64_url_char, is_date_text, join_path, path_join,
    platform_path, sha1_digest, sha1_of, utc_date, PlatformPath,
};
use crate::routing::{
    law_folder_names_are_safe, message_folders, recipient_folders_for_message, safe_folder_name,
};
use crate::text::{optional_text, texts};
use vstd::prelude::*;

verus! {

// ---------------------------------------------------------------------------
// Names
// ---------------------------------------------------------------------------
/// The largest content that has a name: a digest counts its bits in 64 bits.
pub const MAX_CONTENT_BYTES: u64 = 0x1fff_ffff_ffff_ffff;

/// The name of content that is stored on this date.
pub open spec fn filename_on(date: Seq<char>, content: Seq<u8>) -> Seq<char> {
    date + "-"@ + base64_url_encoded(sha1_digest(content)) + ".eml"@
}

/// The characters of a name: none of them separates the parts of a path.
pub open spec fn is_filename_char(c: char) -> bool {
    is_base64_url_char(c) || c == '.' || c == '+'
}

/// The name of content that is stored on this date.
pub fn message_filename_on(date: &str, content: &[u8]) -> (r: String)
    requires
        content@.len() <= MAX_CONTENT_BYTES,
    ensures
        r@ == filename_on(date@, content@),
        is_date_text(date@) ==> forall|i: int|
            0 <= i < r@.len() ==> is_filename_char(#[trigger] r@[i]),
{
    let digest = sha1_of(content);
    let hash = base64_url_encode(digest.as_slice());
    let mut name = date.to_owned();
    name.append("-");
    name.append(hash.as_str());
    name.append(".eml");
    proof {
        reveal_strlit("-");
        reveal_strlit(".eml");
        let d = date@.len() as int;
        let h = hash@.len() as int;
        assert forall|i: int| is_date_text(date@) && 0 <= i < name@.len() implies is_filename_char(
            #[trigger] name@[i],
        ) by {
            if i < d {
                assert(name@[i] == date@[i]);
            } else if d < i <= d + h {
                assert(name@[i] == hash@[i - d - 1]);
            }
        }
    }
    name
}

/// The name of content that is stored today.
pub fn message_filename(content: &[u8]) -> (r: String)
    requires
        content@.len() <= MAX_CONTENT_BYTES,
    ensures
        exists|date: Seq<char>|
            is_date_text(date) && r@ == #[trigger] filename_on(date, content@),
        forall|i: int| 0 <= i < r@.len() ==> is_filename_char(#[trigger] r@[i]),
{
    let date = utc_date();
    message_filename_on(date.as_str(), content)
}

// ---------------------------------------------------------------------------
// Deliveries
// ---------------------------------------------------------------------------
/// What becomes of a message.
#[derive(Debug)]
pub enum DeliveryPlan {
    /// Nothing: it does not pass the policy on authentication results.
    IgnoredAuthResults,
    /// Nothing: none of its recipients is at a configured domain.
    IgnoredNoMatchingRecipient,
    /// It is stored: its content, its cleaned copy, and where they go.
    Store { content: Vec<u8>, cleaned: Vec<u8>, job: Job },
}

/// What a `DeliveryPlan` says.
pub enum PlanView {
    IgnoredAuthResults,
    IgnoredNoMatchingRecipient,
    Store { content: Seq<u8>, cleaned: Seq<u8>, job: JobView },
}

impl View for DeliveryPlan {
    type V = PlanView;

    open spec fn view(&self) -> PlanView {
        match *self {
            DeliveryPlan::IgnoredAuthResults => PlanView::IgnoredAuthResults,
            DeliveryPlan::IgnoredNoMatchingRecipient => PlanView::IgnoredNoMatchingRecipient,
            DeliveryPlan::Store { content, cleaned, job } => PlanView::Store {
                content: content@,
                cleaned: cleaned@,
                job: job@,
            },
        }
    }
}

/// What the rules decide on a message.
#[derive(Debug)]
pub enum DeliveryDecision {
    /// It does not pass the policy on authentication results.
    IgnoreAuthResults,
    /// None of its recipients is at a configured domain.
    IgnoreNoMatchingRecipient,
    /// It is stored in these folders, `None` for the inbox itself.
    Store(Vec<Option<String>>),
}

/// What a `DeliveryDecision` says.
pub enum DecisionView {
    IgnoreAuthResults,
    IgnoreNoMatchingRecipient,
    Store(Seq<Option<Seq<char>>>),
}

impl View for DeliveryDecision {
    type V = DecisionView;

    open spec fn view(&self) -> DecisionView {
        match *self {
            DeliveryDecision::IgnoreAuthResults => DecisionView::IgnoreAuthResults,
            DeliveryDecision::IgnoreNoMatchingRecipient => DecisionView::IgnoreNoMatchingRecipient,
            DeliveryDecision::Store(targets) => DecisionView::Store(optional_texts(targets@)),
        }
    }
}

/// The list of these folders, in order and each once.
pub open spec fn folder_list(folders: Set<Seq<char>>) -> Seq<Seq<char>> {
    choose|list: Seq<Seq<char>>| lists(list, folders)
}

/// The folders that a message goes to: the inbox itself where no domain is
/// configured, and one for each matching recipient otherwise.
pub open spec fn delivery_targets(
    domains: Seq<Seq<char>>,
    folders: Set<Seq<char>>,
) -> Seq<Option<Seq<char>>> {
    if domains.len() == 0 {
        seq![None]
    } else {
        Seq::new(folder_list(folders).len(), |i: int| Some(folder_list(folders)[i]))
    }
}

/// What the rules decide on a message with these recipients and headers.
pub open spec fn delivery_decision(
    policy: AuthPolicy,
    domains: Seq<Seq<char>>,
    recipients: Seq<Seq<char>>,
    headers: Seq<(Seq<char>, Seq<char>)>,
) -> DecisionView {
    let folders = message_folders(domains, recipients, headers);
    if !policy.passes(headers) {
        DecisionView::IgnoreAuthResults
    } else if domains.len() > 0 && folders == Set::<Seq<char>>::empty() {
        DecisionView::IgnoreNoMatchingRecipient
    } else {
        DecisionView::Store(delivery_targets(domains, folders))
    }
}

/// A message that came in.
pub struct Incoming {
    pub sender: Seq<char>,
    pub recipients: Seq<Seq<char>>,
    pub data: Seq<u8>,
}

impl Incoming {
    /// The headers of the message.
    pub open spec fn headers(self) -> Seq<(Seq<char>, Seq<char>)> {
        parsed_headers(headers_and_body(self.data).0)
    }

    /// What is stored of the message.
    pub open spec fn content(self) -> Seq<u8> {
        stored_content(self.sender, self.recipients, self.data)
    }

    /// The folders of the message.
    pub open spec fn folders(self, domains: Seq<Seq<char>>) -> Set<Seq<char>> {
        message_folders(domains, self.recipients, self.headers())
    }

    /// The number of the delivery: the cleaned copy may take one first.
    pub open spec fn delivery_id(self, next: u64) -> u64 {
        if needs_boundary(self.content()) {
            next_id(next)
        } else {
            next
        }
    }

    /// What becomes of the message on this date, where `next` is the next number.
    pub open spec fn plan(
        self,
        policy: AuthPolicy,
        domains: Seq<Seq<char>>,
        date: Seq<char>,
        next: u64,
    ) -> PlanView {
        match delivery_decision(policy, domains, self.recipients, self.headers()) {
            DecisionView::IgnoreAuthResults => PlanView::IgnoredAuthResults,
            DecisionView::IgnoreNoMatchingRecipient => PlanView::IgnoredNoMatchingRecipient,
            DecisionView::Store(targets) => PlanView::Store {
                content: self.content(),
                cleaned: cleaned_message(self.content(), next),
                job: JobView {
                    filename: filename_on(date, self.content()),
                    delivery_id: self.delivery_id(next) as nat,
                    targets,
                },
            },
        }
    }
}

/// The message that these arguments are.
pub open spec fn incoming(sender: Seq<char>, recipients: Seq<String>, data: Seq<u8>) -> Incoming {
    Incoming { sender, recipients: texts(recipients), data }
}

/// What the rules decide on a message, of whatever size it is.
pub fn decide_delivery(config: &Config, recipients: &[String], data: &[u8]) -> (r: DeliveryDecision)
    ensures
        r@ == delivery_decision(
            config.auth_results@,
            texts(config.recipient_domains@),
            texts(recipients@),
            parsed_headers(headers_and_body(data@).0),
        ),
        r@ matches DecisionView::Store(targets) ==> targets.len() > 0 && (forall|i: int|
            0 <= i < targets.len() ==> (#[trigger] targets[i] matches Some(folder)
                ==> safe_folder_name(folder))),
{
    let ghost domains = texts(config.recipient_domains@);
    let ghost headers = parsed_headers(headers_and_body(data@).0);
    let ghost set = message_folders(domains, texts(recipients@), headers);
    if !message_satisfies_auth_results_policy(&config.auth_results, data) {
        return DeliveryDecision::IgnoreAuthResults;
    }
    let folders = recipient_folders_for_message(
        config.recipient_domains.as_slice(),
        recipients,
        data,
    );
    proof {
        law_list_is_unique(texts(folders@), folder_list(set), set);
        if folders@.len() > 0 {
            assert(texts(folders@).to_set().contains(texts(folders@)[0]));
            assert(set.contains(texts(folders@)[0]));
        } else {
            assert(texts(folders@).to_set() =~= Set::<Seq<char>>::empty());
        }
    }
    if config.recipient_domains.len() > 0 && folders.len() == 0 {
        return DeliveryDecision::IgnoreNoMatchingRecipient;
    }
    let targets = target_list(config.recipient_domains.len() == 0, folders);
    proof {
        let found = optional_texts(targets@);
        assert(found =~= delivery_targets(domains, set));
        assert forall|i: int| 0 <= i < found.len() implies (#[trigger] found[i] matches Some(folder)
            ==> safe_folder_name(folder)) by {
            if let Some(folder) = found[i] {
                assert(folder == texts(folders@)[i]);
                assert(texts(folders@).to_set().contains(folder));
                law_folder_names_are_safe(domains, texts(recipients@), headers, folder);
            }
        }
    }
    DeliveryDecision::Store(targets)
}

/// What becomes of a message on this date.
pub fn plan_delivery_on(
    date: &str,
    config: &Config,
    sender: &str,
    recipients: &[String],
    data: &[u8],
    ids: &mut IdSource,
) -> (r: DeliveryPlan)
    requires
        incoming(sender@, recipients@, data@).content().len() <= MAX_CONTENT_BYTES,
    ensures
        r@ == incoming(sender@, recipients@, data@).plan(
            config.auth_results@,
            texts(config.recipient_domains@),
            date@,
            old(ids).next,
        ),
        final(ids).next == if r@ is Store {
            next_id(incoming(sender@, recipients@, data@).delivery_id(old(ids).next))
        } else {
            old(ids).next
        },
        r@ matches PlanView::Store { job, .. } ==> job.targets.len() > 0 && (forall|i: int|
            0 <= i < job.targets.len() ==> (#[trigger] job.targets[i] matches Some(folder)
                ==> safe_folder_name(folder))),
{
    let targets = match decide_delivery(config, recipients, data) {
        DeliveryDecision::IgnoreAuthResults => {
            return DeliveryPlan::IgnoredAuthResults;
        },
        DeliveryDecision::IgnoreNoMatchingRecipient => {
            return DeliveryPlan::IgnoredNoMatchingRecipient;
        },
        DeliveryDecision::Store(targets) => targets,
    };
    let content = message_content(sender, recipients, data);
    let filename = message_filename_on(date, content.as_slice());
    let cleaned = clean_message_for_llm(content.as_slice(), ids);
    let delivery_id: u64 = ids.fetch();
    DeliveryPlan::Store { content, cleaned, job: Job { filename, delivery_id, targets } }
}

fn target_list(whole_inbox: bool, folders: Vec<String>) -> (r: Vec<Option<String>>)
    ensures
        optional_texts(r@) == if whole_inbox {
            seq![None]
        } else {
            Seq::new(folders@.len(), |i: int| Some(folders@[i]@))
        },
{
    let mut targets: Vec<Option<String>> = Vec::new();
    if whole_inbox {
        targets.push(None);
        assert(optional_texts(targets@) =~= seq![None]);
        return targets;
    }
    let ghost wanted = Seq::new(folders@.len(), |i: int| Some(folders@[i]@));
    let mut i: usize = 0;
    assert(optional_texts(targets@) =~= wanted.take(0));
    while i < folders.len()
        invariant
            i <= folders@.len(),
            wanted == Seq::new(folders@.len(), |i: int| Some(folders@[i]@)),
            optional_texts(targets@) == wanted.take(i as int),
        decreases folders@.len() - i,
    {
        let ghost so_far = optional_texts(targets@);
        let target: Option<String> = Some(folders[i].as_str().to_owned());
        targets.push(target);
        assert(optional_text(target) == wanted[i as int]);
        assert(optional_texts(targets@) =~= so_far.push(wanted[i as int]));
        assert(optional_texts(targets@) =~= wanted.take(i + 1));
        i = i + 1;
    }
    assert(wanted.take(wanted.len() as int) =~= wanted);
    targets
}

/// What becomes of a message today.
pub fn plan_delivery(
    config: &Config,
    sender: &str,
    recipients: &[String],
    data: &[u8],
    ids: &mut IdSource,
) -> (r: DeliveryPlan)
    requires
        incoming(sender@, recipients@, data@).content().len() <= MAX_CONTENT_BYTES,
    ensures
        exists|date: Seq<char>|
            is_date_text(date) && r@ == #[trigger] incoming(sender@, recipients@, data@).plan(
                config.auth_results@,
                texts(config.recipient_domains@),
                date,
                old(ids).next,
            ),
        final(ids).next == if r@ is Store {
            next_id(incoming(sender@, recipients@, data@).delivery_id(old(ids).next))
        } else {
            old(ids).next
        },
        r@ matches PlanView::Store { job, .. } ==> job.targets.len() > 0 && (forall|i: int|
            0 <= i < job.targets.len() ==> (#[trigger] job.targets[i] matches Some(folder)
                ==> safe_folder_name(folder))),
{
    let date = utc_date();
    plan_delivery_on(date.as_str(), config, sender, recipients, data, ids)
}

// ---------------------------------------------------------------------------
// Paths
// ---------------------------------------------------------------------------
/// The configured directory that is meant.
pub open spec fn root_dir(config: Config, root: Root) -> Seq<char> {
    match root {
        Root::Inbox => config.inbox_dir@,
        Root::Cleaned => config.cleaned_inbox_dir@,
        Root::Temp => config.temp_dir@,
    }
}

/// The path of a configured directory, or of a folder in it, where paths have this
/// separator.
pub open spec fn directory_path(
    config: Config,
    root: Root,
    folder: Option<Seq<char>>,
    separator: char,
) -> Seq<char> {
    match folder {
        Some(name) => path_join(root_dir(config, root), name, separator),
        None => root_dir(config, root),
    }
}

/// The path of a file, where paths have this separator.
pub open spec fn file_path(config: Config, file: FileView, separator: char) -> Seq<char> {
    path_join(
        directory_path(config, file.root, file.folder, separator),
        file.name,
        separator,
    )
}

fn locate(config: &Config, root: Root, folder: &Option<String>) -> (r: PlatformPath)
    ensures
        r@.text == directory_path(*config, root, optional_text(*folder), r@.separator),
{
    let dir = platform_path(
        match root {
            Root::Inbox => config.inbox_dir.as_str(),
            Root::Cleaned => config.cleaned_inbox_dir.as_str(),
            Root::Temp => config.temp_dir.as_str(),
        },
    );
    match folder {
        Some(name) => join_path(&dir, name.as_str()),
        None => dir,
    }
}

/// The path of a configured directory, or of a folder in it.
pub fn directory_of(config: &Config, root: Root, folder: &Option<String>) -> (r: String)
    ensures
        exists|separator: char|
            r@ == #[trigger] directory_path(*config, root, optional_text(*folder), separator),
        folder is None ==> r@ == root_dir(*config, root),
{
    locate(config, root, folder).into_text()
}

/// The path of a file.
pub fn path_of(config: &Config, file: &FilePath) -> (r: String)
    ensures
        exists|separator: char| r@ == #[trigger] file_path(*config, file@, separator),
{
    let dir = locate(config, file.root, &file.folder);
    let path = join_path(&dir, file.name.as_str());
    assert(path@.text == file_path(*config, file@, dir@.separator));
    path.into_text()
}

// ---------------------------------------------------------------------------
// Laws
// ---------------------------------------------------------------------------
/// What is done with the files for a plan: nothing where the message is ignored.
pub open spec fn plan_steps(plan: PlanView) -> Seq<StepView> {
    match plan {
        PlanView::Store { job, .. } => job.all_steps(),
        _ => Seq::empty(),
    }
}

/// The rules alone decide what becomes of a message. It is ignored by the policy
/// exactly where it does not pass that, and for its recipients exactly where it passes
/// but none of them is at a configured domain; otherwise it is stored, once in the
/// inbox where no domain is configured, and once in each of its folders otherwise. A
/// message that is ignored leaves all files as they are.
pub proof fn law_rules_decide_on_a_message(
    message: Incoming,
    policy: AuthPolicy,
    domains: Seq<Seq<char>>,
    date: Seq<char>,
    next: u64,
    folders: Seq<Seq<char>>,
    files: Files,
    copies: Copies,
)
    requires
        lists(folders, message.folders(domains)),
    ensures
        ({
            let plan = message.plan(policy, domains, date, next);
            let passes = policy.passes(message.headers());
            let unmatched = domains.len() > 0 && folders.len() == 0;
            let decision = delivery_decision(
                policy,
                domains,
                message.recipients,
                message.headers(),
            );
            &&& decision is IgnoreAuthResults <==> !passes
            &&& decision is IgnoreNoMatchingRecipient <==> passes && unmatched
            &&& decision matches DecisionView::Store(targets) ==> targets.len()
                == if domains.len() == 0 {
                1
            } else {
                folders.len()
            }
            &&& plan is IgnoredAuthResults <==> !passes
            &&& plan is IgnoredNoMatchingRecipient <==> passes && unmatched
            &&& plan is Store <==> passes && !unmatched
            &&& plan matches PlanView::Store { content, cleaned, job } ==> {
                &&& content == message.content()
                &&& job.targets.len() == if domains.len() == 0 {
                    1
                } else {
                    folders.len()
                }
                &&& domains.len() > 0 ==> forall|i: int|
                    0 <= i < folders.len() ==> #[trigger] job.targets[i] == Some(folders[i])
            }
            &&& !(plan is Store) ==> after_steps(files, plan_steps(plan), copies) == files
            &&& after_steps(files, preparation(), copies) == files
        }),
{
    let set = message.folders(domains);
    law_list_is_unique(folders, folder_list(set), set);
    if folders.len() > 0 {
        assert(folders.to_set().contains(folders[0]));
    } else {
        assert(folders.to_set() =~= Set::<Seq<char>>::empty());
    }
    reveal_with_fuel(after_steps, 4);
}

/// The name of content is the date, a dash, the digest of all of the content in URL-safe
/// base64, and `.eml`.
pub proof fn law_name_of_content(date: Seq<char>, content: Seq<u8>)
    ensures
        filename_on(date, content) == date + seq!['-'] + base64_url_encoded(sha1_digest(content))
            + seq!['.', 'e', 'm', 'l'],
        MAX_CONTENT_BYTES == 0x1fff_ffff_ffff_ffff,
{
    reveal_strlit("-");
    reveal_strlit(".eml");
    assert("-"@ =~= seq!['-']);
    assert(".eml"@ =~= seq!['.', 'e', 'm', 'l']);
}

/// What is stored is the envelope and the data as received; beside it the cleaned copy of
/// just that, both under the name of the content. Where no domain is configured they go to
/// the inbox itself. The copy's boundary, where it has one, and the delivery have numbers of
/// their own.
pub proof fn law_what_is_stored(
    message: Incoming,
    policy: AuthPolicy,
    domains: Seq<Seq<char>>,
    date: Seq<char>,
    next: u64,
)
    ensures
        message.plan(policy, domains, date, next) matches PlanView::Store {
            content,
            cleaned,
            job,
        } ==> {
            &&& content == stored_content(message.sender, message.recipients, message.data)
            &&& cleaned == cleaned_message(content, next)
            &&& job.filename == filename_on(date, content)
            &&& domains.len() == 0 ==> job.targets == seq![None::<Seq<char>>]
            &&& job.delivery_id == if needs_boundary(content) {
                (next + 1) % 0x1_0000_0000_0000_0000
            } else {
                next as int
            }
        },
{
}

/// Each kind of file has its own configured directory, and a folder is a name in that.
pub proof fn law_directories(config: Config, folder: Seq<char>, separator: char)
    ensures
        directory_path(config, Root::Inbox, None, separator) == config.inbox_dir@,
        directory_path(config, Root::Cleaned, None, separator) == config.cleaned_inbox_dir@,
        directory_path(config, Root::Temp, None, separator) == config.temp_dir@,
        directory_path(config, Root::Inbox, Some(folder), separator) == path_join(
            config.inbox_dir@,
            folder,
            separator,
        ),
        directory_path(config, Root::Cleaned, Some(folder), separator) == path_join(
            config.cleaned_inbox_dir@,
            folder,
            separator,
        ),
        forall|file: FileView| #[trigger]
            file_path(config, file, separator) == path_join(
                directory_path(config, file.root, file.folder, separator),
                file.name,
                separator,
            ),
{
}

} // verus!
