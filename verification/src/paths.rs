//! The directories that stand beside the inbox unless others are configured.
use crate::outside::{
    file_name_of, gets_shorter, is_file_name, is_network_root, is_portable_name, join_path,
    parent_of, path_ancestor, path_file_name, path_join, path_parent, platform_path, PlatformPath,
};
use crate::routing::safe_folder_name;
use crate::text::optional_text;
use vstd::prelude::*;

verus! {

/// A name in a directory; the bare name if there is no directory or its path is
/// empty.
pub open spec fn placed_in(dir: Option<Seq<char>>, name: Seq<char>, separator: char) -> Seq<char> {
    match dir {
        Some(path) => if path.len() > 0 {
            path_join(path, name, separator)
        } else {
            name
        },
        None => name,
    }
}

/// The name of the cleaned inbox beside an inbox with this name.
pub open spec fn cleaned_name(inbox_name: Option<Seq<char>>) -> Seq<char> {
    match inbox_name {
        Some(name) => name + "-cleaned"@,
        None => "inbox-cleaned"@,
    }
}

/// The cleaned inbox beside an inbox, where paths have this separator.
pub open spec fn cleaned_dir(inbox_dir: Seq<char>, separator: char) -> Seq<char> {
    placed_in(
        path_parent(inbox_dir, separator),
        cleaned_name(path_file_name(inbox_dir, separator)),
        separator,
    )
}

/// The temporary directory beside an inbox, where paths have this separator.
pub open spec fn temp_dir(inbox_dir: Seq<char>, separator: char) -> Seq<char> {
    placed_in(path_parent(inbox_dir, separator), ".smtp-receiver-tmp"@, separator)
}

/// Whether a path ends in this name and has the same parent as another path, where
/// paths have this separator.
pub open spec fn is_sibling(
    path: Seq<char>,
    name: Seq<char>,
    other: Seq<char>,
    separator: char,
) -> bool {
    &&& path_parent(path, separator) == path_parent(other, separator)
    &&& path_parent(path, separator) is Some
    &&& path_file_name(path, separator) == Some(name)
    &&& gets_shorter(path, separator)
    &&& gets_shorter(other, separator)
}

/// Whether a path with a name can have siblings, where paths have this separator: always
/// where that is `/`, and otherwise unless its directory is a network root.
pub open spec fn can_have_siblings(path: Seq<char>, separator: char) -> bool {
    &&& path_file_name(path, separator) is Some
    &&& separator == '/' || (path_parent(path, separator) matches Some(dir) ==> !is_network_root(
        dir,
    ))
}

/// Whether a path can have siblings that are named after it.
pub open spec fn can_have_named_siblings(path: Seq<char>, separator: char) -> bool {
    &&& can_have_siblings(path, separator)
    &&& separator == '/' || is_portable_name(path_file_name(path, separator)->0)
}

/// Whether a path is a directory or lies in it, where paths have this separator.
pub open spec fn lies_in(path: Seq<char>, dir: Seq<char>, separator: char) -> bool {
    exists|levels: nat| #[trigger] path_ancestor(path, levels, separator) == Some(dir)
}

/// Whether this is the cleaned inbox that stands beside an inbox, where paths have this
/// separator.
pub open spec fn is_cleaned_dir_for(
    inbox_dir: Seq<char>,
    dir: Seq<char>,
    separator: char,
) -> bool {
    &&& dir == cleaned_dir(inbox_dir, separator)
    &&& safe_folder_name(inbox_dir) ==> dir == inbox_dir + "-cleaned"@
    &&& can_have_named_siblings(inbox_dir, separator) ==> is_sibling(
        dir,
        cleaned_name(path_file_name(inbox_dir, separator)),
        inbox_dir,
        separator,
    )
}

/// Whether this is the temporary directory that stands beside an inbox, where paths
/// have this separator.
pub open spec fn is_temp_dir_for(inbox_dir: Seq<char>, dir: Seq<char>, separator: char) -> bool {
    &&& dir == temp_dir(inbox_dir, separator)
    &&& safe_folder_name(inbox_dir) ==> dir == ".smtp-receiver-tmp"@
    &&& can_have_siblings(inbox_dir, separator) ==> is_sibling(
        dir,
        ".smtp-receiver-tmp"@,
        inbox_dir,
        separator,
    )
}

/// The name of the cleaned inbox beside an inbox with this name.
pub fn cleaned_inbox_name(inbox_name: Option<String>) -> (r: String)
    ensures
        r@ == cleaned_name(optional_text(inbox_name)),
{
    match inbox_name {
        Some(name) => {
            let mut out = name;
            out.append("-cleaned");
            out
        },
        None => "inbox-cleaned".to_owned(),
    }
}

fn place_beside(inbox: &PlatformPath, name: String) -> (r: String)
    ensures
        r@ == placed_in(path_parent(inbox@.text, inbox@.separator), name@, inbox@.separator),
        safe_folder_name(inbox@.text) ==> r@ == name@,
        can_have_siblings(inbox@.text, inbox@.separator) && (is_portable_name(name@) || (
        inbox@.separator == '/' && is_file_name(name@))) ==> is_sibling(
            r@,
            name@,
            inbox@.text,
            inbox@.separator,
        ),
{
    match parent_of(inbox) {
        Some(parent) => {
            let path = join_path(&parent, name.as_str());
            path.into_text()
        },
        None => name,
    }
}

/// The cleaned inbox beside an inbox.
pub(crate) fn cleaned_dir_beside(inbox: &PlatformPath) -> (r: String)
    ensures
        is_cleaned_dir_for(inbox@.text, r@, inbox@.separator),
{
    let file_name = file_name_of(inbox);
    let ghost named = optional_text(file_name);
    let name = cleaned_inbox_name(file_name);
    proof {
        if let Some(n) = named {
            lemma_cleaned_name_is_file_name(n);
        }
    }
    place_beside(inbox, name)
}

/// The temporary directory beside an inbox.
pub(crate) fn temp_dir_beside(inbox: &PlatformPath) -> (r: String)
    ensures
        is_temp_dir_for(inbox@.text, r@, inbox@.separator),
{
    proof {
        lemma_temp_name_is_portable();
    }
    place_beside(inbox, ".smtp-receiver-tmp".to_owned())
}

proof fn lemma_cleaned_name_is_file_name(name: Seq<char>)
    ensures
        is_file_name(name) ==> is_file_name(cleaned_name(Some(name))),
        is_portable_name(name) ==> is_portable_name(cleaned_name(Some(name))),
{
    reveal_strlit(".");
    reveal_strlit("..");
    reveal_strlit("-cleaned");
    let out = cleaned_name(Some(name));
    assert(out.len() > 2);
    assert forall|i: int| 0 <= i < out.len() implies name.contains(#[trigger] out[i]) || (out[i]
        != '/' && out[i] != '\\' && out[i] != ':') by {
        if i < name.len() {
            assert(out[i] == name[i]);
        } else {
            assert(out[i] == "-cleaned"@[i - name.len()]);
        }
    }
}

proof fn lemma_temp_name_is_portable()
    ensures
        is_portable_name(".smtp-receiver-tmp"@),
{
    reveal_strlit(".");
    reveal_strlit("..");
    reveal_strlit(".smtp-receiver-tmp");
    let name = ".smtp-receiver-tmp"@;
    assert(name.len() == 18);
    assert("."@.len() == 1);
    assert(".."@.len() == 2);
    assert forall|i: int| 0 <= i < name.len() implies name[i] != '/' && name[i] != '\\' && name[i]
        != ':' by {
    }
}

/// The cleaned inbox beside an inbox: the inbox's name with `-cleaned` at its end,
/// in the same directory.
pub fn default_cleaned_dir_for(inbox_dir: &str) -> (r: String)
    ensures
        exists|separator: char| #[trigger] is_cleaned_dir_for(inbox_dir@, r@, separator),
{
    let inbox = platform_path(inbox_dir);
    cleaned_dir_beside(&inbox)
}

/// The temporary directory beside an inbox: `.smtp-receiver-tmp` in the same
/// directory.
pub fn default_temp_dir_for(inbox_dir: &str) -> (r: String)
    ensures
        exists|separator: char| #[trigger] is_temp_dir_for(inbox_dir@, r@, separator),
{
    let inbox = platform_path(inbox_dir);
    temp_dir_beside(&inbox)
}

// ---------------------------------------------------------------------------
// Laws
// ---------------------------------------------------------------------------
/// The default directories are siblings of the inbox, and the temporary one lies
/// neither in the inbox nor in the cleaned inbox, unless the inbox has the name of the
/// temporary directory itself. Where paths have another separator than `/`, this is
/// stated for an inbox whose directory is no network root, and of the cleaned inbox for
/// an inbox whose name is portable.
pub proof fn law_temp_files_stay_outside_the_inboxes(
    inbox_dir: Seq<char>,
    cleaned: Seq<char>,
    temp: Seq<char>,
    separator: char,
)
    requires
        can_have_siblings(inbox_dir, separator),
        path_file_name(inbox_dir, separator) != Some(".smtp-receiver-tmp"@),
        is_cleaned_dir_for(inbox_dir, cleaned, separator),
        is_temp_dir_for(inbox_dir, temp, separator),
    ensures
        path_parent(temp, separator) == path_parent(inbox_dir, separator),
        path_file_name(temp, separator) == Some(".smtp-receiver-tmp"@),
        !lies_in(temp, inbox_dir, separator),
        can_have_named_siblings(inbox_dir, separator) ==> {
            &&& path_parent(cleaned, separator) == path_parent(inbox_dir, separator)
            &&& path_file_name(cleaned, separator) == Some(
                path_file_name(inbox_dir, separator)->0 + "-cleaned"@,
            )
            &&& !lies_in(temp, cleaned, separator)
        },
{
    reveal_strlit("-cleaned");
    reveal_strlit(".smtp-receiver-tmp");
    let name = path_file_name(inbox_dir, separator)->0;
    let other = name + "-cleaned"@;
    assert(other.last() == 'd');
    assert(".smtp-receiver-tmp"@.last() == 'p');
    lemma_sibling_is_outside(temp, inbox_dir, separator);
    if can_have_named_siblings(inbox_dir, separator) {
        lemma_sibling_is_outside(temp, cleaned, separator);
    }
}

/// A path does not lie in another that has the same parent but another name.
proof fn lemma_sibling_is_outside(path: Seq<char>, dir: Seq<char>, separator: char)
    requires
        path_parent(path, separator) == path_parent(dir, separator),
        path_parent(dir, separator) is Some,
        path_file_name(path, separator) != path_file_name(dir, separator),
        gets_shorter(dir, separator),
    ensures
        !lies_in(path, dir, separator),
{
    assert forall|levels: nat| #[trigger] path_ancestor(path, levels, separator) != Some(dir) by {
        if levels > 0 {
            assert(path_ancestor(path, levels, separator) == path_ancestor(dir, levels, separator));
        }
    }
}

/// The default directories stand in the inbox's own directory; where that is not named they
/// are bare names. The cleaned inbox has the name of the inbox with `-cleaned` behind it.
pub proof fn law_default_directories(inbox_dir: Seq<char>, separator: char)
    ensures
        ({
            let name = match path_file_name(inbox_dir, separator) {
                Some(own) => own + "-cleaned"@,
                None => "inbox"@ + "-cleaned"@,
            };
            match path_parent(inbox_dir, separator) {
                Some(dir) if dir.len() > 0 => cleaned_dir(inbox_dir, separator) == path_join(
                    dir,
                    name,
                    separator,
                ) && temp_dir(inbox_dir, separator) == path_join(
                    dir,
                    ".smtp-receiver-tmp"@,
                    separator,
                ),
                _ => cleaned_dir(inbox_dir, separator) == name && temp_dir(inbox_dir, separator)
                    == ".smtp-receiver-tmp"@,
            }
        }),
{
    reveal_strlit("inbox");
    reveal_strlit("-cleaned");
    reveal_strlit("inbox-cleaned");
    assert("inbox-cleaned"@ =~= "inbox"@ + "-cleaned"@);
}

} // verus!
