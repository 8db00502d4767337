//! Copies of the data folder that are made before something changes or removes
//! data.

use vstd::prelude::*;
use crate::text::{decimal, decimal_digits_spell_their_number, push_decimal};

verus! {

/// The name of the folder of a backup: the time it was made, what it was made for,
/// and a number if the name was taken.
pub open spec fn folder_name(stamp: Seq<char>, suffix: Seq<char>, attempt: nat) -> Seq<char> {
    if attempt == 1 {
        stamp + "-"@ + suffix
    } else {
        stamp + "-"@ + suffix + "-"@ + decimal(attempt)
    }
}

/// The name of the folder of a backup at its first, second, .. attempt. A folder
/// that is there is never copied into.
pub fn backup_folder_name(stamp: &str, suffix: &str, attempt: u64) -> (r: String)
    ensures
        r@ == folder_name(stamp@, suffix@, attempt as nat),
{
    let name = stamp.to_owned().concat("-").concat(suffix);
    if attempt == 1 {
        return name;
    }
    let mut name = name.concat("-");
    push_decimal(&mut name, attempt);
    name
}

/// Two attempts never try the same name.
pub proof fn attempts_try_different_names(
    stamp: Seq<char>,
    suffix: Seq<char>,
    first: nat,
    second: nat,
)
    requires
        first != second,
    ensures
        folder_name(stamp, suffix, first) != folder_name(stamp, suffix, second),
{
    let start = stamp + "-"@ + suffix;
    reveal_strlit("-");
    if first == 1 || second == 1 {
        let other = if first == 1 {
            second
        } else {
            first
        };
        let longer = folder_name(stamp, suffix, other);
        assert(longer == start + "-"@ + decimal(other));
        assert(longer.len() > start.len());
    } else {
        let head = start + "-"@;
        let a = head + decimal(first);
        let b = head + decimal(second);
        decimal_digits_spell_their_number(first, 0);
        decimal_digits_spell_their_number(second, 0);
        if a == b {
            assert(a.skip(head.len() as int) =~= decimal(first));
            assert(b.skip(head.len() as int) =~= decimal(second));
        }
    }
}

/// A folder is named after the time of the backup and what it was made for. Only a later
/// attempt adds its number.
pub proof fn a_folder_tells_when_and_what_for(stamp: Seq<char>, suffix: Seq<char>, attempt: nat)
    ensures
        ({
            let name = folder_name(stamp, suffix, attempt);
            let n = stamp.len() as int;
            let m = n + 1 + suffix.len() as int;
            &&& name.len() >= m
            &&& name.take(n) == stamp
            &&& name[n] == '-'
            &&& name.subrange(n + 1, m) == suffix
            &&& attempt == 1 ==> name.len() == m
            &&& attempt != 1 ==> name[m] == '-' && name.skip(m + 1) == decimal(attempt)
        }),
{
    reveal_strlit("-");
    let name = folder_name(stamp, suffix, attempt);
    let n = stamp.len() as int;
    let m = n + 1 + suffix.len() as int;
    assert(name.take(n) =~= stamp);
    assert(name.subrange(n + 1, m) =~= suffix);
    if attempt != 1 {
        assert(name.skip(m + 1) =~= decimal(attempt));
    }
}

/// What the copy finds at one entry of a folder.
#[derive(Clone, Copy, Debug, PartialEq, Eq, Structural)]
pub enum Found {
    /// A file, reached directly or through a link.
    File,
    /// A folder, reached directly or through a link; `open` says whether it is one
    /// that is being copied already, or the backup itself.
    Folder { open: bool },
    /// A link that leads nowhere.
    BrokenLink,
    /// Something that cannot be read.
    Unreadable,
}

/// What the copy does with one entry of a folder.
#[derive(Clone, Copy, Debug, PartialEq, Eq, Structural)]
pub enum CopyStep {
    CopyFile,
    CopyFolder,
    /// Skip the entry with a warning: it leads back into what is being copied.
    SkipLoop,
    /// Skip the entry with a warning: there is nothing to copy.
    SkipBrokenLink,
    /// Give up: the backup would not be complete.
    Fail,
}

/// The step that an entry of a folder calls for.
pub open spec fn step_for(found: Found) -> CopyStep {
    match found {
        Found::File => CopyStep::CopyFile,
        Found::Folder { open } => if open {
            CopyStep::SkipLoop
        } else {
            CopyStep::CopyFolder
        },
        Found::BrokenLink => CopyStep::SkipBrokenLink,
        Found::Unreadable => CopyStep::Fail,
    }
}

/// What the copy does with one entry of a folder.
pub fn copy_step(found: Found) -> (r: CopyStep)
    ensures
        r == step_for(found),
{
    match found {
        Found::File => CopyStep::CopyFile,
        Found::Folder { open } => if open {
            CopyStep::SkipLoop
        } else {
            CopyStep::CopyFolder
        },
        Found::BrokenLink => CopyStep::SkipBrokenLink,
        Found::Unreadable => CopyStep::Fail,
    }
}

/// A backup holds every file and every folder that can be reached: it gives up where one
/// cannot be read, and leaves out only links that lead nowhere and folders that lead back
/// into what is being copied.
pub proof fn a_backup_leaves_nothing_out(found: Found)
    ensures
        step_for(found) is CopyFile <==> found is File,
        step_for(found) is CopyFolder <==> (found matches Found::Folder { open } && !open),
        step_for(found) is SkipLoop <==> (found matches Found::Folder { open } && open),
        step_for(found) is SkipBrokenLink <==> found is BrokenLink,
        step_for(found) is Fail <==> found is Unreadable,
{
}

} // verus!
