//! Which directories have to be made for one to be there, and what to do about
//! each of them.

use vstd::prelude::*;
use vstd::string::*;
use crate::linker::{spell_step, step_text};
use crate::path::{components, steps, Component, Step};
use crate::text::{join_all, joined};

verus! {

/// The mode of every directory that is made: anyone may read it and go
/// through it, and its owner alone may write to it. It is what a directory is
/// born with, and not what it is set to a moment later.
pub const MODE: u32 = 0o755;

/// How some steps are spelled.
pub open spec fn path_text(taken: Seq<Step>) -> Seq<char> {
    if taken.len() > 0 && taken[0] is Root {
        seq!['/'] + joined(taken.skip(1).map_values(|step: Step| step_text(step)), '/')
    } else {
        joined(taken.map_values(|step: Step| step_text(step)), '/')
    }
}

/// How many directories a path names: itself, and each one above it up to the
/// root, or to the empty path.
pub open spec fn height_of(taken: Seq<Step>) -> nat {
    if taken.len() > 0 && taken[0] is Root {
        taken.len()
    } else {
        taken.len() + 1
    }
}

/// A directory and every one above it, the nearest first.
pub open spec fn ancestors_of(path: Seq<char>) -> Seq<Seq<char>> {
    let taken = steps(path);
    Seq::new(height_of(taken), |i: int| path_text(taken.take(taken.len() - i)))
}

fn spell(found: &Vec<Component>, n: usize) -> (text: String)
    requires
        n <= found@.len(),
    ensures
        text@ == path_text(found.deep_view().take(n as int)),
{
    let ghost taken = found.deep_view().take(n as int);
    let rooted = n > 0 && matches!(&found[0], Component::Root);
    assert(n > 0 ==> taken[0] == found@[0].deep_view());
    let start: usize = if rooted {
        1
    } else {
        0
    };
    let mut parts: Vec<String> = Vec::new();
    let mut i: usize = start;
    while i < n
        invariant
            start <= i <= n <= found@.len(),
            taken == found.deep_view().take(n as int),
            parts@.len() == i - start,
            forall|j: int|
                0 <= j < parts@.len() ==> (#[trigger] parts@[j])@ == step_text(taken[j + start]),
        decreases n - i,
    {
        assert(taken[i as int] == found@[i as int].deep_view());
        parts.push(spell_step(&found[i]));
        i = i + 1;
    }
    proof {
        assert(taken.skip(0) =~= taken);
        assert(parts.deep_view() =~= taken.skip(start as int).map_values(
            |step: Step| step_text(step),
        ));
        reveal_strlit("/");
        assert("/"@ =~= seq!['/']);
    }
    let tail = join_all(&parts, '/');
    if rooted {
        let mut text = "/".to_owned();
        text.append(tail.as_str());
        text
    } else {
        tail
    }
}

/// A directory and every one above it, the nearest first.
pub fn ancestors(path: &str) -> (dirs: Vec<String>)
    ensures
        dirs.deep_view() == ancestors_of(path@),
{
    let found = components(path);
    let ghost taken = steps(path@);
    let n: usize = found.len();
    let rooted = n > 0 && matches!(&found[0], Component::Root);
    assert(n > 0 ==> taken[0] == found@[0].deep_view());
    let mut dirs: Vec<String> = Vec::new();
    let mut left: usize = n;
    while left > 0
        invariant
            left <= n == found@.len() == taken.len(),
            taken == found.deep_view(),
            dirs@.len() == n - left,
            forall|j: int|
                0 <= j < dirs@.len() ==> (#[trigger] dirs@[j])@ == path_text(taken.take(n - j)),
        decreases left,
    {
        dirs.push(spell(&found, left));
        left = left - 1;
    }
    if !rooted {
        dirs.push(spell(&found, 0));
    }
    assert(dirs.deep_view() =~= ancestors_of(path@));
    dirs
}

/// How many of some levels have to be made: those before the first one that is
/// a directory, or the empty path.
pub open spec fn missing_levels(levels: Seq<Seq<char>>, is_dir: Seq<bool>) -> nat
    decreases levels.len(),
{
    if levels.len() == 0 || is_dir.len() == 0 || levels[0].len() == 0 || is_dir[0] {
        0
    } else {
        1 + missing_levels(levels.drop_first(), is_dir.drop_first())
    }
}

/// The levels to make, the outermost first.
pub open spec fn levels_made(levels: Seq<Seq<char>>, is_dir: Seq<bool>) -> Seq<Seq<char>> {
    levels.take(missing_levels(levels, is_dir) as int).reverse()
}

/// The levels to make so that a directory is there, the outermost first, given
/// the directory and every one above it, and which of them are directories. A
/// level that is there belongs to whoever made it.
pub fn create_all(levels: &Vec<String>, is_dir: &Vec<bool>) -> (made: Vec<String>)
    ensures
        made.deep_view() == levels_made(levels.deep_view(), is_dir@),
{
    let ghost all = levels.deep_view();
    let ghost flags = is_dir@;
    let mut k: usize = 0;
    assert(all.skip(0) =~= all);
    assert(flags.skip(0) =~= flags);
    while k < levels.len() && k < is_dir.len() && !levels[k].as_str().is_empty() && !is_dir[k]
        invariant
            k <= levels@.len(),
            k <= is_dir@.len(),
            all == levels.deep_view(),
            flags == is_dir@,
            missing_levels(all, flags) == k + missing_levels(
                all.skip(k as int),
                flags.skip(k as int),
            ),
        decreases levels.len() - k,
    {
        assert(all.skip(k as int)[0] == levels@[k as int]@);
        assert(flags.skip(k as int)[0] == is_dir@[k as int]);
        assert(all.skip(k as int).drop_first() =~= all.skip(k + 1));
        assert(flags.skip(k as int).drop_first() =~= flags.skip(k + 1));
        k = k + 1;
    }
    assert(missing_levels(all, flags) == k) by {
        if k < levels@.len() && k < is_dir@.len() {
            assert(all.skip(k as int)[0] == levels@[k as int]@);
            assert(flags.skip(k as int)[0] == is_dir@[k as int]);
        }
    }
    let mut made: Vec<String> = Vec::new();
    let mut i: usize = k;
    while i > 0
        invariant
            i <= k <= levels@.len(),
            all == levels.deep_view(),
            made@.len() == k - i,
            forall|j: int| 0 <= j < made@.len() ==> (#[trigger] made@[j])@ == all[k - 1 - j],
        decreases i,
    {
        assert(all[i - 1] == levels@[i - 1]@);
        made.push(levels[i - 1].clone());
        i = i - 1;
    }
    assert(made.deep_view() =~= levels_made(all, flags));
    made
}

/// What came of making a directory.
#[derive(Debug, Clone, Copy, PartialEq, Eq, Structural)]
pub enum Mkdir {
    Made,
    /// Something of that name was there, and whether it is a directory.
    Taken { is_dir: bool },
    Failed,
}

/// What to do after a level was made, or was not.
#[derive(Debug, Clone, Copy, PartialEq, Eq, Structural)]
pub enum AfterMkdir {
    /// Give it its mode, of which some may have been withheld.
    SetMode,
    /// Leave it to whoever made it.
    Leave,
    Fail,
}

/// What to do after a level was made, or was not. One that another made first
/// is as good, but only if it is a directory.
pub fn create_level(made: Mkdir) -> (next: AfterMkdir)
    ensures
        next == match made {
            Mkdir::Made => AfterMkdir::SetMode,
            Mkdir::Taken { is_dir } => if is_dir {
                AfterMkdir::Leave
            } else {
                AfterMkdir::Fail
            },
            Mkdir::Failed => AfterMkdir::Fail,
        },
{
    match made {
        Mkdir::Made => AfterMkdir::SetMode,
        Mkdir::Taken { is_dir } => if is_dir {
            AfterMkdir::Leave
        } else {
            AfterMkdir::Fail
        },
        Mkdir::Failed => AfterMkdir::Fail,
    }
}

} // verus!
