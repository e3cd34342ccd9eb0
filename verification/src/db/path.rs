//! Where the files of a database are.
//!
//! Paths are read as the operating system reads them: components are
//! separated by one or more slashes, and a `.` between two components means
//! nothing.

use vstd::prelude::*;
use vstd::string::*;

use crate::error::{Error, ErrorView, Result};

verus! {

/// A path without the slashes and `.` components at its end.
pub open spec fn trimmed(path: Seq<char>) -> Seq<char>
    decreases path.len(),
{
    if path.len() > 0 && path.last() == '/' {
        trimmed(path.drop_last())
    } else if path.len() > 1 && path.last() == '.' && path[path.len() - 2] == '/' {
        trimmed(path.drop_last())
    } else {
        path
    }
}

/// What follows the last slash.
pub open spec fn after_slash(path: Seq<char>) -> Seq<char>
    decreases path.len(),
{
    if path.len() == 0 || path.last() == '/' {
        Seq::empty()
    } else {
        after_slash(path.drop_last()).push(path.last())
    }
}

/// The last component of a path, if it names a file.
pub open spec fn file_name(path: Seq<char>) -> Option<Seq<char>> {
    let name = after_slash(trimmed(path));
    if name == Seq::<char>::empty() || name == seq!['.'] || name == seq!['.', '.'] {
        None
    } else {
        Some(name)
    }
}

/// What stands before the last component, up to where that begins.
pub open spec fn before_name(path: Seq<char>) -> Seq<char> {
    let all = trimmed(path);
    all.take(all.len() - after_slash(all).len())
}

/// The directory of the file that a path names, ready to have another name
/// put behind it.
pub open spec fn directory(path: Seq<char>) -> Seq<char> {
    let before = before_name(path);
    if before.len() == 0 {
        Seq::empty()
    } else {
        trimmed(before).push('/')
    }
}

/// The path of the log of a database: next to it, under its name and `-wal`.
pub open spec fn wal_path(path: Seq<char>) -> std::result::Result<Seq<char>, ErrorView> {
    match file_name(path) {
        Some(name) => Ok(directory(path) + name + "-wal"@),
        None => Err(ErrorView::InvalidArgument(path + " is not a file path"@)),
    }
}

/// How many characters of the first `end` are left after trimming.
fn trim(path: &str, end: usize) -> (kept: usize)
    requires
        end <= path@.len(),
    ensures
        kept <= end,
        path@.take(kept as int) == trimmed(path@.take(end as int)),
{
    let mut kept: usize = end;
    loop
        invariant
            kept <= end <= path@.len(),
            trimmed(path@.take(kept as int)) == trimmed(path@.take(end as int)),
        ensures
            path@.take(kept as int) == trimmed(path@.take(end as int)),
        decreases kept,
    {
        if kept == 0 {
            break;
        }
        let ghost now = path@.take(kept as int);
        assert(now.drop_last() =~= path@.take(kept - 1));
        let last: char = path.get_char(kept - 1);
        let slash: bool = last == '/';
        let dot: bool = last == '.' && kept > 1 && path.get_char(kept - 2) == '/';
        if !slash && !dot {
            break;
        }
        kept -= 1;
    }
    kept
}

/// Where what follows the last slash begins in the first `end` characters.
fn name_start(path: &str, end: usize) -> (start: usize)
    requires
        end <= path@.len(),
    ensures
        start <= end,
        path@.subrange(start as int, end as int) == after_slash(path@.take(end as int)),
{
    let mut start: usize = end;
    proof {
        assert(path@.take(end as int) =~= path@.take(start as int) + path@.subrange(
            start as int,
            end as int,
        ));
        assert(after_slash(path@.take(start as int)) + path@.subrange(start as int, end as int)
            =~= after_slash(path@.take(end as int)));
    }
    loop
        invariant
            start <= end <= path@.len(),
            after_slash(path@.take(end as int)) == after_slash(path@.take(start as int))
                + path@.subrange(start as int, end as int),
        ensures
            path@.subrange(start as int, end as int) == after_slash(path@.take(end as int)),
        decreases start,
    {
        if start == 0 {
            assert(after_slash(path@.take(0)) + path@.subrange(0, end as int) =~= path@.subrange(
                0,
                end as int,
            ));
            break;
        }
        let ghost now = path@.take(start as int);
        assert(now.drop_last() =~= path@.take(start - 1));
        if path.get_char(start - 1) == '/' {
            assert(after_slash(now) + path@.subrange(start as int, end as int) =~= path@.subrange(
                start as int,
                end as int,
            ));
            break;
        }
        assert(after_slash(now) + path@.subrange(start as int, end as int) =~= after_slash(
            path@.take(start - 1),
        ) + path@.subrange(start - 1, end as int));
        start -= 1;
    }
    start
}

/// Returns `<path>-wal`.
pub fn wal_path_for(path: &str) -> (result: Result<String>)
    ensures
        match result {
            Ok(wal) => wal_path(path@) == Ok::<Seq<char>, ErrorView>(wal@),
            Err(err) => wal_path(path@) == Err::<Seq<char>, ErrorView>(err@),
        },
{
    let len: usize = path.unicode_len();
    assert(path@.take(len as int) =~= path@);
    let end: usize = trim(path, len);
    let start: usize = name_start(path, end);
    let size: usize = end - start;
    let ghost all = path@.take(end as int);
    let ghost name = path@.subrange(start as int, end as int);
    let named: bool = if size == 0 {
        false
    } else if size == 1 {
        path.get_char(start) != '.'
    } else if size == 2 {
        path.get_char(start) != '.' || path.get_char(start + 1) != '.'
    } else {
        true
    };
    proof {
        assert(after_slash(trimmed(path@)) == name);
        assert(seq!['.'].len() == 1 && seq!['.'][0] == '.');
        assert(seq!['.', '.'].len() == 2 && seq!['.', '.'][0] == '.' && seq!['.', '.'][1] == '.');
        if size == 0 {
            assert(name =~= Seq::empty());
        } else if size == 1 {
            assert(name =~= seq![name[0]]);
        } else if size == 2 {
            assert(name =~= seq![name[0], name[1]]);
        }
        assert(named == (file_name(path@) is Some));
    }
    if !named {
        let mut msg = path.to_owned();
        msg.append(" is not a file path");
        return Err(Error::InvalidArgument(msg));
    }
    assert(before_name(path@) =~= path@.take(start as int));
    let mut wal = if start == 0 {
        "".to_owned()
    } else {
        let parent_end: usize = trim(path, start);
        let mut parent = if parent_end == 0 {
            "".to_owned()
        } else {
            path.substring_char(0, parent_end).to_owned()
        };
        parent.append("/");
        parent
    };
    proof {
        reveal_strlit("");
        reveal_strlit("/");
        assert(wal@ =~= directory(path@));
    }
    wal.append(path.substring_char(start, end));
    wal.append("-wal");
    Ok(wal)
}

/// What follows the last slash, where a name without slashes follows it.
proof fn lemma_name_behind_slash(dir: Seq<char>, name: Seq<char>)
    requires
        dir.len() == 0 || dir.last() == '/',
        forall|i: int| 0 <= i < name.len() ==> name[i] != '/',
    ensures
        after_slash(dir + name) == name,
    decreases name.len(),
{
    if name.len() == 0 {
        assert(dir + name =~= dir);
    } else {
        lemma_name_behind_slash(dir, name.drop_last());
        assert((dir + name).drop_last() =~= dir + name.drop_last());
        assert((dir + name).last() == name[name.len() - 1]);
        assert(name.drop_last().push(name.last()) =~= name);
    }
}

/// Whether a directory is written plainly: it is empty, or ends in one slash,
/// with no `.` component before that.
pub open spec fn is_plain_directory(dir: Seq<char>) -> bool {
    let len = dir.len() as int;
    dir.len() == 0 || {
        &&& dir[len - 1] == '/'
        &&& len > 1 ==> dir[len - 2] != '/'
        &&& len > 2 ==> !(dir[len - 2] == '.' && dir[len - 3] == '/')
    }
}

/// The log of a file is next to it: its path is the path of the file with
/// `-wal` behind. This holds of every path that is a plain directory and a name
/// without slashes. The names that mean a directory have no log.
pub proof fn lemma_log_is_next_to_file(dir: Seq<char>, name: Seq<char>)
    requires
        is_plain_directory(dir),
        name.len() > 0,
        forall|i: int| 0 <= i < name.len() ==> name[i] != '/',
        name != seq!['.'],
    ensures
        if name == seq!['.', '.'] {
            wal_path(dir + name) matches Err(ErrorView::InvalidArgument(_))
        } else {
            wal_path(dir + name) == Ok::<Seq<char>, ErrorView>(
                (dir + name) + seq!['-', 'w', 'a', 'l'],
            )
        },
{
    let path = dir + name;
    let last = name[name.len() - 1];
    reveal_strlit("-wal");
    assert("-wal"@ =~= seq!['-', 'w', 'a', 'l']);
    assert(path.last() == last);
    assert(trimmed(path) == path) by {
        if path.len() > 1 && last == '.' && path[path.len() - 2] == '/' {
            if name.len() == 1 {
                assert(name =~= seq!['.']);
            } else {
                assert(path[path.len() - 2] == name[name.len() - 2]);
            }
        }
    }
    lemma_name_behind_slash(dir, name);
    assert(before_name(path) =~= dir);
    if dir.len() > 0 {
        let parent = dir.drop_last();
        assert(trimmed(parent) == parent) by {
            if parent.len() > 0 {
                assert(parent.last() == dir[dir.len() - 2]);
                if parent.len() > 1 {
                    assert(parent[parent.len() - 2] == dir[dir.len() - 3]);
                }
            }
        }
        assert(trimmed(dir) == trimmed(parent));
        assert(directory(path) =~= dir);
    }
}

/// A slash, or a `.` component, at the end of a path changes nothing about
/// where the log is.
pub proof fn lemma_trailing_slash_is_ignored(path: Seq<char>)
    ensures
        match wal_path(path) {
            Ok(wal) => {
                &&& wal_path(path.push('/')) == Ok::<Seq<char>, ErrorView>(wal)
                &&& wal_path(path.push('/').push('.')) == Ok::<Seq<char>, ErrorView>(wal)
            },
            Err(_) => {
                &&& wal_path(path.push('/')) matches Err(ErrorView::InvalidArgument(_))
                &&& wal_path(path.push('/').push('.')) matches Err(ErrorView::InvalidArgument(_))
            },
        },
{
    let slash = path.push('/');
    let dot = slash.push('.');
    assert(slash.drop_last() =~= path);
    assert(dot.drop_last() =~= slash);
    assert(trimmed(slash) == trimmed(path));
    assert(trimmed(dot) == trimmed(slash));
}

/// The empty path and the root have no log.
pub proof fn lemma_root_has_no_log()
    ensures
        wal_path(Seq::empty()) matches Err(ErrorView::InvalidArgument(_)),
        wal_path(seq!['/']) matches Err(ErrorView::InvalidArgument(_)),
{
    assert(seq!['/'].drop_last() =~= Seq::empty());
    assert(trimmed(Seq::empty()) =~= Seq::empty());
    assert(trimmed(seq!['/']) =~= Seq::empty());
    assert(after_slash(Seq::empty()) =~= Seq::empty());
}

/// More slashes before a name, or a `.` component, change nothing about where
/// the log is.
pub proof fn lemma_extra_components_are_ignored(dir: Seq<char>, name: Seq<char>)
    requires
        dir.len() > 0,
        dir.last() == '/',
        name.len() > 0,
        forall|i: int| 0 <= i < name.len() ==> name[i] != '/',
        name != seq!['.'],
        name != seq!['.', '.'],
    ensures
        wal_path(dir + name) is Ok,
        wal_path(dir.push('/') + name) == wal_path(dir + name),
        wal_path(dir.push('.').push('/') + name) == wal_path(dir + name),
{
    lemma_path_parts(dir, name);
    lemma_path_parts(dir.push('/'), name);
    lemma_path_parts(dir.push('.').push('/'), name);
    assert(dir.push('/').drop_last() =~= dir);
    assert(dir.push('.').push('/').drop_last() =~= dir.push('.'));
    assert(dir.push('.').drop_last() =~= dir);
    assert(trimmed(dir.push('/')) == trimmed(dir));
    assert(trimmed(dir.push('.').push('/')) == trimmed(dir.push('.')));
    assert(trimmed(dir.push('.')) == trimmed(dir));
}

/// The parts of a path that ends in a name.
proof fn lemma_path_parts(dir: Seq<char>, name: Seq<char>)
    requires
        dir.len() > 0,
        dir.last() == '/',
        name.len() > 0,
        forall|i: int| 0 <= i < name.len() ==> name[i] != '/',
        name != seq!['.'],
        name != seq!['.', '.'],
    ensures
        wal_path(dir + name) == Ok::<Seq<char>, ErrorView>(
            trimmed(dir).push('/') + name + "-wal"@,
        ),
{
    let path = dir + name;
    let last = name[name.len() - 1];
    assert(path.last() == last);
    assert(trimmed(path) == path) by {
        if path.len() > 1 && last == '.' && path[path.len() - 2] == '/' {
            if name.len() == 1 {
                assert(name =~= seq!['.']);
            } else {
                assert(path[path.len() - 2] == name[name.len() - 2]);
            }
        }
    }
    lemma_name_behind_slash(dir, name);
    assert(before_name(path) =~= dir);
}

} // verus!
