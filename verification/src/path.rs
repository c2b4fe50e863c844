//! Paths as text: how the names of shard files and lock markers are put together.

use vstd::prelude::*;

verus! {

/// One more than the index of the last `mark` in `text`, or zero where there
/// is none.
pub open spec fn after_last(text: Seq<char>, mark: char) -> nat
    decreases text.len(),
{
    if text.len() == 0 {
        0
    } else if text.last() == mark {
        text.len()
    } else {
        after_last(text.drop_last(), mark)
    }
}

/// A directory and a name below it as one path: the two are set side by
/// side, with a `/` between them unless the directory is empty or ends in one.
pub open spec fn joined(directory: Seq<char>, name: Seq<char>) -> Seq<char> {
    if directory.len() == 0 {
        name
    } else if directory.last() == '/' {
        directory + name
    } else {
        directory + seq!['/'] + name
    }
}

/// Where the stem of a path ends: at its last dot, if that dot stands in the
/// final component and is not its first character, else at the end.
pub open spec fn stem_end(path: Seq<char>) -> nat {
    if after_last(path, '.') > after_last(path, '/') + 1 {
        (after_last(path, '.') - 1) as nat
    } else {
        path.len()
    }
}

/// The final component of a path without its extension.
pub open spec fn stem_of(path: Seq<char>) -> Seq<char> {
    path.subrange(after_last(path, '/') as int, stem_end(path) as int)
}

/// What follows the dot at which the stem ends; empty where there is no such dot.
pub open spec fn extension_of(path: Seq<char>) -> Seq<char> {
    if stem_end(path) < path.len() {
        path.skip(stem_end(path) as int + 1)
    } else {
        Seq::empty()
    }
}

/// The path with its extension replaced by `extension`, or with `extension`
/// added where it had none.
pub open spec fn replaced_extension(path: Seq<char>, extension: Seq<char>) -> Seq<char> {
    path.take(stem_end(path) as int) + seq!['.'] + extension
}

/// Where the last separator and the last dot of a path stand.
struct Marks {
    length: usize,
    after_separator: usize,
    after_dot: usize,
}

/// Reads a path once and notes its length in characters and the places after
/// its last `/` and after its last `.`.
fn marks(path: &str) -> (found: Marks)
    ensures
        found.length == path@.len(),
        found.after_separator == after_last(path@, '/'),
        found.after_dot == after_last(path@, '.'),
        found.after_separator <= found.length,
        found.after_dot <= found.length,
{
    proof {
        lemma_after_last_bound(path@, '/');
        lemma_after_last_bound(path@, '.');
    }
    let total = path.unicode_len();
    let mut length: usize = 0;
    let mut after_separator: usize = 0;
    let mut after_dot: usize = 0;
    for c in iter: path.chars()
        invariant
            iter.seq() == path@,
            total == path@.len(),
            length == iter.index(),
            after_separator == after_last(path@.take(iter.index() as int), '/'),
            after_dot == after_last(path@.take(iter.index() as int), '.'),
    {
        proof {
            let i = iter.index() as int;
            assert(i < path@.len());
            assert(path@.take(i + 1).drop_last() =~= path@.take(i));
            assert(path@.take(i + 1).last() == c);
        }
        length = length + 1;
        if c == '/' {
            after_separator = length;
        }
        if c == '.' {
            after_dot = length;
        }
    }
    proof {
        assert(path@.take(path@.len() as int) =~= path@);
    }
    Marks { length, after_separator, after_dot }
}

impl Marks {
    /// Where the stem of the path ends.
    fn stem_end(&self) -> (end: usize)
        requires
            self.after_separator <= self.length,
            self.after_dot <= self.length,
        ensures
            end == if self.after_dot > self.after_separator + 1 {
                self.after_dot - 1
            } else {
                self.length as int
            },
            end <= self.length,
    {
        if self.after_dot > self.after_separator && self.after_dot - self.after_separator > 1 {
            self.after_dot - 1
        } else {
            self.length
        }
    }
}

/// Sets a name below a directory.
pub fn join(directory: &str, name: &str) -> (path: String)
    ensures
        path@ == joined(directory@, name@),
{
    let found = marks(directory);
    if found.length == 0 {
        return name.to_owned();
    }
    let mut path = directory.to_owned();
    proof {
        reveal_strlit("/");
        lemma_after_last_bound(directory@, '/');
    }
    if found.after_separator != found.length {
        path.append("/");
    }
    path.append(name);
    assert(path@ =~= joined(directory@, name@));
    path
}

/// The final component of a path without its extension.
pub fn file_stem(path: &str) -> (stem: String)
    ensures
        stem@ == stem_of(path@),
{
    let found = marks(path);
    let end = found.stem_end();
    if found.after_separator <= end {
        path.substring_char(found.after_separator, end).to_owned()
    } else {
        proof {
            assert(stem_of(path@) =~= Seq::<char>::empty());
        }
        String::new()
    }
}

/// The extension of a path, without its dot.
pub fn extension(path: &str) -> (text: String)
    ensures
        text@ == extension_of(path@),
{
    let found = marks(path);
    let end = found.stem_end();
    if end < found.length {
        path.substring_char(end + 1, found.length).to_owned()
    } else {
        String::new()
    }
}

/// The path with its extension replaced.
pub fn with_extension(path: &str, extension: &str) -> (changed: String)
    ensures
        changed@ == replaced_extension(path@, extension@),
{
    let found = marks(path);
    let end = found.stem_end();
    let mut changed = path.substring_char(0, end).to_owned();
    proof {
        reveal_strlit(".");
    }
    changed.append(".");
    changed.append(extension);
    assert(changed@ =~= replaced_extension(path@, extension@));
    changed
}

/// The place after the last mark lies within the text.
pub proof fn lemma_after_last_bound(text: Seq<char>, mark: char)
    ensures
        after_last(text, mark) <= text.len(),
        after_last(text, mark) > 0 ==> text[after_last(text, mark) - 1] == mark,
        forall|i: int| after_last(text, mark) <= i < text.len() ==> text[i] != mark,
    decreases text.len(),
{
    if text.len() > 0 && text.last() != mark {
        let shorter = text.drop_last();
        lemma_after_last_bound(shorter, mark);
        assert forall|i: int| after_last(text, mark) <= i < text.len() implies text[i]
            != mark by {
            if i < shorter.len() {
                assert(shorter[i] == text[i]);
            }
        }
    }
}

/// A text without the mark has no place after it.
pub proof fn lemma_after_last_absent(text: Seq<char>, mark: char)
    requires
        forall|i: int| 0 <= i < text.len() ==> text[i] != mark,
    ensures
        after_last(text, mark) == 0,
    decreases text.len(),
{
    if text.len() > 0 {
        let shorter = text.drop_last();
        assert forall|i: int| 0 <= i < shorter.len() implies shorter[i] != mark by {
            assert(shorter[i] == text[i]);
        }
        lemma_after_last_absent(shorter, mark);
    }
}

/// In two texts set side by side, the last mark is that of the second text
/// where it has one, else that of the first.
pub proof fn lemma_after_last_concat(first: Seq<char>, second: Seq<char>, mark: char)
    ensures
        after_last(first + second, mark) == if after_last(second, mark) > 0 {
            first.len() + after_last(second, mark)
        } else {
            after_last(first, mark)
        },
    decreases second.len(),
{
    if second.len() == 0 {
        assert(first + second =~= first);
    } else {
        assert((first + second).drop_last() =~= first + second.drop_last());
        assert((first + second).last() == second.last());
        if second.last() != mark {
            lemma_after_last_concat(first, second.drop_last(), mark);
        }
    }
}

/// A path ends with the name that was set below its directory.
pub proof fn lemma_joined_ends_with_name(directory: Seq<char>, name: Seq<char>)
    ensures
        joined(directory, name).len() >= name.len(),
        joined(directory, name).skip(joined(directory, name).len() - name.len()) == name,
{
    let path = joined(directory, name);
    assert(path.skip(path.len() - name.len()) =~= name);
}

/// A name that is set below one directory gives as many paths as there are
/// names.
pub proof fn lemma_joined_apart(directory: Seq<char>, first: Seq<char>, second: Seq<char>)
    requires
        first != second,
    ensures
        joined(directory, first) != joined(directory, second),
{
    if joined(directory, first) == joined(directory, second) {
        let prefix = if directory.len() == 0 {
            Seq::<char>::empty()
        } else if directory.last() == '/' {
            directory
        } else {
            directory + seq!['/']
        };
        assert(joined(directory, first) =~= prefix + first);
        assert(joined(directory, second) =~= prefix + second);
        assert((prefix + first).skip(prefix.len() as int) =~= first);
        assert((prefix + second).skip(prefix.len() as int) =~= second);
    }
}

} // verus!
