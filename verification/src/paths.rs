//! File paths, as text.
//!
//! Paths are read by the rules of Unix: a slash separates, repeated slashes and
//! single dots count for nothing.
use vstd::prelude::*;
use vstd::slice::slice_subrange;

use crate::text::{
    chars_of, push_text, same_text, split, split_of_one_part, split_of_two_parts, split_text,
    string_of, texts,
};

verus! {

/// Where the text after the last slash starts.
pub open spec fn after_last_slash(s: Seq<char>) -> int
    decreases s.len(),
{
    if s.len() == 0 || s.last() == '/' {
        s.len() as int
    } else {
        after_last_slash(s.drop_last())
    }
}

/// The name that a path ends with; none where it ends with two dots, or has
/// nothing but slashes and dots.
pub open spec fn file_name(s: Seq<char>) -> Option<Seq<char>>
    decreases s.len(),
    via file_name_decreases
{
    let start = after_last_slash(s);
    let name = s.skip(start);
    if name.len() == 0 || name == seq!['.'] {
        if start == 0 {
            None
        } else {
            file_name(s.take(start - 1))
        }
    } else if name == seq!['.', '.'] {
        None
    } else {
        Some(name)
    }
}

#[via_fn]
proof fn file_name_decreases(s: Seq<char>) {
    lemma_after_last_slash(s);
}

proof fn lemma_after_last_slash(s: Seq<char>)
    ensures
        0 <= after_last_slash(s) <= s.len(),
        after_last_slash(s) > 0 ==> s[after_last_slash(s) - 1] == '/',
        forall|i: int| after_last_slash(s) <= i < s.len() ==> s[i] != '/',
    decreases s.len(),
{
    if s.len() > 0 && s.last() != '/' {
        lemma_after_last_slash(s.drop_last());
        assert(forall|i: int| 0 <= i < s.len() - 1 ==> s[i] == #[trigger] s.drop_last()[i]);
        assert forall|i: int| after_last_slash(s) <= i < s.len() implies s[i] != '/' by {
            if i < s.len() - 1 {
                assert(s.drop_last()[i] != '/');
            }
        }
    }
}

/// The place of the last dot.
pub open spec fn last_dot(s: Seq<char>) -> Option<int>
    decreases s.len(),
{
    if s.len() == 0 {
        None
    } else if s.last() == '.' {
        Some(s.len() - 1)
    } else {
        last_dot(s.drop_last())
    }
}

pub proof fn lemma_last_dot(s: Seq<char>)
    ensures
        last_dot(s) matches Some(k) ==> 0 <= k < s.len() && s[k] == '.',
    decreases s.len(),
{
    if s.len() > 0 && s.last() != '.' {
        lemma_last_dot(s.drop_last());
    }
}

/// A name without its extension.  A dot that the name starts with starts no
/// extension.
pub open spec fn stem_of_name(name: Seq<char>) -> Seq<char> {
    match last_dot(name) {
        Some(k) if k > 0 => name.take(k),
        _ => name,
    }
}

/// The name that a path ends with, without its extension.
pub open spec fn file_stem(s: Seq<char>) -> Option<Seq<char>> {
    match file_name(s) {
        Some(name) => Some(stem_of_name(name)),
        None => None,
    }
}

/// A path below another.  An absolute path stays what it is.
pub open spec fn joined(base: Seq<char>, child: Seq<char>) -> Seq<char> {
    if child.len() > 0 && child[0] == '/' {
        child
    } else if base.len() == 0 || base.last() == '/' {
        base + child
    } else {
        base + seq!['/'] + child
    }
}

pub open spec fn same_opt(s: Option<String>, model: Option<Seq<char>>) -> bool {
    match s {
        Some(t) => model == Some(t@),
        None => model is None,
    }
}

fn find_name(s: &[char]) -> (name: Option<&[char]>)
    ensures
        match name {
            Some(n) => file_name(s@) == Some(n@),
            None => file_name(s@) is None,
        },
{
    let mut end: usize = s.len();
    assert(s@.take(end as int) =~= s@);
    loop
        invariant
            end <= s@.len(),
            file_name(s@.take(end as int)) == file_name(s@),
        decreases end,
    {
        let ghost front = s@.take(end as int);
        let mut start: usize = end;
        assert(front.take(end as int) =~= front);
        while start > 0 && s[start - 1] != '/'
            invariant
                start <= end <= s@.len(),
                front == s@.take(end as int),
                after_last_slash(front.take(start as int)) == after_last_slash(front),
            decreases start,
        {
            assert(front.take(start as int).drop_last() =~= front.take(start - 1));
            start = start - 1;
        }
        assert(start == after_last_slash(front));
        let name = slice_subrange(s, start, end);
        assert(name@ =~= front.skip(start as int));
        if name.len() == 0 || (name.len() == 1 && name[0] == '.') {
            assert(name@.len() == 0 || name@ =~= seq!['.']);
            if start == 0 {
                return None;
            }
            assert(front.take(start - 1) =~= s@.take(start - 1));
            end = start - 1;
        } else if name.len() == 2 && name[0] == '.' && name[1] == '.' {
            assert(name@ =~= seq!['.', '.']);
            return None;
        } else {
            return Some(name);
        }
    }
}

fn find_stem(name: &[char]) -> (stem: &[char])
    ensures
        stem@ == stem_of_name(name@),
{
    let mut i: usize = name.len();
    assert(name@.take(i as int) =~= name@);
    while i > 0
        invariant
            i <= name@.len(),
            last_dot(name@.take(i as int)) == last_dot(name@),
        decreases i,
    {
        assert(name@.take(i as int).drop_last() =~= name@.take(i - 1));
        if name[i - 1] == '.' {
            if i == 1 {
                return name;
            }
            let stem = slice_subrange(name, 0, i - 1);
            assert(stem@ =~= name@.take(i - 1));
            return stem;
        }
        i = i - 1;
    }
    name
}

/// The name that a path ends with.
pub fn name_of_path(path: &str) -> (name: Option<String>)
    ensures
        same_opt(name, file_name(path@)),
{
    let chars = chars_of(path);
    match find_name(chars.as_slice()) {
        Some(n) => Some(string_of(n)),
        None => None,
    }
}

/// The name that a path ends with, without its extension.
pub fn stem_of_path(path: &str) -> (stem: Option<String>)
    ensures
        same_opt(stem, file_stem(path@)),
{
    let chars = chars_of(path);
    match find_name(chars.as_slice()) {
        Some(n) => Some(string_of(find_stem(n))),
        None => None,
    }
}

/// A path below another.
pub fn join(base: &str, child: &str) -> (path: String)
    ensures
        path@ == joined(base@, child@),
{
    if !child.is_empty() && child.get_char(0) == '/' {
        return child.to_string();
    }
    let mut path = base.to_string();
    if !base.is_empty() {
        let len: usize = base.unicode_len();
        if base.get_char(len - 1) != '/' {
            path.push('/');
            assert(path@ =~= base@ + seq!['/']);
        }
    }
    path.append(child);
    path
}

/// Whether a piece of a path between slashes counts.
pub open spec fn is_component(piece: Seq<char>) -> bool {
    piece.len() > 0 && piece != "."@
}

/// What a path leads through, folder by folder.
pub open spec fn components(s: Seq<char>) -> Seq<Seq<char>> {
    split(s, '/').filter(|piece: Seq<char>| is_component(piece))
}

pub open spec fn is_absolute(s: Seq<char>) -> bool {
    s.len() > 0 && s[0] == '/'
}

/// Names with slashes between them.
pub open spec fn slashed(names: Seq<Seq<char>>) -> Seq<char>
    decreases names.len(),
{
    if names.len() == 0 {
        Seq::empty()
    } else if names.len() == 1 {
        names[0]
    } else {
        slashed(names.drop_last()) + "/"@ + names.last()
    }
}

/// A path as seen from a folder; one that does not lie below the folder stays
/// what it is.
pub open spec fn relative_to(path: Seq<char>, folder: Seq<char>) -> Seq<char> {
    if is_absolute(path) == is_absolute(folder) && components(folder).is_prefix_of(
        components(path),
    ) {
        slashed(components(path).skip(components(folder).len() as int))
    } else {
        path
    }
}

fn components_of(path: &str) -> (names: Vec<String>)
    ensures
        texts(names@) == components(path@),
{
    let pieces = split_text(path, '/');
    let ghost all = split(path@, '/');
    let ghost counts = |piece: Seq<char>| is_component(piece);
    let mut names: Vec<String> = Vec::new();
    let mut i: usize = 0;
    reveal(Seq::filter);
    assert(texts(names@) =~= all.take(0).filter(counts));
    while i < pieces.len()
        invariant
            i <= pieces@.len(),
            texts(pieces@) == all,
            counts == (|piece: Seq<char>| is_component(piece)),
            texts(names@) == all.take(i as int).filter(counts),
        decreases pieces@.len() - i,
    {
        reveal(Seq::filter);
        assert(all[i as int] == pieces@[i as int]@);
        assert(all.take(i + 1).drop_last() =~= all.take(i as int));
        let piece = pieces[i].as_str();
        if !piece.is_empty() && !same_text(piece, ".") {
            push_text(&mut names, piece);
        }
        i = i + 1;
    }
    assert(all.take(i as int) =~= all);
    names
}

fn starts_with(names: &Vec<String>, start: &Vec<String>) -> (b: bool)
    ensures
        b == texts(start@).is_prefix_of(texts(names@)),
{
    if start.len() > names.len() {
        return false;
    }
    let mut i: usize = 0;
    while i < start.len()
        invariant
            i <= start@.len() <= names@.len(),
            texts(start@).take(i as int) == texts(names@).take(i as int),
        decreases start@.len() - i,
    {
        if !same_text(start[i].as_str(), names[i].as_str()) {
            proof {
                let k = i as int;
                if texts(start@).is_prefix_of(texts(names@)) {
                    assert(texts(names@).subrange(0, start@.len() as int)[k] == texts(start@)[k]);
                }
            }
            return false;
        }
        assert(texts(start@).take(i + 1) =~= texts(start@).take(i as int).push(start@[i as int]@));
        assert(texts(names@).take(i + 1) =~= texts(names@).take(i as int).push(names@[i as int]@));
        i = i + 1;
    }
    assert(texts(start@).take(i as int) =~= texts(start@));
    assert(texts(names@).take(i as int) =~= texts(names@).subrange(0, i as int));
    true
}

fn write_slashed(names: &Vec<String>, from: usize) -> (s: String)
    requires
        from <= names@.len(),
    ensures
        s@ == slashed(texts(names@).skip(from as int)),
{
    let ghost all = texts(names@).skip(from as int);
    let mut s = String::new();
    let mut i: usize = from;
    assert(all.take(0) =~= Seq::empty());
    while i < names.len()
        invariant
            from <= i <= names@.len(),
            all == texts(names@).skip(from as int),
            s@ == slashed(all.take(i - from)),
        decreases names@.len() - i,
    {
        let ghost next = all.take(i - from + 1);
        if i > from {
            s.append("/");
        }
        s.append(names[i].as_str());
        proof {
            assert(next.drop_last() =~= all.take(i - from));
            assert(next.last() == names@[i as int]@);
            assert(s@ =~= slashed(next));
        }
        i = i + 1;
    }
    assert(all.take(i - from) =~= all);
    s
}

fn starts_at_root(path: &str) -> (b: bool)
    ensures
        b == is_absolute(path@),
{
    !path.is_empty() && path.get_char(0) == '/'
}

/// A path as seen from a folder.
pub fn relative_path(path: &str, folder: &str) -> (r: String)
    ensures
        r@ == relative_to(path@, folder@),
{
    let names = components_of(path);
    let above = components_of(folder);
    if starts_at_root(path) == starts_at_root(folder) && starts_with(&names, &above) {
        write_slashed(&names, above.len())
    } else {
        path.to_string()
    }
}

/// Seen from a folder, what lies below it is what was put behind the folder's
/// path.
pub proof fn below_a_folder_is_seen_from_it(folder: Seq<char>, rest: Seq<char>)
    requires
        folder.len() > 0,
    ensures
        components(folder + seq!['/'] + rest) == components(folder) + components(rest),
        relative_to(folder + seq!['/'] + rest, folder) == slashed(components(rest)),
{
    let path = folder + seq!['/'] + rest;
    let counts = |piece: Seq<char>| is_component(piece);
    split_of_two_parts(folder, rest, '/');
    Seq::filter_distributes_over_add(split(folder, '/'), split(rest, '/'), counts);
    let n = components(folder).len() as int;
    assert(components(folder) =~= components(path).subrange(0, n));
    assert(components(path).skip(n) =~= components(rest));
}

/// A name without slashes, below a folder, names something below it: the folder
/// itself is the start of the path, and the path is longer.
pub proof fn joined_stays_below(base: Seq<char>, name: Seq<char>)
    requires
        name.len() > 0,
        name[0] != '/',
    ensures
        base.is_prefix_of(joined(base, name)),
        joined(base, name).len() > base.len(),
{
    assert(base =~= joined(base, name).subrange(0, base.len() as int));
}

/// The name that a path ends with is never empty, holds no slash, and is not one
/// or two dots.
pub proof fn file_name_is_a_name(s: Seq<char>)
    ensures
        file_name(s) matches Some(name) ==> {
            &&& name.len() > 0
            &&& name != seq!['.']
            &&& name != seq!['.', '.']
            &&& forall|i: int| 0 <= i < name.len() ==> name[i] != '/'
        },
    decreases s.len(),
{
    lemma_after_last_slash(s);
    let start = after_last_slash(s);
    let name = s.skip(start);
    if name.len() == 0 || name == seq!['.'] {
        if start > 0 {
            file_name_is_a_name(s.take(start - 1));
        }
    }
}

proof fn lemma_slash_is_last(front: Seq<char>, name: Seq<char>)
    requires
        forall|i: int| 0 <= i < name.len() ==> #[trigger] name[i] != '/',
        front.len() == 0 || front.last() == '/',
    ensures
        after_last_slash(front + name) == front.len(),
    decreases name.len(),
{
    let s = front + name;
    if name.len() > 0 {
        assert(s.last() == name[name.len() - 1]);
        assert(s.drop_last() =~= front + name.drop_last());
        assert(forall|i: int| 0 <= i < name.len() - 1 ==> #[trigger] name.drop_last()[i] == name[i]);
        lemma_slash_is_last(front, name.drop_last());
    } else {
        assert(s =~= front);
    }
}

/// The name that a path ends with is what stands behind its last slash.  Slashes and
/// single dots at its end count for nothing.
pub proof fn the_name_stands_behind_the_last_slash(folder: Seq<char>, name: Seq<char>)
    requires
        name.len() > 0,
        name != seq!['.'],
        name != seq!['.', '.'],
        forall|i: int| 0 <= i < name.len() ==> #[trigger] name[i] != '/',
    ensures
        file_name(folder + seq!['/'] + name) == Some(name),
        file_name(name) == Some(name),
        file_name(folder + seq!['/'] + name + seq!['/']) == Some(name),
        file_name(folder + seq!['/'] + name + seq!['/', '.']) == Some(name),
        file_name(folder + seq!['/', '.', '.']) is None,
{
    let front = folder + seq!['/'];
    let path = front + name;
    lemma_slash_is_last(front, name);
    assert(path.skip(front.len() as int) =~= name);
    lemma_slash_is_last(Seq::empty(), name);
    assert(Seq::<char>::empty() + name =~= name);
    assert(name.skip(0) =~= name);
    let slashed_path = path + seq!['/'];
    lemma_slash_is_last(slashed_path, Seq::empty());
    assert(slashed_path + Seq::empty() =~= slashed_path);
    assert(slashed_path.skip(slashed_path.len() as int) =~= Seq::empty());
    assert(slashed_path.take(slashed_path.len() - 1) =~= path);
    let dotted = slashed_path + seq!['.'];
    lemma_slash_is_last(slashed_path, seq!['.']);
    assert(dotted =~= path + seq!['/', '.']);
    assert(dotted.skip(slashed_path.len() as int) =~= seq!['.']);
    assert(dotted.take(slashed_path.len() - 1) =~= path);
    let up = front + seq!['.', '.'];
    lemma_slash_is_last(front, seq!['.', '.']);
    assert(up =~= folder + seq!['/', '.', '.']);
    assert(up.skip(front.len() as int) =~= seq!['.', '.']);
    assert(seq!['.', '.'].len() == 2 && seq!['.'].len() == 1);
}

proof fn lemma_dot_is_last(base: Seq<char>, ending: Seq<char>)
    requires
        forall|i: int| 0 <= i < ending.len() ==> #[trigger] ending[i] != '.',
    ensures
        last_dot(base + seq!['.'] + ending) == Some(base.len() as int),
    decreases ending.len(),
{
    let s = base + seq!['.'] + ending;
    if ending.len() > 0 {
        assert(s.last() == ending[ending.len() - 1]);
        assert(s.drop_last() =~= base + seq!['.'] + ending.drop_last());
        assert(forall|i: int|
            0 <= i < ending.len() - 1 ==> #[trigger] ending.drop_last()[i] == ending[i]);
        lemma_dot_is_last(base, ending.drop_last());
    } else {
        assert(s.last() == '.');
    }
}

proof fn lemma_no_dot(s: Seq<char>)
    requires
        forall|i: int| 0 <= i < s.len() ==> #[trigger] s[i] != '.',
    ensures
        last_dot(s) is None,
    decreases s.len(),
{
    if s.len() > 0 {
        assert(s.last() == s[s.len() - 1]);
        assert(forall|i: int| 0 <= i < s.len() - 1 ==> #[trigger] s.drop_last()[i] == s[i]);
        lemma_no_dot(s.drop_last());
    }
}

/// The stem of a name is what stands before its last dot; a dot that it starts with does
/// not count, and a name without a dot is its own stem.
pub proof fn the_stem_stands_before_the_last_dot(base: Seq<char>, ending: Seq<char>)
    requires
        forall|i: int| 0 <= i < ending.len() ==> #[trigger] ending[i] != '.',
    ensures
        stem_of_name(base + seq!['.'] + ending) == (if base.len() > 0 {
            base
        } else {
            seq!['.'] + ending
        }),
        stem_of_name(ending) == ending,
{
    let s = base + seq!['.'] + ending;
    lemma_dot_is_last(base, ending);
    lemma_no_dot(ending);
    assert(s.take(base.len() as int) =~= base);
    assert(Seq::<char>::empty() + seq!['.'] + ending =~= seq!['.'] + ending);
    if base.len() == 0 {
        assert(s =~= seq!['.'] + ending);
    }
}

/// A path below another: one slash stands between them, and none is doubled.
pub proof fn joined_paths_have_a_slash_between(base: Seq<char>, child: Seq<char>)
    ensures
        child.len() > 0 && child[0] == '/' ==> joined(base, child) == child,
        !(child.len() > 0 && child[0] == '/') ==> {
            &&& joined(Seq::empty(), child) == child
            &&& base.len() > 0 && base.last() != '/' ==> joined(base, child) == base + seq!['/']
                + child
            &&& joined(base + seq!['/'], child) == base + seq!['/'] + child
        },
{
    assert(Seq::<char>::empty() + child =~= child);
}

/// Names without slashes, none of them a dot or empty, are what a path of them leads
/// through.
pub proof fn a_path_leads_through_its_names(names: Seq<Seq<char>>)
    requires
        forall|k: int|
            0 <= k < names.len() ==> (#[trigger] names[k]).len() > 0 && names[k] != "."@,
        forall|k: int, i: int|
            0 <= k < names.len() && 0 <= i < names[k].len() ==> #[trigger] names[k][i] != '/',
    ensures
        components(slashed(names)) == names,
    decreases names.len(),
{
    reveal_strlit("/");
    reveal_with_fuel(Seq::filter, 2);
    let counts = |piece: Seq<char>| is_component(piece);
    if names.len() == 0 {
        let none = Seq::<Seq<char>>::empty();
        assert(split(Seq::<char>::empty(), '/').drop_last() =~= none);
        assert(components(slashed(names)) =~= names);
    } else if names.len() == 1 {
        split_of_one_part(names[0], '/');
        assert(seq![names[0]].drop_last() =~= Seq::empty());
        assert(components(slashed(names)) =~= names);
    } else {
        let front = names.drop_last();
        assert(forall|k: int| 0 <= k < front.len() ==> #[trigger] front[k] == names[k]);
        a_path_leads_through_its_names(front);
        assert("/"@ =~= seq!['/']);
        let last = names.last();
        assert(last == names[names.len() - 1]);
        split_of_one_part(last, '/');
        split_of_two_parts(slashed(front), last, '/');
        Seq::filter_distributes_over_add(split(slashed(front), '/'), seq![last], counts);
        assert(seq![last].drop_last() =~= Seq::empty());
        assert(seq![last].filter(counts) =~= seq![last]);
        assert(components(slashed(names)) =~= front + seq![last]);
        assert(front + seq![last] =~= names);
    }
}

/// A path that does not lie below a folder is seen as it is.
pub proof fn a_path_elsewhere_is_seen_as_it_is(path: Seq<char>, folder: Seq<char>)
    requires
        (path.len() > 0 && path[0] == '/') != (folder.len() > 0 && folder[0] == '/')
            || !components(folder).is_prefix_of(components(path)),
    ensures
        relative_to(path, folder) == path,
{
}

} // verus!
