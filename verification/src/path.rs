//! Paths as text, their parts separated by `/`.

use crate::text::{
    find_last, from_range, last_index, lemma_is_last_index, lemma_split_add, lemma_split_none,
    lemma_texts_push, opt_text, replace_range, replaced, same_text, split, split_at_char, texts,
    to_chars,
};
use vstd::prelude::*;
use vstd::string::*;

verus! {

/// The part of a path that stands for its root.
pub open spec fn root() -> Seq<char> {
    "/"@
}

pub open spec fn is_absolute(path: Seq<char>) -> bool {
    path.len() > 0 && path[0] == '/'
}

/// Whether a piece between separators is a part of the path: empty pieces and
/// `.` are not.
pub open spec fn is_part(piece: Seq<char>) -> bool {
    piece.len() > 0 && piece != "."@
}

/// The parts of a path, the root included; a `.` counts only where the path
/// starts with it.
pub open spec fn components(path: Seq<char>) -> Seq<Seq<char>> {
    let pieces = split_at_char(path, '/');
    let parts = pieces.filter(|p: Seq<char>| is_part(p));
    if is_absolute(path) {
        seq![root()] + parts
    } else if pieces[0] == "."@ {
        seq!["."@] + parts
    } else {
        parts
    }
}

/// Whether a path is another or lies below it, part by part.
pub open spec fn lies_in(path: Seq<char>, dir: Seq<char>) -> bool {
    components(dir).is_prefix_of(components(path))
}

/// The last part of a path, where that is a name.
pub open spec fn name_of(path: Seq<char>) -> Option<Seq<char>> {
    let parts = components(path);
    if parts.len() == 0 || parts.last() == root() || parts.last() == "."@ || parts.last()
        == ".."@ {
        None
    } else {
        Some(parts.last())
    }
}

/// What follows the last dot of a path's name; a dot that the name starts with
/// does not count.
pub open spec fn extension_of(path: Seq<char>) -> Option<Seq<char>> {
    match name_of(path) {
        Some(name) => {
            let dot = last_index(name, '.');
            if dot > 0 {
                Some(name.skip(dot + 1))
            } else {
                None
            }
        },
        None => None,
    }
}

/// A path's name without its extension.
pub open spec fn stem_of(path: Seq<char>) -> Option<Seq<char>> {
    match name_of(path) {
        Some(name) => {
            let dot = last_index(name, '.');
            if dot > 0 {
                Some(name.take(dot))
            } else {
                Some(name)
            }
        },
        None => None,
    }
}

/// A path below another; an absolute one stands for itself.
pub open spec fn joined_path(base: Seq<char>, rest: Seq<char>) -> Seq<char> {
    if is_absolute(rest) {
        rest
    } else if base.len() > 0 && base.last() != '/' {
        base + "/"@ + rest
    } else {
        base + rest
    }
}

/// A path, or a text of paths, as it is on the machine, with `/` between the
/// parts: Windows puts a backslash there.
pub open spec fn slashed(text: Seq<char>, windows: bool) -> Seq<char> {
    if windows {
        replaced(text, '\\', '/')
    } else {
        text
    }
}

/// A path, or a text of paths, with `/` between the parts.
pub fn with_slashes(text: &str, windows: bool) -> (r: String)
    ensures
        r@ == slashed(text@, windows),
{
    if windows {
        let chars = to_chars(text);
        assert(chars@.subrange(0, chars@.len() as int) =~= text@);
        replace_range(&chars, 0, chars.len(), '\\', '/')
    } else {
        text.to_owned()
    }
}

/// The parts of a path.
pub fn parts(path: &str) -> (r: Vec<String>)
    ensures
        texts(r@) == components(path@),
{
    let pieces = split(path, '/');
    let ghost views = texts(pieces@);
    let ghost pred = |p: Seq<char>| is_part(p);
    let chars = to_chars(path);
    let mut out: Vec<String> = Vec::new();
    proof {
        assert(texts(out@) =~= Seq::empty());
        assert(views.len() == pieces@.len());
        assert(views.len() > 0);
        assert(views[0] == pieces@[0]@);
    }
    if chars.len() > 0 && chars[0] == '/' {
        proof {
            assert(texts(out@).push("/"@) =~= seq!["/"@]);
        }
        let root = "/".to_owned();
        proof {
            lemma_texts_push(out@, root);
        }
        out.push(root);
    } else if same_text(pieces[0].as_str(), ".") {
        let dot = ".".to_owned();
        proof {
            assert(texts(out@).push("."@) =~= seq!["."@]);
            lemma_texts_push(out@, dot);
        }
        out.push(dot);
    }
    let ghost head = texts(out@);
    let mut i: usize = 0;
    proof {
        assert(views.take(0) =~= Seq::empty());
        assert(Seq::<Seq<char>>::empty().filter(pred) =~= Seq::empty()) by {
            reveal(Seq::filter);
        }
        assert(head + Seq::empty() =~= head);
    }
    while i < pieces.len()
        invariant
            i <= pieces.len(),
            views == texts(pieces@),
            pred == (|p: Seq<char>| is_part(p)),
            texts(out@) == head + views.take(i as int).filter(pred),
        decreases pieces.len() - i,
    {
        let piece = pieces[i].clone();
        let ghost kept = views.take(i as int).filter(pred);
        proof {
            assert(views.take(i + 1) =~= views.take(i as int).push(views[i as int]));
            views.take(i as int).lemma_filter_push(views[i as int], pred);
            lemma_texts_push(out@, piece);
            assert((head + kept).push(piece@) =~= head + kept.push(piece@));
        }
        if !piece.as_str().is_empty() && !same_text(piece.as_str(), ".") {
            out.push(piece);
        }
        i += 1;
    }
    proof {
        assert(views.take(i as int) =~= views);
        assert(Seq::<Seq<char>>::empty() + views.filter(pred) =~= views.filter(pred));
    }
    out
}

/// Whether a path is another or lies below it, part by part.
pub fn path_starts_with(path: &str, dir: &str) -> (r: bool)
    ensures
        r == lies_in(path@, dir@),
{
    let a = parts(path);
    let b = parts(dir);
    let ghost av = texts(a@);
    let ghost bv = texts(b@);
    if b.len() > a.len() {
        return false;
    }
    let mut i: usize = 0;
    while i < b.len()
        invariant
            i <= b.len() <= a.len(),
            av == texts(a@),
            bv == texts(b@),
            av == components(path@),
            bv == components(dir@),
            forall|k: int| 0 <= k < i ==> av[k] == bv[k],
        decreases b.len() - i,
    {
        if !same_text(a[i].as_str(), b[i].as_str()) {
            assert(av[i as int] != bv[i as int]);
            return false;
        }
        assert(av[i as int] == bv[i as int]);
        i += 1;
    }
    assert(bv.is_prefix_of(av));
    true
}

/// The last part of a path, where that is a name.
pub fn file_name(path: &str) -> (r: Option<String>)
    ensures
        opt_text(r) == name_of(path@),
{
    let all = parts(path);
    let ghost views = texts(all@);
    assert(views.len() == all@.len());
    if all.len() == 0 {
        return None;
    }
    let last = all[all.len() - 1].clone();
    assert(views.last() == last@);
    if same_text(last.as_str(), "/") || same_text(last.as_str(), ".") || same_text(
        last.as_str(),
        "..",
    ) {
        None
    } else {
        Some(last)
    }
}

/// What follows the last dot of a path's name.
pub fn extension(path: &str) -> (r: Option<String>)
    ensures
        opt_text(r) == extension_of(path@),
{
    match file_name(path) {
        Some(name) => {
            let chars = to_chars(name.as_str());
            let len: usize = chars.len();
            match find_last(&chars, '.') {
                Some(dot) => if dot > 0 {
                    assert(chars@.subrange(dot + 1, len as int) =~= chars@.skip(dot + 1));
                    Some(from_range(&chars, dot + 1, len))
                } else {
                    None
                },
                None => None,
            }
        },
        None => None,
    }
}

/// A path's name without its extension.
pub fn file_stem(path: &str) -> (r: Option<String>)
    ensures
        opt_text(r) == stem_of(path@),
{
    match file_name(path) {
        Some(name) => {
            let chars = to_chars(name.as_str());
            match find_last(&chars, '.') {
                Some(dot) => if dot > 0 {
                    assert(chars@.subrange(0, dot as int) =~= chars@.take(dot as int));
                    Some(from_range(&chars, 0, dot))
                } else {
                    Some(name)
                },
                None => Some(name),
            }
        },
        None => None,
    }
}

/// A path below another; an absolute one stands for itself.
pub fn join_path(base: &str, rest: &str) -> (r: String)
    ensures
        r@ == joined_path(base@, rest@),
{
    let tail = to_chars(rest);
    if tail.len() > 0 && tail[0] == '/' {
        return rest.to_owned();
    }
    let head = to_chars(base);
    let mut out = base.to_owned();
    if head.len() > 0 && head[head.len() - 1] != '/' {
        out.append("/");
    }
    out.append(rest);
    out
}

/// Whether a path lies in a directory shows in its parts alone: a path lies in
/// itself, and in what holds a directory that it lies in.
pub proof fn law_lies_in_is_an_order(a: Seq<char>, b: Seq<char>, c: Seq<char>)
    ensures
        lies_in(a, a),
        lies_in(a, b) && lies_in(b, c) ==> lies_in(a, c),
        lies_in(a, b) && lies_in(b, a) ==> components(a) == components(b),
{
    if lies_in(a, b) && lies_in(b, c) {
        let (x, y, z) = (components(a), components(b), components(c));
        assert(forall|i: int| 0 <= i < z.len() ==> z[i] == y[i]);
        assert(z.is_prefix_of(x));
    }
    if lies_in(a, b) && lies_in(b, a) {
        assert(components(a) =~= components(b));
    }
}

/// A name below a path is one part more.
pub proof fn law_a_name_below_a_path_is_one_part_more(base: Seq<char>, name: Seq<char>)
    requires
        is_part(name),
        !name.contains('/'),
    ensures
        components(joined_path(base, name)) == components(base).push(name),
        name != ".."@ ==> name_of(joined_path(base, name)) == Some(name),
{
    reveal_strlit("/");
    reveal_strlit(".");
    let whole = joined_path(base, name);
    let pred = |p: Seq<char>| is_part(p);
    assert(!is_absolute(name)) by {
        if is_absolute(name) {
            assert(name[0] == '/');
        }
    }
    assert(name != root()) by {
        if name == root() {
            assert(name[0] == '/');
        }
    }
    lemma_split_none(name, '/');
    assert(seq![name].filter(pred) =~= seq![name]) by {
        lemma_filter_one(name, pred);
    }
    if base.len() == 0 {
        lemma_split_none(base, '/');
        lemma_filter_one(base, pred);
        assert(whole =~= name);
        assert(components(base) =~= Seq::empty());
        assert(components(whole) =~= seq![name]);
    } else {
        let a = if base.last() == '/' {
            base.drop_last()
        } else {
            base
        };
        lemma_split_add(a, '/', name);
        lemma_split_add(a, '/', Seq::empty());
        lemma_split_none(Seq::empty(), '/');
        lemma_filter_one(Seq::empty(), pred);
        let pieces = split_at_char(a, '/');
        Seq::filter_distributes_over_add(pieces, seq![name], pred);
        Seq::filter_distributes_over_add(pieces, seq![Seq::empty()], pred);
        assert(whole =~= a + seq!['/'] + name);
        if base.last() == '/' {
            assert(base =~= a + seq!['/'] + Seq::empty());
        }
        let kept = pieces.filter(pred);
        assert(kept + Seq::<Seq<char>>::empty() =~= kept);
        assert(split_at_char(base, '/').filter(pred) == kept);
        assert(split_at_char(base, '/')[0] == pieces[0]);
        assert(split_at_char(whole, '/')[0] == pieces[0]);
        assert(is_absolute(whole) == is_absolute(base)) by {
            assert(whole[0] == base[0]);
        }
        assert(components(whole) =~= components(base).push(name));
    }
    assert(components(whole).last() == name);
}

proof fn lemma_filter_one(piece: Seq<char>, pred: spec_fn(Seq<char>) -> bool)
    ensures
        seq![piece].filter(pred) == if pred(piece) {
            seq![piece]
        } else {
            Seq::empty()
        },
{
    reveal(Seq::filter);
    assert(seq![piece].drop_last() =~= Seq::empty());
    assert(Seq::<Seq<char>>::empty().filter(pred) =~= Seq::empty());
    assert(Seq::<Seq<char>>::empty().push(piece) =~= seq![piece]);
}

/// A path made of parts, the first of which may be the root.
pub open spec fn path_of(parts: Seq<Seq<char>>) -> Seq<char>
    decreases parts.len(),
{
    if parts.len() == 0 {
        Seq::empty()
    } else {
        joined_path(path_of(parts.drop_last()), parts.last())
    }
}

/// What holds a path: its parts but the last, where it has more than a root.
pub open spec fn parent_of(path: Seq<char>) -> Option<Seq<char>> {
    let parts = components(path);
    if parts.len() == 0 || parts.last() == root() {
        None
    } else {
        Some(path_of(parts.drop_last()))
    }
}

/// What holds a path.
pub fn parent(path: &str) -> (r: Option<String>)
    ensures
        opt_text(r) == parent_of(path@),
{
    let all = parts(path);
    let ghost views = texts(all@);
    assert(views.len() == all@.len());
    if all.len() == 0 {
        return None;
    }
    let count: usize = all.len() - 1;
    assert(views.last() == all@[count as int]@);
    if same_text(all[count].as_str(), "/") {
        return None;
    }
    let mut out = String::new();
    let mut i: usize = 0;
    assert(views.take(0) =~= Seq::empty());
    while i < count
        invariant
            i <= count < all@.len(),
            views == texts(all@),
            out@ == path_of(views.take(i as int)),
        decreases count - i,
    {
        proof {
            assert(views.take(i + 1).drop_last() =~= views.take(i as int));
            assert(views.take(i + 1).last() == all@[i as int]@);
        }
        out = join_path(out.as_str(), all[i].as_str());
        i += 1;
    }
    assert(views.take(count as int) =~= views.drop_last());
    Some(out)
}

/// What is below a directory lies in it, at any depth, and what merely begins
/// with its name does not.
pub proof fn law_what_is_below_a_directory_lies_in_it(
    dir: Seq<char>,
    name: Seq<char>,
    path: Seq<char>,
    longer: Seq<char>,
)
    requires
        is_part(name) && !name.contains('/'),
        is_part(longer) && !longer.contains('/'),
        longer != name,
        lies_in(path, joined_path(dir, name)),
    ensures
        lies_in(joined_path(dir, name), dir),
        lies_in(path, dir),
        !lies_in(joined_path(dir, longer), joined_path(dir, name)),
        !lies_in(dir, joined_path(dir, name)),
{
    law_a_name_below_a_path_is_one_part_more(dir, name);
    law_a_name_below_a_path_is_one_part_more(dir, longer);
    let d = components(dir);
    assert(d =~= d.push(name).take(d.len() as int));
    law_lies_in_is_an_order(path, joined_path(dir, name), dir);
    let (x, y) = (d.push(longer), d.push(name));
    if y.is_prefix_of(x) {
        assert(x[d.len() as int] == y[d.len() as int]);
    }
}

/// The name of a path, its stem and its extension are read off its last part.
pub proof fn law_a_name_is_its_stem_and_its_extension(
    dir: Seq<char>,
    stem: Seq<char>,
    ending: Seq<char>,
)
    requires
        stem.len() > 0,
        !stem.contains('/') && !ending.contains('/') && !ending.contains('.'),
        stem + seq!['.'] + ending != ".."@,
    ensures
        name_of(joined_path(dir, stem + seq!['.'] + ending)) == Some(stem + seq!['.'] + ending),
        stem_of(joined_path(dir, stem + seq!['.'] + ending)) == Some(stem),
        extension_of(joined_path(dir, stem + seq!['.'] + ending)) == Some(ending),
{
    reveal_strlit(".");
    let name = stem + seq!['.'] + ending;
    let n = stem.len() as int;
    assert(name.len() >= 2);
    assert(!name.contains('/')) by {
        if name.contains('/') {
            let k = choose|k: int| 0 <= k < name.len() && name[k] == '/';
            if k < n {
                assert(stem[k] == '/');
            } else if k > n {
                assert(ending[k - n - 1] == '/');
            }
        }
    }
    law_a_name_below_a_path_is_one_part_more(dir, name);
    assert(name[n] == '.');
    assert forall|k: int| n < k < name.len() implies name[k] != '.' by {
        assert(name[k] == ending[k - n - 1]);
        assert(ending.contains(ending[k - n - 1]));
    }
    lemma_is_last_index(name, '.', n);
    assert(name.take(n) =~= stem);
    assert(name.skip(n + 1) =~= ending);
}

/// Below a path that has a name, a relative path is put behind a slash; an
/// absolute one stands for itself.
pub proof fn law_paths_are_joined_by_a_slash(base: Seq<char>, rest: Seq<char>)
    requires
        base.len() > 0 && base.last() != '/',
        rest.len() > 0,
    ensures
        rest[0] != '/' ==> joined_path(base, rest) == base + seq!['/'] + rest,
        rest[0] != '/' ==> joined_path(base + seq!['/'], rest) == base + seq!['/'] + rest,
        rest[0] == '/' ==> joined_path(base, rest) == rest,
{
    reveal_strlit("/");
    assert("/"@ =~= seq!['/']);
    assert((base + seq!['/']).last() == '/');
}

} // verus!
