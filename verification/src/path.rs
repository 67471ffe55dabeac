//! Paths: texts whose parts are separated by `/`.

use vstd::prelude::*;

use crate::order;
use crate::ordmap::Key;
use crate::text;

verus! {

/// One part of a path.
#[derive(Debug)]
pub enum Part {
    /// The leading `/`.
    Root,
    /// A leading `.`.
    Here,
    /// `..`.
    Up,
    /// Anything else.
    Name(String),
}

/// A [`Part`], with its name as a sequence of characters.
#[verifier::ext_equal]
pub enum PartModel {
    Root,
    Here,
    Up,
    Name(Seq<char>),
}

impl View for Part {
    type V = PartModel;

    open spec fn view(&self) -> PartModel {
        match self {
            Part::Root => PartModel::Root,
            Part::Here => PartModel::Here,
            Part::Up => PartModel::Up,
            Part::Name(name) => PartModel::Name(name@),
        }
    }
}

/// What some parts are.
pub open spec fn part_views(parts: Seq<Part>) -> Seq<PartModel> {
    parts.map_values(|p: Part| p@)
}

/// The parts that some pieces between slashes make: empty pieces and `.` do
/// not count.
pub open spec fn named_parts(pieces: Seq<Seq<char>>) -> Seq<PartModel>
    decreases pieces.len(),
{
    if pieces.len() == 0 {
        Seq::empty()
    } else {
        let rest = named_parts(pieces.drop_last());
        let piece = pieces.last();
        if piece.len() == 0 || piece == "."@ {
            rest
        } else if piece == ".."@ {
            rest.push(PartModel::Up)
        } else {
            rest.push(PartModel::Name(piece))
        }
    }
}

/// What a path starts with, if that is not a name.
pub open spec fn lead(path: Seq<char>) -> Seq<PartModel> {
    if path.len() > 0 && path[0] == '/' {
        seq![PartModel::Root]
    } else if text::split(path, '/')[0] == "."@ {
        seq![PartModel::Here]
    } else {
        Seq::empty()
    }
}

/// The parts of a path. Repeated slashes count as one, and a `.` counts only
/// where the path starts with it.
pub open spec fn parts(path: Seq<char>) -> Seq<PartModel> {
    lead(path) + named_parts(text::split(path, '/'))
}

/// The parts of a path.
pub fn parts_of(path: &str) -> (r: Vec<Part>)
    ensures
        part_views(r@) == parts(path@),
{
    let pieces = text::split_at_each(path, '/');
    let ghost all = text::split(path@, '/');
    proof {
        text::lemma_split_nonempty(path@, '/');
        assert(all[0] == pieces@[0]@);
    }
    let chars = text::chars_of(path);
    let mut out: Vec<Part> = Vec::new();
    if chars.len() > 0 && chars[0] == '/' {
        out.push(Part::Root);
    } else if text::same(pieces[0].as_str(), ".") {
        out.push(Part::Here);
    }
    assert(part_views(out@) =~= lead(path@));
    let mut i: usize = 0;
    assert(lead(path@) + named_parts(all.take(0)) =~= lead(path@));
    while i < pieces.len()
        invariant
            i <= pieces.len(),
            all == text::views(pieces@),
            part_views(out@) == lead(path@) + named_parts(all.take(i as int)),
        decreases pieces.len() - i,
    {
        let ghost done = part_views(out@);
        let piece = &pieces[i];
        assert(all.take(i + 1).drop_last() =~= all.take(i as int));
        assert(all[i as int] == piece@);
        if piece.as_str().unicode_len() == 0 || text::same(piece.as_str(), ".") {
        } else if text::same(piece.as_str(), "..") {
            out.push(Part::Up);
            assert(part_views(out@) =~= done.push(PartModel::Up));
        } else {
            out.push(Part::Name(piece.clone()));
            assert(part_views(out@) =~= done.push(PartModel::Name(piece@)));
        }
        i = i + 1;
        assert(part_views(out@) =~= lead(path@) + named_parts(all.take(i as int)));
    }
    assert(all.take(i as int) =~= all);
    out
}

/// The name that a path ends with.
pub open spec fn file_name(path: Seq<char>) -> Option<Seq<char>> {
    if parts(path).len() == 0 {
        None
    } else {
        match parts(path).last() {
            PartModel::Name(name) => Some(name),
            _ => None,
        }
    }
}

/// The name that a path ends with.
pub fn file_name_of(path: &str) -> (r: Option<String>)
    ensures
        r is Some <==> file_name(path@) is Some,
        r matches Some(name) ==> file_name(path@) == Some(name@),
{
    let parts = parts_of(path);
    let n = parts.len();
    if n == 0 {
        return None;
    }
    assert(part_views(parts@).last() == parts@[n - 1]@);
    match &parts[n - 1] {
        Part::Name(name) => Some(name.clone()),
        _ => None,
    }
}

/// Position `i` is that of the last dot of `name`.
pub open spec fn last_dot_at(name: Seq<char>, i: int) -> bool {
    &&& 0 <= i < name.len()
    &&& name[i] == '.'
    &&& forall|k: int| i < k < name.len() ==> #[trigger] name[k] != '.'
}

/// What follows the last dot of a name, unless the name starts with that dot.
pub open spec fn name_extension(name: Seq<char>) -> Option<Seq<char>> {
    if exists|i: int| last_dot_at(name, i) && i > 0 {
        let i = choose|i: int| last_dot_at(name, i) && i > 0;
        Some(name.skip(i + 1))
    } else {
        None
    }
}

/// The extension of the name that a path ends with.
pub open spec fn extension(path: Seq<char>) -> Option<Seq<char>> {
    match file_name(path) {
        Some(name) => name_extension(name),
        None => None,
    }
}

fn name_extension_of(name: &str) -> (r: Option<String>)
    ensures
        r is Some <==> name_extension(name@) is Some,
        r matches Some(ext) ==> name_extension(name@) == Some(ext@),
{
    let chars = text::chars_of(name);
    let n = chars.len();
    let mut i: usize = n;
    while i > 0
        invariant
            i <= n,
            n == chars.len(),
            chars@ == name@,
            forall|k: int| i <= k < n ==> #[trigger] name@[k] != '.',
        decreases i,
    {
        if chars[i - 1] == '.' {
            assert(last_dot_at(name@, i - 1));
            assert forall|j: int| last_dot_at(name@, j) implies j == i - 1 by {
                if j < i - 1 {
                    assert(name@[i - 1] != '.');
                } else if j > i - 1 {
                    assert(name@[j] != '.');
                }
            }
            if i == 1 {
                return None;
            }
            let ext = text::slice(name, i, n);
            assert(ext@ =~= name@.skip(i as int));
            return Some(ext);
        }
        i = i - 1;
    }
    None
}

/// The extension of the name that a path ends with.
pub fn extension_of(path: &str) -> (r: Option<String>)
    ensures
        r is Some <==> extension(path@) is Some,
        r matches Some(ext) ==> extension(path@) == Some(ext@),
{
    match file_name_of(path) {
        Some(name) => name_extension_of(name.as_str()),
        None => None,
    }
}

/// Texts with `/` between them.
pub open spec fn joined(pieces: Seq<Seq<char>>) -> Seq<char>
    decreases pieces.len(),
{
    if pieces.len() == 0 {
        Seq::empty()
    } else if pieces.len() == 1 {
        pieces[0]
    } else {
        joined(pieces.drop_last()) + "/"@ + pieces.last()
    }
}

/// The first `n` texts with `/` between them.
fn join_first(pieces: &Vec<String>, n: usize) -> (r: String)
    requires
        n <= pieces.len(),
    ensures
        r@ == joined(text::views(pieces@).take(n as int)),
{
    let ghost all = text::views(pieces@);
    let mut out = String::new();
    let mut i: usize = 0;
    assert(out@ =~= joined(all.take(0)));
    while i < n
        invariant
            i <= n <= pieces.len(),
            all == text::views(pieces@),
            out@ == joined(all.take(i as int)),
        decreases n - i,
    {
        let ghost done = out@;
        assert(all.take(i + 1).drop_last() =~= all.take(i as int));
        assert(all.take(i + 1).last() == pieces@[i as int]@);
        if i > 0 {
            out.append("/");
        }
        out.append(pieces[i].as_str());
        if i == 0 {
            assert(out@ =~= pieces@[0]@);
            assert(all.take(1)[0] == pieces@[0]@);
        } else {
            assert(out@ =~= done + "/"@ + pieces@[i as int]@);
        }
        i = i + 1;
    }
    out
}

/// What a part looks like. The root is not a text between slashes.
pub open spec fn part_text(part: PartModel) -> Seq<char> {
    match part {
        PartModel::Root => Seq::empty(),
        PartModel::Here => "."@,
        PartModel::Up => ".."@,
        PartModel::Name(name) => name,
    }
}

/// The path that some parts make. Only the first of them can be the root.
pub open spec fn text_of(parts: Seq<PartModel>) -> Seq<char> {
    if parts.len() > 0 && parts[0] is Root {
        "/"@ + joined(parts.skip(1).map_values(|p: PartModel| part_text(p)))
    } else {
        joined(parts.map_values(|p: PartModel| part_text(p)))
    }
}

/// The path that the first `n` parts make.
fn first_parts_text(parts: &Vec<Part>, n: usize) -> (r: String)
    requires
        n <= parts.len(),
    ensures
        r@ == text_of(part_views(parts@).take(n as int)),
{
    let ghost all = part_views(parts@).take(n as int);
    let mut pieces: Vec<String> = Vec::new();
    let rooted = n > 0 && (match &parts[0] {
        Part::Root => true,
        _ => false,
    });
    if n > 0 {
        assert(all[0] == parts@[0]@);
    }
    let start: usize = if rooted {
        1
    } else {
        0
    };
    let ghost wanted = all.skip(start as int).map_values(|p: PartModel| part_text(p));
    let mut i: usize = start;
    assert(text::views(pieces@) =~= wanted.take(0));
    while i < n
        invariant
            start <= i <= n <= parts.len(),
            all == part_views(parts@).take(n as int),
            wanted == all.skip(start as int).map_values(|p: PartModel| part_text(p)),
            text::views(pieces@) == wanted.take(i - start),
        decreases n - i,
    {
        let ghost done = text::views(pieces@);
        let piece = match &parts[i] {
            Part::Root => String::new(),
            Part::Here => ".".to_owned(),
            Part::Up => "..".to_owned(),
            Part::Name(name) => name.clone(),
        };
        assert(all.skip(start as int)[i - start] == parts@[i as int]@);
        assert(piece@ =~= wanted[i - start]);
        pieces.push(piece);
        assert(text::views(pieces@) =~= done.push(piece@));
        assert(wanted.take(i - start + 1) =~= wanted.take(i - start).push(wanted[i - start]));
        i = i + 1;
    }
    assert(wanted.take(i - start) =~= wanted);
    let rest = join_first(&pieces, pieces.len());
    assert(text::views(pieces@).take(pieces@.len() as int) =~= wanted);
    if rooted {
        let mut out = "/".to_owned();
        out.append(rest.as_str());
        out
    } else {
        assert(all.skip(0) =~= all);
        rest
    }
}

/// A piece between slashes that counts as a part: a `.` does only at the start
/// of the path.
pub open spec fn significant(pieces: Seq<Seq<char>>, k: int) -> bool {
    &&& 0 <= k < pieces.len()
    &&& pieces[k].len() > 0
    &&& pieces[k] == "."@ ==> k == 0
}

/// How many pieces there are up to the last one before `end` that counts.
pub open spec fn significant_end(pieces: Seq<Seq<char>>, end: int) -> int
    decreases end,
{
    if end <= 0 {
        0
    } else if significant(pieces, end - 1) {
        end
    } else {
        significant_end(pieces, end - 1)
    }
}

/// The path without its last part. A path of one part has an empty one; the
/// root keeps its slash where something stands behind it.
pub open spec fn parent(path: Seq<char>) -> Seq<char> {
    let pieces = text::split(path, '/');
    let own = significant_end(pieces, pieces.len() as int);
    if own == 0 {
        Seq::empty()
    } else {
        let rest = significant_end(pieces, own - 1);
        if rest > 0 {
            joined(pieces.take(rest))
        } else if path.len() > 0 && path[0] == '/' {
            "/"@
        } else {
            Seq::empty()
        }
    }
}

fn significant_end_of(pieces: &Vec<String>, end: usize) -> (r: usize)
    requires
        end <= pieces.len(),
    ensures
        r == significant_end(text::views(pieces@), end as int),
        r <= end,
{
    let ghost all = text::views(pieces@);
    let mut i: usize = end;
    while i > 0
        invariant
            i <= end <= pieces.len(),
            all == text::views(pieces@),
            significant_end(all, end as int) == significant_end(all, i as int),
        decreases i,
    {
        let piece = pieces[i - 1].as_str();
        assert(all[i - 1] == piece@);
        if piece.unicode_len() > 0 && (i == 1 || !text::same(piece, ".")) {
            return i;
        }
        i = i - 1;
    }
    0
}

/// The path without its last part; empty where there is none.
pub fn parent_of(path: &str) -> (r: String)
    ensures
        r@ == parent(path@),
{
    let pieces = text::split_at_each(path, '/');
    let own = significant_end_of(&pieces, pieces.len());
    if own == 0 {
        return String::new();
    }
    let rest = significant_end_of(&pieces, own - 1);
    if rest > 0 {
        return join_first(&pieces, rest);
    }
    let chars = text::chars_of(path);
    if chars.len() > 0 && chars[0] == '/' {
        "/".to_owned()
    } else {
        String::new()
    }
}

/// The directory that a file is rolled up into: the first `depth` parts of its
/// path, or its own directory if it is not as deep as that. The directory of a
/// file at the top is `.`.
pub open spec fn directory(path: Seq<char>, depth: int) -> Seq<char> {
    let group = if depth >= parts(path).len() {
        parent(path)
    } else {
        text_of(parts(path).take(depth))
    };
    if group.len() == 0 {
        "."@
    } else {
        group
    }
}

/// The directory that a file is rolled up into.
pub fn directory_of(path: &str, depth: usize) -> (r: String)
    ensures
        r@ == directory(path@, depth as int),
{
    let parts = parts_of(path);
    let group = if depth >= parts.len() {
        parent_of(path)
    } else {
        first_parts_text(&parts, depth)
    };
    if group.as_str().unicode_len() == 0 {
        ".".to_owned()
    } else {
        group
    }
}

// ---------------------------------------------------------------------------
// Paths below other paths
// ---------------------------------------------------------------------------

/// The path below `base` that leads to `path`, if `path` lies there: what
/// follows the parts of `base`.
pub open spec fn below(path: Seq<char>, base: Seq<char>) -> Option<Seq<char>> {
    if parts(base).is_prefix_of(parts(path)) {
        Some(text_of(parts(path).skip(parts(base).len() as int)))
    } else {
        None
    }
}

fn same_part(a: &Part, b: &Part) -> (r: bool)
    ensures
        r == (a@ == b@),
{
    match (a, b) {
        (Part::Root, Part::Root) => true,
        (Part::Here, Part::Here) => true,
        (Part::Up, Part::Up) => true,
        (Part::Name(x), Part::Name(y)) => text::same(x.as_str(), y.as_str()),
        _ => false,
    }
}

/// The path below `base` that leads to `path`, if `path` lies there.
pub fn strip_prefix(path: &str, base: &str) -> (r: Option<String>)
    ensures
        r is Some <==> below(path@, base@) is Some,
        r matches Some(rest) ==> below(path@, base@) == Some(rest@),
{
    let mut all = parts_of(path);
    let head = parts_of(base);
    let ghost whole = part_views(all@);
    let ghost start = part_views(head@);
    let n = head.len();
    if n > all.len() {
        return None;
    }
    let mut i: usize = 0;
    while i < n
        invariant
            i <= n <= all.len(),
            n == head.len(),
            whole == part_views(all@),
            whole == parts(path@),
            start == part_views(head@),
            start == parts(base@),
            forall|k: int| 0 <= k < i ==> start[k] == whole[k],
        decreases n - i,
    {
        assert(whole[i as int] == all@[i as int]@);
        assert(start[i as int] == head@[i as int]@);
        if !same_part(&all[i], &head[i]) {
            return None;
        }
        i = i + 1;
    }
    assert(start =~= whole.subrange(0, n as int));
    let rest = all.split_off(n);
    assert(part_views(rest@) =~= whole.skip(n as int));
    let m = rest.len();
    assert(part_views(rest@).take(m as int) =~= part_views(rest@));
    Some(first_parts_text(&rest, m))
}

/// `rest` below `base`. A path that starts at the root stands for itself.
pub open spec fn appended(base: Seq<char>, rest: Seq<char>) -> Seq<char> {
    if rest.len() > 0 && rest[0] == '/' {
        rest
    } else if base.len() == 0 || base.last() == '/' {
        base + rest
    } else {
        base + "/"@ + rest
    }
}

/// `rest` below `base`. A path that starts at the root stands for itself.
pub fn join(base: &str, rest: &str) -> (r: String)
    ensures
        r@ == appended(base@, rest@),
{
    if rest.unicode_len() > 0 && rest.get_char(0) == '/' {
        return rest.to_owned();
    }
    let n = base.unicode_len();
    let mut out = base.to_owned();
    if n > 0 && base.get_char(n - 1) != '/' {
        out.append("/");
    }
    out.append(rest);
    out
}

/// No two slashes of a path stand side by side.
pub open spec fn slashes_apart(path: Seq<char>) -> bool {
    forall|i: int| 0 <= i < path.len() - 1 && #[trigger] path[i] == '/' ==> path[i + 1] != '/'
}

/// A text that can stand between two slashes.
spec fn plain(piece: Seq<char>) -> bool {
    &&& piece.len() > 0
    &&& forall|k: int| 0 <= k < piece.len() ==> #[trigger] piece[k] != '/'
}

spec fn all_plain(pieces: Seq<Seq<char>>) -> bool {
    forall|i: int| 0 <= i < pieces.len() ==> plain(#[trigger] pieces[i])
}

spec fn part_plain(part: PartModel) -> bool {
    match part {
        PartModel::Root => false,
        PartModel::Name(name) => plain(name),
        _ => true,
    }
}

spec fn slashless(pieces: Seq<Seq<char>>) -> bool {
    forall|i: int, k: int|
        0 <= i < pieces.len() && 0 <= k < pieces[i].len() ==> #[trigger] pieces[i][k] != '/'
}

proof fn lemma_split_slashless(s: Seq<char>)
    ensures
        slashless(text::split(s, '/')),
    decreases s.len(),
{
    if s.len() > 0 {
        let rest = text::split(s.drop_last(), '/');
        lemma_split_slashless(s.drop_last());
        text::lemma_split_nonempty(s.drop_last(), '/');
        let all = text::split(s, '/');
        assert forall|i: int, k: int|
            0 <= i < all.len() && 0 <= k < all[i].len() implies #[trigger] all[i][k] != '/' by {
            if i < rest.len() && k < rest[i].len() {
                assert(rest[i][k] != '/');
            }
        }
    }
}

proof fn lemma_named_parts_plain(pieces: Seq<Seq<char>>)
    requires
        slashless(pieces),
    ensures
        forall|i: int|
            0 <= i < named_parts(pieces).len() ==> part_plain(#[trigger] named_parts(pieces)[i]),
    decreases pieces.len(),
{
    if pieces.len() > 0 {
        let rest = pieces.drop_last();
        assert(slashless(rest)) by {
            assert forall|i: int, k: int|
                0 <= i < rest.len() && 0 <= k < rest[i].len() implies #[trigger] rest[i][k]
                != '/' by {
                assert(pieces[i][k] != '/');
            }
        }
        lemma_named_parts_plain(rest);
        let piece = pieces.last();
        assert forall|k: int| 0 <= k < piece.len() implies #[trigger] piece[k] != '/' by {
            assert(pieces[pieces.len() - 1][k] != '/');
        }
        let all = named_parts(pieces);
        let before = named_parts(rest);
        assert forall|i: int| 0 <= i < all.len() implies part_plain(#[trigger] all[i]) by {
            if i < before.len() {
                assert(part_plain(before[i]));
            }
        }
    }
}

proof fn lemma_joined_apart(pieces: Seq<Seq<char>>)
    requires
        all_plain(pieces),
    ensures
        slashes_apart(joined(pieces)),
        pieces.len() > 0 ==> joined(pieces).len() > 0 && joined(pieces)[0] != '/' && joined(
            pieces,
        ).last() != '/',
    decreases pieces.len(),
{
    reveal_strlit("/");
    if pieces.len() == 1 {
        assert(plain(pieces[0]));
    } else if pieces.len() > 1 {
        let rest = pieces.drop_last();
        assert(all_plain(rest)) by {
            assert forall|i: int| 0 <= i < rest.len() implies plain(#[trigger] rest[i]) by {
                assert(plain(pieces[i]));
            }
        }
        lemma_joined_apart(rest);
        let piece = pieces.last();
        assert(plain(pieces[pieces.len() - 1]));
        let head = joined(rest);
        let all = joined(pieces);
        assert(all =~= head + "/"@ + piece);
        assert forall|i: int| 0 <= i < all.len() - 1 && #[trigger] all[i] == '/' implies all[i
            + 1] != '/' by {
            if i + 1 < head.len() {
                assert(head[i] == '/');
            } else if i < head.len() {
                assert(all[i] == head.last());
            } else if i == head.len() {
                assert(all[i + 1] == piece[0]);
            } else {
                assert(all[i] == piece[i - head.len() - 1]);
            }
        }
        assert(all[0] == head[0]);
        assert(all.last() == piece.last());
    }
}

/// A path that is made of parts has no two slashes side by side.
pub proof fn lemma_below_apart(path: Seq<char>, n: int)
    requires
        0 <= n <= parts(path).len(),
    ensures
        slashes_apart(text_of(parts(path).skip(n))),
{
    reveal_strlit("/");
    reveal_strlit(".");
    reveal_strlit("..");
    let pieces = text::split(path, '/');
    lemma_split_slashless(path);
    lemma_named_parts_plain(pieces);
    let first = lead(path);
    let rest = parts(path).skip(n);
    let rooted = rest.len() > 0 && rest[0] is Root;
    let body = if rooted {
        rest.skip(1)
    } else {
        rest
    };
    let texts = body.map_values(|p: PartModel| part_text(p));
    assert forall|i: int| 0 <= i < texts.len() implies plain(#[trigger] texts[i]) by {
        let at = if rooted {
            i + 1 + n
        } else {
            i + n
        };
        assert(texts[i] == part_text(parts(path)[at]));
        if at >= first.len() {
            assert(part_plain(named_parts(pieces)[at - first.len()]));
            assert(parts(path)[at] == named_parts(pieces)[at - first.len()]);
        } else {
            assert(parts(path)[at] == first[0]);
            assert(at == 0);
            assert(n == 0 && i == 0 && !rooted);
        }
    }
    lemma_joined_apart(texts);
    if rooted {
        let tail = joined(texts);
        let all = "/"@ + tail;
        assert forall|i: int| 0 <= i < all.len() - 1 && #[trigger] all[i] == '/' implies all[i
            + 1] != '/' by {
            if i > 0 {
                assert(tail[i - 1] == '/');
            } else {
                assert(all[1] == tail[0]);
            }
        }
    }
}

proof fn lemma_split_join(a: Seq<char>, b: Seq<char>)
    ensures
        text::split(a + "/"@ + b, '/') == text::split(a, '/') + text::split(b, '/'),
    decreases b.len(),
{
    reveal_strlit("/");
    let all = a + "/"@ + b;
    text::lemma_split_nonempty(a, '/');
    if b.len() == 0 {
        assert(all.drop_last() =~= a);
        assert(all.last() == '/');
        assert(text::split(all, '/') =~= text::split(a, '/') + text::split(b, '/'));
    } else {
        let shorter = b.drop_last();
        lemma_split_join(a, shorter);
        text::lemma_split_nonempty(shorter, '/');
        assert(all.drop_last() =~= a + "/"@ + shorter);
        assert(all.last() == b.last());
        assert(text::split(all, '/') =~= text::split(a, '/') + text::split(b, '/'));
    }
}

proof fn lemma_named_parts_concat(a: Seq<Seq<char>>, b: Seq<Seq<char>>)
    ensures
        named_parts(a + b) == named_parts(a) + named_parts(b),
    decreases b.len(),
{
    if b.len() == 0 {
        assert(a + b =~= a);
        assert(named_parts(a + b) =~= named_parts(a) + named_parts(b));
    } else {
        lemma_named_parts_concat(a, b.drop_last());
        assert((a + b).drop_last() =~= a + b.drop_last());
        assert(named_parts(a + b) =~= named_parts(a) + named_parts(b));
    }
}

/// The pieces of a path that ends with a slash, without the empty one behind
/// it.
proof fn lemma_split_trailing(a: Seq<char>)
    requires
        a.len() > 0,
        a.last() == '/',
    ensures
        text::split(a, '/') == text::split(a.drop_last(), '/').push(Seq::empty()),
{
}

proof fn lemma_named_parts_trailing(pieces: Seq<Seq<char>>)
    ensures
        named_parts(pieces.push(Seq::empty())) == named_parts(pieces),
{
    assert(pieces.push(Seq::<char>::empty()).drop_last() =~= pieces);
}

/// A path below a directory leads back to what it was made of: the directory is
/// a prefix of it, and what follows are the parts of the rest.
pub proof fn law_joining_and_stripping(base: Seq<char>, rest: Seq<char>)
    requires
        base.len() > 0,
        lead(rest) == Seq::<PartModel>::empty(),
    ensures
        parts(appended(base, rest)) == parts(base) + parts(rest),
        below(appended(base, rest), base) == Some(text_of(parts(rest))),
{
    reveal_strlit("/");
    reveal_strlit(".");
    let all = appended(base, rest);
    // What stands before the slash that joins the two.
    let stem = if base.last() == '/' {
        base.drop_last()
    } else {
        base
    };
    assert(all =~= stem + "/"@ + rest);
    lemma_split_join(stem, rest);
    lemma_named_parts_concat(text::split(stem, '/'), text::split(rest, '/'));
    text::lemma_split_nonempty(stem, '/');
    if base.last() == '/' {
        lemma_split_trailing(base);
        lemma_named_parts_trailing(text::split(stem, '/'));
    }
    assert(named_parts(text::split(base, '/')) == named_parts(text::split(stem, '/')));
    assert(text::split(all, '/')[0] == text::split(stem, '/')[0]);
    assert(text::split(base, '/')[0] == text::split(stem, '/')[0]);
    assert(all[0] == base[0]);
    assert(lead(all) == lead(base));
    assert(parts(rest) =~= named_parts(text::split(rest, '/')));
    assert(parts(all) =~= parts(base) + parts(rest));
    assert(parts(base) =~= parts(all).subrange(0, parts(base).len() as int));
    assert(parts(all).skip(parts(base).len() as int) =~= parts(rest));
}

// ---------------------------------------------------------------------------
// Paths that are told by their parts
// ---------------------------------------------------------------------------

/// A path without doubled slashes and without a `.` among its parts.
pub open spec fn neat(path: Seq<char>) -> bool {
    &&& slashes_apart(path)
    &&& forall|i: int|
        0 <= i < text::split(path, '/').len() ==> #[trigger] text::split(path, '/')[i] != "."@
}

/// The parts of a path make it up again.
pub open spec fn canonical(path: Seq<char>) -> bool {
    text_of(parts(path)) == path
}

proof fn lemma_split_single(piece: Seq<char>)
    requires
        forall|k: int| 0 <= k < piece.len() ==> #[trigger] piece[k] != '/',
    ensures
        text::split(piece, '/') == seq![piece],
    decreases piece.len(),
{
    if piece.len() > 0 {
        let rest = piece.drop_last();
        assert forall|k: int| 0 <= k < rest.len() implies #[trigger] rest[k] != '/' by {
            assert(piece[k] != '/');
        }
        lemma_split_single(rest);
        assert(piece[piece.len() - 1] != '/');
        assert(rest.push(piece.last()) =~= piece);
        assert(text::split(piece, '/') =~= seq![piece]);
    } else {
        assert(piece =~= Seq::empty());
        assert(text::split(piece, '/') =~= seq![piece]);
    }
}

/// Splitting undoes joining.
proof fn lemma_split_joined(pieces: Seq<Seq<char>>)
    requires
        pieces.len() > 0,
        slashless(pieces),
    ensures
        text::split(joined(pieces), '/') == pieces,
    decreases pieces.len(),
{
    let last = pieces.last();
    assert forall|k: int| 0 <= k < last.len() implies #[trigger] last[k] != '/' by {
        assert(pieces[pieces.len() - 1][k] != '/');
    }
    lemma_split_single(last);
    if pieces.len() == 1 {
        assert(seq![last] =~= pieces);
    } else {
        let rest = pieces.drop_last();
        assert forall|i: int, k: int|
            0 <= i < rest.len() && 0 <= k < rest[i].len() implies #[trigger] rest[i][k] != '/' by {
            assert(pieces[i][k] != '/');
        }
        lemma_split_joined(rest);
        lemma_split_join(joined(rest), last);
        assert(rest + seq![last] =~= pieces);
    }
}

/// A slash before joined texts is an empty text joined to them.
proof fn lemma_joined_root(pieces: Seq<Seq<char>>)
    requires
        pieces.len() > 0,
    ensures
        joined(seq![Seq::<char>::empty()] + pieces) == "/"@ + joined(pieces),
    decreases pieces.len(),
{
    let all = seq![Seq::<char>::empty()] + pieces;
    if pieces.len() == 1 {
        assert(all.drop_last() =~= seq![Seq::<char>::empty()]);
        assert(joined(all.drop_last()) =~= Seq::<char>::empty());
        assert(joined(all) =~= "/"@ + joined(pieces));
    } else {
        lemma_joined_root(pieces.drop_last());
        assert(all.drop_last() =~= seq![Seq::<char>::empty()] + pieces.drop_last());
        assert(joined(all) =~= "/"@ + joined(pieces));
    }
}

/// Pieces that count as parts are what the parts look like.
proof fn lemma_named_parts_texts(pieces: Seq<Seq<char>>)
    requires
        forall|i: int|
            0 <= i < pieces.len() ==> (#[trigger] pieces[i]).len() > 0 && pieces[i] != "."@,
    ensures
        named_parts(pieces).map_values(|p: PartModel| part_text(p)) == pieces,
        forall|i: int|
            0 <= i < named_parts(pieces).len() ==> !(#[trigger] named_parts(pieces)[i] is Root),
    decreases pieces.len(),
{
    if pieces.len() > 0 {
        let rest = pieces.drop_last();
        assert forall|i: int| 0 <= i < rest.len() implies (#[trigger] rest[i]).len() > 0 && rest[i]
            != "."@ by {
            assert(rest[i] == pieces[i]);
        }
        lemma_named_parts_texts(rest);
        let f = |p: PartModel| part_text(p);
        let last = pieces[pieces.len() - 1];
        assert(last.len() > 0 && last != "."@);
        let before = named_parts(rest);
        let all = named_parts(pieces);
        assert(all == before.push(all.last()));
        assert(part_text(all.last()) == last);
        assert(all.map_values(f) =~= before.map_values(f).push(last));
        assert(rest.push(last) =~= pieces);
    } else {
        assert(named_parts(pieces).map_values(|p: PartModel| part_text(p)) =~= pieces);
    }
}

/// Texts that can stand between slashes, behind a slash or not, make a path
/// that is told by its parts.
proof fn lemma_joined_canonical(pieces: Seq<Seq<char>>)
    requires
        pieces.len() > 0,
        slashless(pieces),
        pieces[0].len() == 0 ==> pieces.len() > 1,
        forall|i: int| 0 <= i < pieces.len() ==> #[trigger] pieces[i] != "."@,
        forall|i: int| 1 <= i < pieces.len() ==> (#[trigger] pieces[i]).len() > 0,
    ensures
        canonical(joined(pieces)),
{
    reveal_strlit("/");
    reveal_with_fuel(named_parts, 2);
    let path = joined(pieces);
    lemma_split_joined(pieces);
    if pieces[0].len() == 0 {
        let rest = pieces.skip(1);
        let first = seq![Seq::<char>::empty()];
        assert(pieces[0] =~= Seq::<char>::empty());
        assert(pieces =~= first + rest);
        lemma_joined_root(rest);
        assert(path[0] == '/');
        lemma_named_parts_concat(first, rest);
        assert(first.drop_last() =~= Seq::empty());
        assert(named_parts(first) =~= Seq::empty());
        assert forall|i: int| 0 <= i < rest.len() implies (#[trigger] rest[i]).len() > 0 && rest[i]
            != "."@ by {
            assert(rest[i] == pieces[i + 1]);
        }
        lemma_named_parts_texts(rest);
        assert(parts(path) =~= seq![PartModel::Root] + named_parts(rest));
        assert(parts(path).skip(1) =~= named_parts(rest));
    } else {
        assert forall|i: int| 0 <= i < pieces.len() implies (#[trigger] pieces[i]).len() > 0
            && pieces[i] != "."@ by {
            if i > 0 {
                assert(pieces[i].len() > 0);
            }
        }
        lemma_named_parts_texts(pieces);
        assert(all_plain(pieces)) by {
            assert forall|i: int| 0 <= i < pieces.len() implies plain(#[trigger] pieces[i]) by {
                assert forall|k: int| 0 <= k < pieces[i].len() implies #[trigger] pieces[i][k]
                    != '/' by {}
            }
        }
        lemma_joined_apart(pieces);
        assert(lead(path) =~= Seq::empty());
        assert(parts(path) =~= named_parts(pieces));
    }
}

/// `.` and `/` are told by their parts.
proof fn lemma_short_canonical()
    ensures
        canonical("."@),
        canonical("/"@),
{
    reveal_strlit("/");
    reveal_strlit(".");
    reveal_with_fuel(named_parts, 3);
    let f = |p: PartModel| part_text(p);
    lemma_split_single("."@);
    let dot = seq!["."@];
    assert(dot.drop_last() =~= Seq::empty());
    assert(named_parts(dot) =~= Seq::empty());
    assert(parts("."@) =~= seq![PartModel::Here]);
    assert(parts("."@).map_values(f) =~= dot);
    let none = Seq::<char>::empty();
    assert("/"@ =~= none + "/"@ + none);
    lemma_split_join(none, none);
    lemma_split_single(none);
    let two = seq![none] + seq![none];
    assert(two.drop_last() =~= seq![none]);
    assert(seq![none].drop_last() =~= Seq::empty());
    assert(named_parts(two) =~= Seq::empty());
    assert(parts("/"@) =~= seq![PartModel::Root]);
    assert(parts("/"@).skip(1).map_values(f) =~= Seq::<Seq<char>>::empty());
    assert(text_of(parts("/"@)) =~= "/"@);
}

/// In a neat path only the first and the last piece can be empty.
proof fn lemma_neat_pieces(path: Seq<char>)
    requires
        slashes_apart(path),
    ensures
        ({
            let pieces = text::split(path, '/');
            &&& forall|i: int| 1 <= i < pieces.len() - 1 ==> (#[trigger] pieces[i]).len() > 0
            &&& pieces.len() > 1 && pieces.last().len() == 0 ==> path.len() > 0 && path.last()
                == '/'
        }),
    decreases path.len(),
{
    text::lemma_split_nonempty(path, '/');
    if path.len() > 0 {
        let rest = path.drop_last();
        assert forall|i: int| 0 <= i < rest.len() - 1 && #[trigger] rest[i] == '/' implies rest[i
            + 1] != '/' by {
            assert(path[i] == '/');
        }
        lemma_neat_pieces(rest);
        text::lemma_split_nonempty(rest, '/');
        let before = text::split(rest, '/');
        let pieces = text::split(path, '/');
        if path.last() == '/' {
            if before.len() > 1 && before.last().len() == 0 {
                assert(path[path.len() - 2] == '/');
                assert(false);
            }
            assert forall|i: int| 1 <= i < pieces.len() - 1 implies (#[trigger] pieces[i]).len()
                > 0 by {
                assert(pieces[i] == before[i]);
            }
        } else {
            assert forall|i: int| 1 <= i < pieces.len() - 1 implies (#[trigger] pieces[i]).len()
                > 0 by {
                assert(pieces[i] == before[i]);
            }
        }
    }
}

proof fn lemma_significant_end(pieces: Seq<Seq<char>>, end: int)
    requires
        0 <= end <= pieces.len(),
    ensures
        0 <= significant_end(pieces, end) <= end,
        significant_end(pieces, end) > 0 ==> significant(
            pieces,
            significant_end(pieces, end) - 1,
        ),
    decreases end,
{
    if end > 0 && !significant(pieces, end - 1) {
        lemma_significant_end(pieces, end - 1);
    }
}

/// The directory that a neat path is rolled up into is told by its parts.
proof fn lemma_directory_canonical(path: Seq<char>, depth: int)
    requires
        neat(path),
        0 <= depth,
    ensures
        canonical(directory(path, depth)),
{
    reveal_strlit(".");
    reveal_strlit("..");
    lemma_short_canonical();
    lemma_split_slashless(path);
    text::lemma_split_nonempty(path, '/');
    let pieces = text::split(path, '/');
    if depth >= parts(path).len() {
        lemma_neat_pieces(path);
        lemma_significant_end(pieces, pieces.len() as int);
        let own = significant_end(pieces, pieces.len() as int);
        if own > 0 {
            lemma_significant_end(pieces, own - 1);
            let rest = significant_end(pieces, own - 1);
            if rest > 0 {
                let some = pieces.take(rest);
                assert(some[rest - 1].len() > 0);
                assert forall|i: int, k: int|
                    0 <= i < some.len() && 0 <= k < some[i].len() implies #[trigger] some[i][k]
                    != '/' by {
                    assert(pieces[i][k] != '/');
                }
                assert forall|i: int| 0 <= i < some.len() implies #[trigger] some[i] != "."@ by {
                    assert(pieces[i] != "."@);
                }
                assert forall|i: int| 1 <= i < some.len() implies (#[trigger] some[i]).len()
                    > 0 by {
                    if i < rest - 1 {
                        assert(pieces[i].len() > 0);
                    }
                }
                lemma_joined_canonical(some);
            }
        }
    } else {
        lemma_named_parts_plain(pieces);
        let some = parts(path).take(depth);
        let first = lead(path);
        assert(pieces[0] != "."@);
        let f = |p: PartModel| part_text(p);
        lemma_names_are_no_dots(pieces);
        assert forall|i: int| first.len() <= i < some.len() implies {
            let text = part_text(#[trigger] some[i]);
            plain(text) && text != "."@
        } by {
            assert(some[i] == named_parts(pieces)[i - first.len()]);
            assert(part_plain(named_parts(pieces)[i - first.len()]));
        }
        if some.len() > 0 && some[0] is Root {
            let texts = some.skip(1).map_values(f);
            assert(first.len() == 1) by {
                if first.len() == 0 {
                    assert(part_plain(named_parts(pieces)[0]));
                    assert(some[0] == named_parts(pieces)[0]);
                }
            }
            if texts.len() > 0 {
                let all = seq![Seq::<char>::empty()] + texts;
                lemma_joined_root(texts);
                assert forall|i: int, k: int|
                    0 <= i < all.len() && 0 <= k < all[i].len() implies #[trigger] all[i][k]
                    != '/' by {
                    if i > 0 {
                        assert(all[i] == part_text(some[i]));
                    }
                }
                assert forall|i: int| 0 <= i < all.len() implies #[trigger] all[i] != "."@ by {
                    if i > 0 {
                        assert(all[i] == part_text(some[i]));
                    }
                }
                assert forall|i: int| 1 <= i < all.len() implies (#[trigger] all[i]).len()
                    > 0 by {
                    assert(all[i] == part_text(some[i]));
                }
                lemma_joined_canonical(all);
            } else {
                assert(joined(texts) =~= Seq::<char>::empty());
                assert(text_of(some) =~= "/"@);
            }
        } else {
            let texts = some.map_values(f);
            if some.len() > 0 {
                assert(first.len() == 0) by {
                    if first.len() > 0 {
                        assert(some[0] == first[0]);
                    }
                }
                assert forall|i: int, k: int|
                    0 <= i < texts.len() && 0 <= k < texts[i].len() implies #[trigger] texts[i][k]
                    != '/' by {
                    assert(texts[i] == part_text(some[i]));
                }
                assert forall|i: int| 0 <= i < texts.len() implies #[trigger] texts[i]
                    != "."@ by {
                    assert(texts[i] == part_text(some[i]));
                }
                assert forall|i: int| 0 <= i < texts.len() implies (#[trigger] texts[i]).len()
                    > 0 by {
                    assert(texts[i] == part_text(some[i]));
                }
                assert(texts[0].len() > 0);
                lemma_joined_canonical(texts);
            } else {
                assert(joined(texts) =~= Seq::<char>::empty());
            }
        }
    }
}

proof fn lemma_names_are_no_dots(pieces: Seq<Seq<char>>)
    ensures
        forall|i: int|
            0 <= i < named_parts(pieces).len() ==> part_text(#[trigger] named_parts(pieces)[i])
                != "."@,
    decreases pieces.len(),
{
    reveal_strlit(".");
    reveal_strlit("..");
    if pieces.len() > 0 {
        lemma_names_are_no_dots(pieces.drop_last());
        let before = named_parts(pieces.drop_last());
        let all = named_parts(pieces);
        assert forall|i: int| 0 <= i < all.len() implies part_text(#[trigger] all[i]) != "."@ by {
            if i < before.len() {
                assert(all[i] == before[i]);
            }
        }
    }
}

/// Neat paths are rolled up into the same directory where the parts of the
/// directories are the same.
pub proof fn lemma_directories_told_by_parts(a: Seq<char>, b: Seq<char>, depth: int)
    requires
        neat(a),
        neat(b),
        0 <= depth,
        parts(directory(a, depth)) == parts(directory(b, depth)),
    ensures
        directory(a, depth) == directory(b, depth),
{
    lemma_directory_canonical(a, depth);
    lemma_directory_canonical(b, depth);
}

// ---------------------------------------------------------------------------
// Paths as keys
// ---------------------------------------------------------------------------

/// A path as a key. Paths with the same parts are the same key, and keys are
/// ordered part by part.
#[derive(Debug)]
pub struct PathKey {
    pub text: String,
}

impl View for PathKey {
    type V = Seq<PartModel>;

    open spec fn view(&self) -> Seq<PartModel> {
        parts(self.text@)
    }
}

/// The rank of one part: what kind it is, then its name.
pub open spec fn part_rank(part: PartModel) -> Seq<int> {
    match part {
        PartModel::Root => seq![1],
        PartModel::Here => seq![2],
        PartModel::Up => seq![3],
        PartModel::Name(name) => seq![4int] + order::closed_rank(name),
    }
}

/// The ranks of the parts, one behind the other.
pub open spec fn parts_rank(parts: Seq<PartModel>) -> Seq<int>
    decreases parts.len(),
{
    if parts.len() == 0 {
        Seq::empty()
    } else {
        part_rank(parts[0]) + parts_rank(parts.skip(1))
    }
}

proof fn lemma_part_rank(p: PartModel, q: PartModel, x: Seq<int>, y: Seq<int>)
    requires
        part_rank(p) + x == part_rank(q) + y,
    ensures
        p == q,
        x == y,
{
    let m = part_rank(p) + x;
    let n = part_rank(q) + y;
    assert(m[0] == part_rank(p)[0]);
    assert(n[0] == part_rank(q)[0]);
    match (p, q) {
        (PartModel::Name(a), PartModel::Name(b)) => {
            assert(m.skip(1) =~= order::closed_rank(a) + x);
            assert(n.skip(1) =~= order::closed_rank(b) + y);
            order::lemma_closed_rank(a, b, x, y);
        },
        _ => {
            assert(m.skip(1) =~= x);
            assert(n.skip(1) =~= y);
        },
    }
}

proof fn lemma_parts_rank(a: Seq<PartModel>, b: Seq<PartModel>)
    requires
        parts_rank(a) == parts_rank(b),
    ensures
        a == b,
    decreases a.len(),
{
    if a.len() == 0 {
        if b.len() > 0 {
            assert(part_rank(b[0]).len() > 0);
            assert(parts_rank(b).len() > 0);
        }
        assert(a =~= b);
    } else if b.len() == 0 {
        assert(part_rank(a[0]).len() > 0);
        assert(parts_rank(a).len() > 0);
    } else {
        lemma_part_rank(a[0], b[0], parts_rank(a.skip(1)), parts_rank(b.skip(1)));
        lemma_parts_rank(a.skip(1), b.skip(1));
        assert(a =~= seq![a[0]] + a.skip(1));
        assert(b =~= seq![b[0]] + b.skip(1));
    }
}

proof fn lemma_parts_rank_push(parts: Seq<PartModel>, part: PartModel)
    ensures
        parts_rank(parts.push(part)) == parts_rank(parts) + part_rank(part),
    decreases parts.len(),
{
    let all = parts.push(part);
    if parts.len() == 0 {
        assert(all.skip(1) =~= Seq::empty());
        assert(parts_rank(all.skip(1)) =~= Seq::empty());
        assert(parts_rank(all) =~= parts_rank(parts) + part_rank(part));
    } else {
        assert(all.skip(1) =~= parts.skip(1).push(part));
        lemma_parts_rank_push(parts.skip(1), part);
        assert(parts_rank(all) =~= parts_rank(parts) + part_rank(part));
    }
}

fn rank_of(path: &str) -> (r: Vec<i128>)
    ensures
        order::ints(r@) == parts_rank(parts(path@)),
{
    let pieces = parts_of(path);
    let ghost all = part_views(pieces@);
    let mut out: Vec<i128> = Vec::new();
    let mut i: usize = 0;
    assert(order::ints(out@) =~= parts_rank(all.take(0)));
    while i < pieces.len()
        invariant
            i <= pieces.len(),
            all == part_views(pieces@),
            order::ints(out@) == parts_rank(all.take(i as int)),
        decreases pieces.len() - i,
    {
        let ghost done = order::ints(out@);
        proof {
            assert(all[i as int] == pieces@[i as int]@);
            assert(all.take(i + 1) =~= all.take(i as int).push(all[i as int]));
            lemma_parts_rank_push(all.take(i as int), all[i as int]);
        }
        match &pieces[i] {
            Part::Root => {
                out.push(1);
                assert(order::ints(out@) =~= done + seq![1int]);
            },
            Part::Here => {
                out.push(2);
                assert(order::ints(out@) =~= done + seq![2int]);
            },
            Part::Up => {
                out.push(3);
                assert(order::ints(out@) =~= done + seq![3int]);
            },
            Part::Name(name) => {
                out.push(4);
                assert(order::ints(out@) =~= done + seq![4int]);
                order::push_closed_rank(&mut out, name.as_str());
                assert(order::ints(out@) =~= done + (seq![4int] + order::closed_rank(name@)));
            },
        }
        i = i + 1;
    }
    assert(all.take(i as int) =~= all);
    out
}

impl Key for PathKey {
    open spec fn rank(key: Seq<PartModel>) -> Seq<int> {
        parts_rank(key)
    }

    proof fn lemma_rank_differs(a: Seq<PartModel>, b: Seq<PartModel>) {
        if parts_rank(a) == parts_rank(b) {
            lemma_parts_rank(a, b);
        }
    }

    fn comes_before(&self, other: &PathKey) -> (r: bool) {
        order::ranks_before(&rank_of(self.text.as_str()), &rank_of(other.text.as_str()))
    }

    fn duplicate(&self) -> (r: PathKey) {
        PathKey { text: self.text.clone() }
    }
}

// ---------------------------------------------------------------------------
// Laws
// ---------------------------------------------------------------------------

/// What one piece between slashes adds to the parts.
pub open spec fn piece_parts(piece: Seq<char>) -> Seq<PartModel> {
    if piece.len() == 0 || (piece.len() == 1 && piece[0] == '.') {
        Seq::empty()
    } else if piece.len() == 2 && piece[0] == '.' && piece[1] == '.' {
        seq![PartModel::Up]
    } else {
        seq![PartModel::Name(piece)]
    }
}

proof fn lemma_piece_parts(piece: Seq<char>)
    ensures
        named_parts(seq![piece]) == piece_parts(piece),
{
    reveal_strlit(".");
    reveal_strlit("..");
    reveal_with_fuel(named_parts, 2);
    assert(seq![piece].drop_last() =~= Seq::empty());
    assert(piece.len() == 1 && piece[0] == '.' ==> piece =~= "."@);
    assert(piece.len() == 2 && piece[0] == '.' && piece[1] == '.' ==> piece =~= ".."@);
    assert(named_parts(seq![piece]) =~= piece_parts(piece));
}

/// A path grows by one part with each piece behind a slash: a name is a part,
/// `..` leads up, and neither an empty piece nor a `.` counts there. In front, a
/// slash is the root and a `.` counts.
pub proof fn law_slashes_part_a_path(path: Seq<char>, piece: Seq<char>)
    requires
        forall|k: int| 0 <= k < piece.len() ==> #[trigger] piece[k] != '/',
    ensures
        path.len() > 0 ==> parts(path.push('/') + piece) == parts(path) + piece_parts(piece),
        parts(seq!['/'] + piece) == seq![PartModel::Root] + piece_parts(piece),
        parts(piece) == if piece == seq!['.'] {
            seq![PartModel::Here]
        } else {
            piece_parts(piece)
        },
{
    reveal_strlit("/");
    reveal_strlit(".");
    lemma_piece_parts(piece);
    lemma_split_single(piece);
    text::lemma_split_nonempty(path, '/');
    let own = text::split(path, '/');
    if path.len() > 0 {
        let all = path.push('/') + piece;
        text::law_a_separator_parts_the_pieces(path, piece, '/');
        lemma_named_parts_concat(own, seq![piece]);
        assert(text::split(all, '/')[0] == own[0]);
        assert(all[0] == path[0]);
        assert(parts(all) =~= parts(path) + piece_parts(piece));
    }
    let empty = Seq::<char>::empty();
    let rooted = seq!['/'] + piece;
    text::law_a_separator_parts_the_pieces(empty, piece, '/');
    assert(empty.push('/') + piece =~= rooted);
    lemma_split_single(empty);
    lemma_piece_parts(empty);
    lemma_named_parts_concat(seq![empty], seq![piece]);
    assert(parts(rooted) =~= seq![PartModel::Root] + piece_parts(piece));
    assert(piece == seq!['.'] <==> piece == "."@) by {
        assert(seq!['.'] =~= "."@);
    }
    assert(parts(piece) =~= if piece == seq!['.'] {
        seq![PartModel::Here]
    } else {
        piece_parts(piece)
    });
}

/// The file name is the last piece; a slash behind it does not matter. Behind
/// `..` there is none.
pub proof fn law_the_last_piece_is_the_file_name(path: Seq<char>, piece: Seq<char>)
    requires
        forall|k: int| 0 <= k < piece.len() ==> #[trigger] piece[k] != '/',
        piece.len() > 0,
        piece != seq!['.'],
        piece != seq!['.', '.'],
    ensures
        file_name(piece) == Some(piece),
        path.len() > 0 ==> file_name(path.push('/') + piece) == Some(piece),
        file_name(seq!['/'] + piece) == Some(piece),
        path.len() > 0 ==> file_name(path.push('/')) == file_name(path),
        path.len() > 0 ==> file_name(path.push('/') + seq!['.', '.']) is None,
        file_name(seq!['/']) is None,
{
    assert(piece_parts(piece) == seq![PartModel::Name(piece)]) by {
        assert(piece.len() == 1 && piece[0] == '.' ==> piece =~= seq!['.']);
        assert(piece.len() == 2 && piece[0] == '.' && piece[1] == '.' ==> piece =~= seq!['.', '.']);
    }
    law_slashes_part_a_path(path, piece);
    law_slashes_part_a_path(path, Seq::empty());
    law_slashes_part_a_path(path, seq!['.', '.']);
    assert(path.push('/') + Seq::<char>::empty() =~= path.push('/'));
    assert(seq!['/'] + Seq::<char>::empty() =~= seq!['/']);
    if path.len() > 0 {
        assert((parts(path) + piece_parts(piece)).last() == PartModel::Name(piece));
        assert(parts(path) + piece_parts(Seq::empty()) =~= parts(path));
        assert((parts(path) + piece_parts(seq!['.', '.'])).last() == PartModel::Up);
    }
    assert((seq![PartModel::Root] + piece_parts(piece)).last() == PartModel::Name(piece));
    assert(seq![PartModel::Root] + piece_parts(Seq::empty()) =~= seq![PartModel::Root]);
}

/// An extension is what follows the last dot of a name, if something stands
/// before that dot. It may be empty.
pub proof fn law_the_extension_follows_the_last_dot(stem: Seq<char>, ext: Seq<char>)
    requires
        forall|k: int| 0 <= k < ext.len() ==> #[trigger] ext[k] != '.',
    ensures
        stem.len() > 0 ==> name_extension(stem.push('.') + ext) == Some(ext),
        name_extension(seq!['.'] + ext) is None,
        name_extension(ext) is None,
{
    let name = stem.push('.') + ext;
    if stem.len() > 0 {
        let at = stem.len() as int;
        assert forall|k: int| at < k < name.len() implies #[trigger] name[k] != '.' by {
            assert(name[k] == ext[k - at - 1]);
        }
        assert(last_dot_at(name, at) && at > 0);
        let i = choose|i: int| last_dot_at(name, i) && i > 0;
        assert(i == at) by {
            if i < at {
                assert(name[at] != '.');
            }
            if i > at {
                assert(name[i] != '.');
            }
        }
        assert(name.skip(at + 1) =~= ext);
    }
    let hidden = seq!['.'] + ext;
    assert forall|i: int| i > 0 implies !last_dot_at(hidden, i) by {
        if last_dot_at(hidden, i) {
            assert(hidden[i] == ext[i - 1]);
        }
    }
}

/// The extension of a path is that of its file name.
pub proof fn law_paths_have_the_extension_of_their_name(path: Seq<char>)
    ensures
        file_name(path) is None ==> extension(path) is None,
        file_name(path) matches Some(name) ==> extension(path) == name_extension(name),
{
}

proof fn lemma_joined_split(s: Seq<char>)
    ensures
        joined(text::split(s, '/')) == s,
    decreases s.len(),
{
    reveal_strlit("/");
    let all = text::split(s, '/');
    text::lemma_split_nonempty(s, '/');
    if s.len() == 0 {
        assert(joined(all) =~= s);
    } else {
        let t = s.drop_last();
        let rest = text::split(t, '/');
        lemma_joined_split(t);
        text::lemma_split_nonempty(t, '/');
        if s.last() == '/' {
            assert(all.drop_last() =~= rest);
            assert(joined(all) =~= s);
        } else {
            assert(all.drop_last() =~= rest.drop_last());
            assert(all.last() == rest.last().push(s.last()));
            assert(t.push(s.last()) =~= s);
            if rest.len() == 1 {
                assert(rest[0] == t);
                assert(all[0] == s);
            } else {
                assert(joined(rest) == joined(rest.drop_last()) + "/"@ + rest.last());
                assert(joined(all) == joined(rest.drop_last()) + "/"@ + all.last());
                assert(joined(all) =~= joined(rest).push(s.last()));
            }
        }
    }
}

proof fn lemma_joined_take(pieces: Seq<Seq<char>>, n: int)
    requires
        0 < n <= pieces.len(),
    ensures
        joined(pieces.take(n)).is_prefix_of(joined(pieces)),
    decreases pieces.len(),
{
    if n == pieces.len() {
        assert(pieces.take(n) =~= pieces);
        assert(joined(pieces).take(joined(pieces).len() as int) =~= joined(pieces));
    } else {
        let rest = pieces.drop_last();
        lemma_joined_take(rest, n);
        assert(rest.take(n) =~= pieces.take(n));
        let a = joined(pieces.take(n));
        let b = joined(rest);
        let c = joined(pieces);
        assert(c == b + "/"@ + pieces.last());
        assert(c.subrange(0, a.len() as int) =~= b.subrange(0, a.len() as int));
    }
}

proof fn lemma_insignificant(pieces: Seq<Seq<char>>, a: int, b: int)
    requires
        0 < a <= b <= pieces.len(),
        forall|k: int| a <= k < b ==> !#[trigger] significant(pieces, k),
    ensures
        named_parts(pieces.take(b)) == named_parts(pieces.take(a)),
    decreases b - a,
{
    if a < b {
        lemma_insignificant(pieces, a, b - 1);
        assert(!significant(pieces, b - 1));
        assert(pieces.take(b).drop_last() =~= pieces.take(b - 1));
    }
}

proof fn lemma_significant_end_rest(pieces: Seq<Seq<char>>, end: int)
    requires
        0 <= end <= pieces.len(),
    ensures
        forall|k: int|
            significant_end(pieces, end) <= k < end ==> !#[trigger] significant(pieces, k),
    decreases end,
{
    if end > 0 && !significant(pieces, end - 1) {
        lemma_significant_end_rest(pieces, end - 1);
    }
}

proof fn lemma_lead_of_prefix(path: Seq<char>, n: int)
    requires
        0 < n <= text::split(path, '/').len(),
        text::split(path, '/')[0].len() == 0 ==> n > 1,
    ensures
        parts(joined(text::split(path, '/').take(n))) == lead(path) + named_parts(
            text::split(path, '/').take(n),
        ),
        path.len() > 0 ==> (path[0] == '/' <==> text::split(path, '/')[0].len() == 0),
{
    reveal_strlit("/");
    let pieces = text::split(path, '/');
    let some = pieces.take(n);
    let text = joined(some);
    lemma_split_slashless(path);
    assert(slashless(some)) by {
        assert forall|i: int, k: int|
            0 <= i < some.len() && 0 <= k < some[i].len() implies #[trigger] some[i][k] != '/' by {
            assert(pieces[i][k] != '/');
        }
    }
    lemma_split_joined(some);
    lemma_joined_split(path);
    lemma_joined_take(pieces, n);
    lemma_joined_take(pieces, 1);
    assert(pieces.take(1).len() == 1 && joined(pieces.take(1)) == pieces[0]);
    assert(path.subrange(0, pieces[0].len() as int) == pieces[0]);
    if pieces[0].len() > 0 {
        assert(path[0] == pieces[0][0]);
    } else if pieces.len() > 1 {
        lemma_joined_take(pieces, 2);
        assert(pieces.take(2).drop_last() =~= pieces.take(1));
        assert(joined(pieces.take(2)) == pieces[0] + "/"@ + pieces[1]);
        assert(joined(pieces.take(2))[0] == '/');
        assert(path[0] == joined(pieces.take(2))[0]);
    } else {
        assert(pieces =~= seq![pieces[0]]);
        assert(path.len() == 0);
    }
    assert(path.subrange(0, text.len() as int) == text);
    lemma_joined_take(some, 1);
    assert(some.take(1) =~= pieces.take(1));
    if pieces[0].len() > 0 {
        assert(text.len() > 0);
        assert(text[0] == path[0]);
    } else {
        lemma_joined_take(some, 2);
        assert(some.take(2) =~= pieces.take(2));
        assert(text.len() > 0);
        assert(text[0] == path[0]);
    }
    assert(text::split(text, '/')[0] == pieces[0]);
    assert(lead(text) == lead(path));
}

/// The parent of a path is what stands before its last part: it has the same
/// parts but the last, and the path is written on from it.
pub proof fn law_the_parent_lacks_the_last_part(path: Seq<char>)
    ensures
        parts(path).len() > 0 ==> parts(parent(path)) == parts(path).drop_last(),
        parts(path).len() <= 1 ==> parent(path).len() == 0,
        parent(path).is_prefix_of(path),
{
    reveal_strlit("/");
    reveal_strlit(".");
    let pieces = text::split(path, '/');
    text::lemma_split_nonempty(path, '/');
    let count = pieces.len() as int;
    let own = significant_end(pieces, count);
    lemma_significant_end(pieces, count);
    lemma_significant_end_rest(pieces, count);
    lemma_joined_split(path);
    let empty = Seq::<char>::empty();
    lemma_split_single(empty);
    lemma_piece_parts(empty);
    assert(parts(empty) =~= Seq::empty());
    assert(empty.is_prefix_of(path)) by {
        assert(path.subrange(0, 0) =~= empty);
    }
    assert(pieces.take(count) =~= pieces);
    assert(pieces.take(1) =~= seq![pieces[0]]);
    lemma_piece_parts(pieces[0]);
    if own == 0 {
        assert(!significant(pieces, 0));
        lemma_insignificant(pieces, 1, count);
        assert(named_parts(pieces) =~= Seq::empty());
        assert(parts(path).len() > 0 ==> parts(path).drop_last() =~= Seq::empty());
    } else {
        let rest = significant_end(pieces, own - 1);
        lemma_significant_end(pieces, own - 1);
        lemma_significant_end_rest(pieces, own - 1);
        lemma_insignificant(pieces, own, count);
        let last = pieces[own - 1];
        assert(pieces.take(own).drop_last() =~= pieces.take(own - 1));
        if rest > 0 {
            lemma_insignificant(pieces, rest, own - 1);
            lemma_joined_take(pieces, rest);
            assert(significant(pieces, rest - 1));
            lemma_lead_of_prefix(path, rest);
            assert(own - 1 > 0);
            assert(significant(pieces, own - 1));
            assert(named_parts(pieces).len() == named_parts(pieces.take(rest)).len() + 1);
            assert(named_parts(pieces).drop_last() =~= named_parts(pieces.take(rest)));
            assert(parts(path).drop_last() =~= lead(path) + named_parts(pieces.take(rest)));
            assert(parts(path).len() >= 2) by {
                let first = pieces[rest - 1];
                assert(pieces.take(rest).drop_last() =~= pieces.take(rest - 1));
                if first == "."@ {
                    assert(rest == 1);
                    assert(pieces[0] == "."@);
                    assert(path.len() > 0 ==> path[0] != '/');
                    assert(lead(path).len() == 1);
                } else {
                    assert(named_parts(pieces.take(rest)).len() >= 1);
                }
            }
        } else {
            lemma_lead_of_prefix(path, count);
            if own > 1 {
                assert(!significant(pieces, 0));
                lemma_insignificant(pieces, 1, own - 1);
            } else {
                assert(pieces.take(0) =~= Seq::empty());
            }
            if own > 1 {
                assert(pieces[0].len() == 0 || pieces[0] == "."@ && !significant(pieces, 0));
                assert(pieces[0].len() == 0);
                assert(path.len() > 0 && path[0] == '/') by {
                    if path.len() == 0 {
                        assert(text::split(path, '/').len() == 1);
                    }
                }
                assert(significant(pieces, own - 1));
                assert(named_parts(pieces).len() == 1);
                law_slashes_part_a_path(path, empty);
                assert(seq!['/'] + empty =~= "/"@);
                assert(parts("/"@) =~= seq![PartModel::Root]);
                assert(parts(path).drop_last() =~= seq![PartModel::Root]);
                assert(path.subrange(0, 1) =~= "/"@);
            } else {
                assert(significant(pieces, 0));
                assert(pieces[0].len() > 0);
                assert(path.len() == 0 || path[0] != '/');
                assert(named_parts(pieces) == piece_parts(pieces[0]));
                assert(pieces[0] == "."@ ==> pieces[0].len() == 1 && pieces[0][0] == '.');
                assert(parts(path).len() == 1);
                assert(parts(path).drop_last() =~= Seq::empty());
            }
        }
    }
}

spec fn regular(part: PartModel) -> bool {
    match part {
        PartModel::Name(name) => plain(name) && name != "."@ && name != ".."@,
        PartModel::Up => true,
        _ => false,
    }
}

proof fn lemma_named_parts_regular(pieces: Seq<Seq<char>>)
    requires
        slashless(pieces),
    ensures
        forall|i: int|
            0 <= i < named_parts(pieces).len() ==> regular(#[trigger] named_parts(pieces)[i]),
    decreases pieces.len(),
{
    if pieces.len() > 0 {
        let rest = pieces.drop_last();
        assert forall|i: int, k: int|
            0 <= i < rest.len() && 0 <= k < rest[i].len() implies #[trigger] rest[i][k] != '/' by {
            assert(pieces[i][k] != '/');
        }
        lemma_named_parts_regular(rest);
        let all = named_parts(pieces);
        let before = named_parts(rest);
        let last = pieces.last();
        assert forall|k: int| 0 <= k < last.len() implies #[trigger] last[k] != '/' by {
            assert(pieces[pieces.len() - 1][k] != '/');
        }
        assert forall|i: int| 0 <= i < all.len() implies regular(#[trigger] all[i]) by {
            if i < before.len() {
                assert(all[i] == before[i]);
            }
        }
    }
}

proof fn lemma_named_again(names: Seq<PartModel>)
    requires
        forall|i: int| 0 <= i < names.len() ==> regular(#[trigger] names[i]),
    ensures
        named_parts(names.map_values(|p: PartModel| part_text(p))) == names,
        slashless(names.map_values(|p: PartModel| part_text(p))),
        all_plain(names.map_values(|p: PartModel| part_text(p))),
    decreases names.len(),
{
    reveal_strlit(".");
    reveal_strlit("..");
    let f = |p: PartModel| part_text(p);
    let texts = names.map_values(f);
    assert forall|i: int| 0 <= i < texts.len() implies plain(#[trigger] texts[i]) by {
        assert(regular(names[i]));
    }
    assert forall|i: int, k: int|
        0 <= i < texts.len() && 0 <= k < texts[i].len() implies #[trigger] texts[i][k] != '/' by {
        assert(plain(texts[i]));
    }
    if names.len() > 0 {
        let rest = names.drop_last();
        assert forall|i: int| 0 <= i < rest.len() implies regular(#[trigger] rest[i]) by {
            assert(regular(names[i]));
        }
        lemma_named_again(rest);
        assert(texts.drop_last() =~= rest.map_values(f));
        assert(regular(names[names.len() - 1]));
        assert(named_parts(texts) =~= names);
    } else {
        assert(named_parts(texts) =~= names);
    }
}

/// The first parts of a path, written out, have those parts again.
pub proof fn law_parts_can_be_written_and_read(path: Seq<char>, n: int)
    requires
        0 <= n <= parts(path).len(),
    ensures
        parts(text_of(parts(path).take(n))) == parts(path).take(n),
{
    reveal_strlit("/");
    reveal_strlit(".");
    let pieces = text::split(path, '/');
    let f = |p: PartModel| part_text(p);
    lemma_split_slashless(path);
    lemma_named_parts_regular(pieces);
    let first = lead(path);
    let named = named_parts(pieces);
    let some = parts(path).take(n);
    if n == 0 {
        assert(some.map_values(f) =~= Seq::empty());
        let empty = Seq::<char>::empty();
        assert(text_of(some) =~= empty);
        lemma_split_single(empty);
        lemma_piece_parts(empty);
        assert(parts(empty) =~= some);
    } else {
        let m = n - first.len();
        let names = named.take(m);
        assert(some =~= first + names);
        assert forall|i: int| 0 <= i < names.len() implies regular(#[trigger] names[i]) by {
            assert(regular(named[i]));
        }
        lemma_named_again(names);
        let texts = names.map_values(f);
        let text = text_of(some);
        if first.len() == 0 {
            assert(some =~= names);
            assert(regular(names[0]));
            lemma_joined_apart(texts);
            lemma_split_joined(texts);
            assert(text == joined(texts));
            assert(texts[0] == part_text(names[0]));
            reveal_strlit("..");
            assert(texts[0] != "."@);
            assert(parts(text) =~= some);
        } else if first[0] is Root {
            assert(some[0] is Root);
            assert(some.skip(1) =~= names);
            assert(text == "/"@ + joined(texts));
            let empty = Seq::<char>::empty();
            if names.len() == 0 {
                assert(joined(texts) =~= empty);
                assert(text =~= seq!['/'] + empty);
                law_slashes_part_a_path(empty, empty);
                assert(parts(text) =~= some);
            } else {
                let all = seq![empty] + texts;
                lemma_joined_root(texts);
                assert(slashless(all)) by {
                    assert forall|i: int, k: int|
                        0 <= i < all.len() && 0 <= k < all[i].len() implies #[trigger] all[i][k]
                        != '/' by {
                        assert(all[i] == texts[i - 1]);
                        assert(texts[i - 1][k] != '/');
                    }
                }
                lemma_split_joined(all);
                lemma_piece_parts(empty);
                lemma_named_parts_concat(seq![empty], texts);
                assert(text[0] == '/');
                assert(parts(text) =~= some);
            }
        } else {
            assert(some[0] is Here);
            let all = seq!["."@] + texts;
            assert(some.map_values(f) =~= all);
            assert(text == joined(all));
            assert(all_plain(all)) by {
                assert forall|i: int| 0 <= i < all.len() implies plain(#[trigger] all[i]) by {
                    if i > 0 {
                        assert(all[i] == texts[i - 1]);
                        assert(plain(texts[i - 1]));
                    }
                }
            }
            assert(slashless(all)) by {
                assert forall|i: int, k: int|
                    0 <= i < all.len() && 0 <= k < all[i].len() implies #[trigger] all[i][k]
                    != '/' by {
                    assert(plain(all[i]));
                }
            }
            lemma_joined_apart(all);
            lemma_split_joined(all);
            lemma_piece_parts("."@);
            lemma_named_parts_concat(seq!["."@], texts);
            assert(parts(text) =~= some);
        }
    }
}

/// A file is rolled up into the first parts of its path, as many as asked for
/// but never its own name; where nothing is left it is rolled up into `.`.
pub proof fn law_files_are_rolled_up_by_depth(path: Seq<char>, depth: int)
    requires
        0 <= depth,
    ensures
        ({
            let own = parts(path).len();
            let d = directory(path, depth);
            &&& 0 < depth < own ==> parts(d) == parts(path).take(depth)
            &&& depth == 0 && own > 0 ==> d == "."@
            &&& depth >= own && own >= 2 ==> parts(d) == parts(path).take(own - 1)
            &&& depth >= own && own <= 1 ==> d == "."@
        }),
{
    let own = parts(path).len() as int;
    let empty = Seq::<char>::empty();
    lemma_split_single(empty);
    lemma_piece_parts(empty);
    assert(parts(empty) =~= Seq::empty()) by {
        reveal_strlit(".");
    }
    if depth < own {
        law_parts_can_be_written_and_read(path, depth);
        let group = text_of(parts(path).take(depth));
        if depth == 0 {
            assert(parts(path).take(0).map_values(|p: PartModel| part_text(p)) =~= Seq::empty());
            assert(group =~= empty);
        } else if group.len() == 0 {
            assert(group =~= empty);
        }
    } else {
        law_the_parent_lacks_the_last_part(path);
        if own >= 2 {
            assert(parts(path).drop_last() =~= parts(path).take(own - 1));
            if parent(path).len() == 0 {
                assert(parent(path) =~= empty);
            }
        }
    }
}

/// A path lies below another exactly if it starts with the same parts; what it
/// leads on with are the others.
pub proof fn law_what_lies_below_starts_with_the_same_parts(path: Seq<char>, base: Seq<char>)
    ensures
        below(path, base) is Some <==> parts(base).len() <= parts(path).len() && forall|k: int|
            0 <= k < parts(base).len() ==> #[trigger] parts(base)[k] == parts(path)[k],
{
    let a = parts(base);
    let b = parts(path);
    if a.is_prefix_of(b) {
        assert forall|k: int| 0 <= k < a.len() implies #[trigger] a[k] == b[k] by {
            assert(b.subrange(0, a.len() as int)[k] == b[k]);
        }
    }
    if a.len() <= b.len() && forall|k: int| 0 <= k < a.len() ==> #[trigger] a[k] == b[k] {
        assert(b.subrange(0, a.len() as int) =~= a);
    }
}

/// One part comes before another: the root, then `.`, then `..`, then names in
/// the order of their bytes.
pub open spec fn part_precedes(a: PartModel, b: PartModel) -> bool {
    match (a, b) {
        (PartModel::Root, PartModel::Root) => false,
        (PartModel::Root, _) => true,
        (PartModel::Here, PartModel::Up) => true,
        (PartModel::Here, PartModel::Name(_)) => true,
        (PartModel::Up, PartModel::Name(_)) => true,
        (PartModel::Name(x), PartModel::Name(y)) => order::text_precedes(x, y),
        _ => false,
    }
}

/// Paths are ordered part by part: the first part that differs decides, and a
/// directory comes before what lies below it.
pub proof fn law_paths_are_ordered_part_by_part(a: Seq<PartModel>, b: Seq<PartModel>)
    ensures
        order::before(parts_rank(a), parts_rank(b)) <==> b.len() > 0 && (a.len() == 0
            || part_precedes(a[0], b[0]) || (a[0] == b[0] && order::before(
            parts_rank(a.skip(1)),
            parts_rank(b.skip(1)),
        ))),
{
    let m = parts_rank(a);
    let n = parts_rank(b);
    if a.len() == 0 && b.len() > 0 {
        assert(part_rank(b[0]).len() > 0);
        assert(n.len() > 0);
    }
    if a.len() > 0 && b.len() > 0 {
        let x = parts_rank(a.skip(1));
        let y = parts_rank(b.skip(1));
        assert(m == part_rank(a[0]) + x);
        assert(n == part_rank(b[0]) + y);
        assert(m[0] == part_rank(a[0])[0]);
        assert(n[0] == part_rank(b[0])[0]);
        match (a[0], b[0]) {
            (PartModel::Name(p), PartModel::Name(q)) => {
                assert(m.skip(1) =~= order::closed_rank(p) + x);
                assert(n.skip(1) =~= order::closed_rank(q) + y);
                order::law_a_text_in_front_decides_first(p, q, x, y);
            },
            _ => {
                if a[0] == b[0] {
                    assert(m.skip(1) =~= x);
                    assert(n.skip(1) =~= y);
                }
            },
        }
    }
}

/// Joining puts one path behind the other with one slash between them. A path
/// that starts at the root stands for itself, and so does one behind nothing.
pub proof fn law_joining_puts_one_slash_between(base: Seq<char>, rest: Seq<char>)
    ensures
        rest.len() > 0 && rest[0] == '/' ==> appended(base, rest) == rest,
        !(rest.len() > 0 && rest[0] == '/') ==> {
            let r = appended(base, rest);
            let n = r.len() - rest.len();
            &&& r.skip(n) == rest
            &&& base.is_prefix_of(r)
            &&& base.len() == 0 ==> n == 0
            &&& base.len() > 0 ==> r[n - 1] == '/'
            &&& base.len() > 0 && base[base.len() - 1] == '/' ==> n == base.len()
            &&& base.len() > 0 && base[base.len() - 1] != '/' ==> n == base.len() + 1
        },
{
    reveal_strlit("/");
    if !(rest.len() > 0 && rest[0] == '/') {
        let r = appended(base, rest);
        let n = r.len() - rest.len();
        assert(r.skip(n) =~= rest);
        assert(r.subrange(0, base.len() as int) =~= base);
    }
}

/// Every path lies below nothing, as itself.
pub proof fn law_every_path_lies_below_nothing(path: Seq<char>)
    ensures
        below(path, Seq::empty()) is Some,
        parts(below(path, Seq::empty())->0) == parts(path),
{
    let empty = Seq::<char>::empty();
    lemma_split_single(empty);
    lemma_piece_parts(empty);
    assert(parts(empty) =~= Seq::empty()) by {
        reveal_strlit(".");
    }
    let all = parts(path);
    assert(all.subrange(0, 0) =~= Seq::empty());
    assert(all.skip(0) =~= all);
    assert(all.take(all.len() as int) =~= all);
    law_parts_can_be_written_and_read(path, all.len() as int);
}

} // verus!
