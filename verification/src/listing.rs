//! Listings of the languages and families that are known.

use vstd::prelude::*;

use crate::globs;
use crate::lang;
use crate::lang::{FamilyDef, LanguageDef, Registry};
use crate::order;
use crate::render;
use crate::text;

verus! {

/// Texts with a comma and a space between them.
pub open spec fn comma_joined(texts: Seq<Seq<char>>) -> Seq<char>
    decreases texts.len(),
{
    if texts.len() == 0 {
        Seq::empty()
    } else if texts.len() == 1 {
        texts[0]
    } else {
        comma_joined(texts.drop_last()) + ", "@ + texts.last()
    }
}

fn comma_join(texts: &Vec<String>) -> (r: String)
    ensures
        r@ == comma_joined(text::views(texts@)),
{
    let ghost all = text::views(texts@);
    let mut out = String::new();
    let mut i: usize = 0;
    assert(out@ =~= comma_joined(all.take(0)));
    while i < texts.len()
        invariant
            i <= texts.len(),
            all == text::views(texts@),
            out@ == comma_joined(all.take(i as int)),
        decreases texts.len() - i,
    {
        let ghost done = out@;
        assert(all.take(i + 1).drop_last() =~= all.take(i as int));
        assert(all.take(i + 1).last() == texts@[i as int]@);
        if i > 0 {
            out.append(", ");
        }
        out.append(texts[i].as_str());
        if i == 0 {
            assert(out@ =~= texts@[0]@);
            assert(all.take(1)[0] == texts@[0]@);
        }
        i = i + 1;
    }
    assert(all.take(i as int) =~= all);
    out
}

/// A cell pushed to the left end of its column.
pub open spec fn flush_left(cell: Seq<char>, width: int) -> Seq<char> {
    cell + render::repeated(' ', width - cell.len())
}

fn fill(cell: &str, width: usize) -> (r: String)
    ensures
        r@ == flush_left(cell@, width as int),
{
    let own = cell.unicode_len();
    let n: usize = if width > own {
        width - own
    } else {
        0
    };
    let mut out = cell.to_owned();
    let spaces = render::repeat(' ', n as u128);
    assert(render::repeated(' ', n as int) =~= render::repeated(' ', width - own));
    out.append(spaces.as_str());
    out
}

/// The length in bytes of the longest of some texts.
pub open spec fn longest(texts: Seq<Seq<char>>) -> int
    decreases texts.len(),
{
    if texts.len() == 0 {
        0
    } else {
        let rest = longest(texts.drop_last());
        let own = text::bytes_of(texts.last()).len() as int;
        if own > rest {
            own
        } else {
            rest
        }
    }
}

// ---------------------------------------------------------------------------
// Languages
// ---------------------------------------------------------------------------

/// What the listing says of a language.
struct LanguageLine {
    name: String,
    extensions: String,
    detects: bool,
}

/// What the listing says of a language: its name, its extensions, and whether
/// test code can be told apart in it.
#[verifier::ext_equal]
pub struct LanguageModel {
    pub name: Seq<char>,
    pub extensions: Seq<char>,
    pub detects: bool,
}

impl View for LanguageLine {
    type V = LanguageModel;

    closed spec fn view(&self) -> LanguageModel {
        LanguageModel { name: self.name@, extensions: self.extensions@, detects: self.detects }
    }
}

/// What the listing says of a language.
pub open spec fn about(language: LanguageDef) -> LanguageModel {
    LanguageModel {
        name: language.name@,
        extensions: comma_joined(text::views(language.extensions@)),
        detects: language.test_blocks@.len() > 0 || globs::set_globs(language.test_paths).len()
            > 0,
    }
}

/// Languages are ordered by name, then by their extensions.
pub open spec fn language_rank(line: LanguageModel) -> Seq<int> {
    order::closed_rank(line.name) + order::closed_rank(line.extensions) + seq![
        if line.detects {
            1int
        } else {
            0int
        },
    ]
}

fn language_rank_of(line: &LanguageLine) -> (r: Vec<i128>)
    ensures
        order::ints(r@) == language_rank(line@),
{
    let mut rank: Vec<i128> = Vec::new();
    assert(order::ints(rank@) =~= Seq::empty());
    order::push_closed_rank(&mut rank, line.name.as_str());
    order::push_closed_rank(&mut rank, line.extensions.as_str());
    let ghost done = order::ints(rank@);
    rank.push(
        if line.detects {
            1
        } else {
            0
        },
    );
    assert(order::ints(rank@) =~= language_rank(line@));
    rank
}

/// One line of the listing.
pub open spec fn language_text(line: LanguageModel, width: int) -> Seq<char> {
    flush_left(line.name, width) + "  "@ + flush_left(
        if line.detects {
            "yes"@
        } else {
            "-"@
        },
        5,
    ) + "  "@ + line.extensions + "\n"@
}

/// The lines of the listing, one behind the other.
pub open spec fn language_texts(lines: Seq<LanguageModel>, width: int) -> Seq<char>
    decreases lines.len(),
{
    if lines.len() == 0 {
        Seq::empty()
    } else {
        language_texts(lines.drop_last(), width) + language_text(lines.last(), width)
    }
}

/// The names of some languages.
pub open spec fn language_names(lines: Seq<LanguageModel>) -> Seq<Seq<char>> {
    lines.map_values(|line: LanguageModel| line.name)
}

/// The languages in the order of the listing.
pub open spec fn languages_listed(languages: Seq<LanguageDef>) -> Seq<LanguageModel> {
    order::sorted_by(
        languages.map_values(|l: LanguageDef| about(l)),
        |line: LanguageModel| language_rank(line),
    )
}

/// The listing of some languages. The first column is as wide as the longest
/// name has bytes.
pub open spec fn language_listing(languages: Seq<LanguageDef>) -> Seq<char> {
    let lines = languages_listed(languages);
    let width = longest(language_names(lines));
    flush_left("LANGUAGE"@, width) + "  TESTS  EXTENSIONS\n"@ + language_texts(lines, width)
}

spec fn language_views(lines: Seq<LanguageLine>) -> Seq<LanguageModel> {
    lines.map_values(|line: LanguageLine| line@)
}

fn sorted_languages(languages: &[LanguageDef]) -> (r: Vec<LanguageLine>)
    ensures
        language_views(r@) == languages_listed(languages@),
{
    let ghost all = languages@.map_values(|l: LanguageDef| about(l));
    let mut lines: Vec<LanguageLine> = Vec::new();
    let mut i: usize = 0;
    assert(language_views(lines@) =~= all.take(0));
    while i < languages.len()
        invariant
            i <= languages.len(),
            all == languages@.map_values(|l: LanguageDef| about(l)),
            language_views(lines@) == all.take(i as int),
        decreases languages.len() - i,
    {
        let ghost done = language_views(lines@);
        let language = &languages[i];
        let line = LanguageLine {
            name: language.name.clone(),
            extensions: comma_join(&language.extensions),
            detects: language.detects_tests(),
        };
        assert(line@ == all[i as int]);
        lines.push(line);
        assert(language_views(lines@) =~= done.push(line@));
        assert(all.take(i + 1) =~= all.take(i as int).push(all[i as int]));
        i = i + 1;
    }
    assert(all.take(i as int) =~= all);
    let ghost rank = |line: LanguageLine| language_rank(line@);
    let comes_before = |a: &LanguageLine, b: &LanguageLine| -> (c: bool)
        ensures
            c == order::before(language_rank(a@), language_rank(b@)),
    {
        order::ranks_before(&language_rank_of(a), &language_rank_of(b))
    };
    let ghost unsorted = lines@;
    let sorted = order::stable_sort(lines, comes_before, Ghost(rank));
    proof {
        order::lemma_sorted_map(
            unsorted,
            |line: LanguageLine| line@,
            rank,
            |line: LanguageModel| language_rank(line),
        );
    }
    sorted
}

/// Lists every language.
pub fn list_languages(registry: &Registry) -> (r: String)
    ensures
        r@ == language_listing(registry.langs()),
{
    let lines = sorted_languages(registry.languages());
    let ghost all = language_views(lines@);
    let ghost names = language_names(all);
    let mut width: usize = 0;
    let mut i: usize = 0;
    assert(longest(names.take(0)) == 0);
    while i < lines.len()
        invariant
            i <= lines.len(),
            all == language_views(lines@),
            names == language_names(all),
            width == longest(names.take(i as int)),
        decreases lines.len() - i,
    {
        assert(names.take(i + 1).drop_last() =~= names.take(i as int));
        assert(names.take(i + 1).last() == lines@[i as int].name@);
        let own = lines[i].name.as_str().as_bytes().len();
        if own > width {
            width = own;
        }
        i = i + 1;
    }
    assert(names.take(i as int) =~= names);
    let mut out = fill("LANGUAGE", width);
    out.append("  TESTS  EXTENSIONS\n");
    let ghost head = out@;
    let mut k: usize = 0;
    assert(head + language_texts(all.take(0), width as int) =~= head);
    while k < lines.len()
        invariant
            k <= lines.len(),
            all == language_views(lines@),
            out@ == head + language_texts(all.take(k as int), width as int),
        decreases lines.len() - k,
    {
        let ghost done = out@;
        let line = &lines[k];
        assert(all.take(k + 1).drop_last() =~= all.take(k as int));
        assert(all.take(k + 1).last() == line@);
        let mark = if line.detects {
            "yes"
        } else {
            "-"
        };
        out.append(fill(line.name.as_str(), width).as_str());
        out.append("  ");
        out.append(fill(mark, 5).as_str());
        out.append("  ");
        out.append(line.extensions.as_str());
        out.append("\n");
        assert(out@ =~= done + language_text(line@, width as int));
        k = k + 1;
        assert(out@ =~= head + language_texts(all.take(k as int), width as int));
    }
    assert(all.take(k as int) =~= all);
    out
}

// ---------------------------------------------------------------------------
// Families
// ---------------------------------------------------------------------------

/// What the listing says of a family.
struct FamilyLine {
    name: String,
    members: Vec<String>,
}

/// What the listing says of a family: its name and those of its languages.
#[verifier::ext_equal]
pub struct FamilyModel {
    pub name: Seq<char>,
    pub members: Seq<Seq<char>>,
}

impl View for FamilyLine {
    type V = FamilyModel;

    closed spec fn view(&self) -> FamilyModel {
        FamilyModel { name: self.name@, members: text::views(self.members@) }
    }
}

/// The names of the languages of a family, as it lists them.
pub open spec fn member_names(family: FamilyDef, languages: Seq<LanguageDef>) -> Seq<Seq<char>> {
    family.languages@.map_values(|id: lang::LanguageId| languages[id.0 as int].name@)
}

/// What the listing says of a family. Its languages are in the order of their
/// names.
pub open spec fn about_family(family: FamilyDef, languages: Seq<LanguageDef>) -> FamilyModel {
    FamilyModel {
        name: family.name@,
        members: order::sorted_by(
            member_names(family, languages),
            |name: Seq<char>| order::text_rank(name),
        ),
    }
}

/// The ranks of some texts, one behind the other.
pub open spec fn texts_rank(texts: Seq<Seq<char>>) -> Seq<int>
    decreases texts.len(),
{
    if texts.len() == 0 {
        Seq::empty()
    } else {
        texts_rank(texts.drop_last()) + order::closed_rank(texts.last())
    }
}

/// Families are ordered by name, then by their languages.
pub open spec fn family_rank(line: FamilyModel) -> Seq<int> {
    order::closed_rank(line.name) + texts_rank(line.members)
}

fn family_rank_of(line: &FamilyLine) -> (r: Vec<i128>)
    ensures
        order::ints(r@) == family_rank(line@),
{
    let ghost members = text::views(line.members@);
    let mut rank: Vec<i128> = Vec::new();
    assert(order::ints(rank@) =~= Seq::empty());
    order::push_closed_rank(&mut rank, line.name.as_str());
    let ghost head = order::ints(rank@);
    assert(head =~= order::closed_rank(line.name@));
    let mut i: usize = 0;
    assert(head + texts_rank(members.take(0)) =~= head);
    while i < line.members.len()
        invariant
            i <= line.members.len(),
            members == text::views(line.members@),
            order::ints(rank@) == head + texts_rank(members.take(i as int)),
        decreases line.members.len() - i,
    {
        assert(members.take(i + 1).drop_last() =~= members.take(i as int));
        assert(members.take(i + 1).last() == line.members@[i as int]@);
        order::push_closed_rank(&mut rank, line.members[i].as_str());
        i = i + 1;
        assert(order::ints(rank@) =~= head + texts_rank(members.take(i as int)));
    }
    assert(members.take(i as int) =~= members);
    rank
}

/// One line of the listing.
pub open spec fn family_text(line: FamilyModel, width: int) -> Seq<char> {
    flush_left(line.name, width) + "  "@ + comma_joined(line.members) + "\n"@
}

/// The lines of the listing, one behind the other.
pub open spec fn family_texts(lines: Seq<FamilyModel>, width: int) -> Seq<char>
    decreases lines.len(),
{
    if lines.len() == 0 {
        Seq::empty()
    } else {
        family_texts(lines.drop_last(), width) + family_text(lines.last(), width)
    }
}

/// The names of some families.
pub open spec fn family_names(lines: Seq<FamilyModel>) -> Seq<Seq<char>> {
    lines.map_values(|line: FamilyModel| line.name)
}

/// The families in the order of the listing.
pub open spec fn families_listed(
    families: Seq<FamilyDef>,
    languages: Seq<LanguageDef>,
) -> Seq<FamilyModel> {
    order::sorted_by(
        families.map_values(|f: FamilyDef| about_family(f, languages)),
        |line: FamilyModel| family_rank(line),
    )
}

/// The listing of some families. The first column is as wide as the longest
/// name has bytes.
pub open spec fn family_listing(
    families: Seq<FamilyDef>,
    languages: Seq<LanguageDef>,
) -> Seq<char> {
    let lines = families_listed(families, languages);
    let width = longest(family_names(lines));
    flush_left("FAMILY"@, width) + "  LANGUAGES\n"@ + family_texts(lines, width)
}

spec fn family_views(lines: Seq<FamilyLine>) -> Seq<FamilyModel> {
    lines.map_values(|line: FamilyLine| line@)
}

fn sorted_members(registry: &Registry, family: &FamilyDef) -> (r: Vec<String>)
    requires
        forall|k: int|
            0 <= k < family.languages@.len() ==> (#[trigger] family.languages@[k]).0
                < registry.langs().len(),
    ensures
        text::views(r@) == about_family(*family, registry.langs()).members,
{
    let ghost all = member_names(*family, registry.langs());
    let mut names: Vec<String> = Vec::new();
    let mut i: usize = 0;
    assert(text::views(names@) =~= all.take(0));
    while i < family.languages.len()
        invariant
            i <= family.languages.len(),
            all == member_names(*family, registry.langs()),
            forall|k: int|
                0 <= k < family.languages@.len() ==> (#[trigger] family.languages@[k]).0
                    < registry.langs().len(),
            text::views(names@) == all.take(i as int),
        decreases family.languages.len() - i,
    {
        let ghost done = text::views(names@);
        let id = family.languages[i];
        names.push(registry.get(id).name.clone());
        assert(text::views(names@) =~= done.push(all[i as int]));
        assert(all.take(i + 1) =~= all.take(i as int).push(all[i as int]));
        i = i + 1;
    }
    assert(all.take(i as int) =~= all);
    let ghost rank = |name: String| order::text_rank(name@);
    let comes_before = |a: &String, b: &String| -> (c: bool)
        ensures
            c == order::before(order::text_rank(a@), order::text_rank(b@)),
    {
        order::text_before(a.as_str(), b.as_str())
    };
    let ghost unsorted = names@;
    let sorted = order::stable_sort(names, comes_before, Ghost(rank));
    proof {
        order::lemma_sorted_map(
            unsorted,
            |name: String| name@,
            rank,
            |name: Seq<char>| order::text_rank(name),
        );
        assert(text::views(unsorted) =~= unsorted.map_values(|name: String| name@));
        assert(text::views(sorted@) =~= sorted@.map_values(|name: String| name@));
    }
    sorted
}

fn sorted_families(registry: &Registry) -> (r: Vec<FamilyLine>)
    requires
        registry.wf(),
    ensures
        family_views(r@) == families_listed(registry.fams(), registry.langs()),
{
    proof {
        registry.lemma_members_known();
    }
    let families = registry.families();
    let ghost all = families@.map_values(|f: FamilyDef| about_family(f, registry.langs()));
    let mut lines: Vec<FamilyLine> = Vec::new();
    let mut i: usize = 0;
    assert(family_views(lines@) =~= all.take(0));
    while i < families.len()
        invariant
            i <= families.len(),
            families@ == registry.fams(),
            lang::members_known(registry.langs(), registry.fams()),
            all == families@.map_values(|f: FamilyDef| about_family(f, registry.langs())),
            family_views(lines@) == all.take(i as int),
        decreases families.len() - i,
    {
        let ghost done = family_views(lines@);
        let family = &families[i];
        assert forall|k: int| 0 <= k < family.languages@.len() implies (
        #[trigger] family.languages@[k]).0 < registry.langs().len() by {
            assert(registry.fams()[i as int].languages@[k].0 < registry.langs().len());
        }
        let line = FamilyLine {
            name: family.name.clone(),
            members: sorted_members(registry, family),
        };
        assert(line@ == all[i as int]);
        lines.push(line);
        assert(family_views(lines@) =~= done.push(line@));
        assert(all.take(i + 1) =~= all.take(i as int).push(all[i as int]));
        i = i + 1;
    }
    assert(all.take(i as int) =~= all);
    let ghost rank = |line: FamilyLine| family_rank(line@);
    let comes_before = |a: &FamilyLine, b: &FamilyLine| -> (c: bool)
        ensures
            c == order::before(family_rank(a@), family_rank(b@)),
    {
        order::ranks_before(&family_rank_of(a), &family_rank_of(b))
    };
    let ghost unsorted = lines@;
    let sorted = order::stable_sort(lines, comes_before, Ghost(rank));
    proof {
        order::lemma_sorted_map(
            unsorted,
            |line: FamilyLine| line@,
            rank,
            |line: FamilyModel| family_rank(line),
        );
    }
    sorted
}

/// Lists every family with the languages in it.
pub fn list_families(registry: &Registry) -> (r: String)
    requires
        registry.wf(),
    ensures
        r@ == family_listing(registry.fams(), registry.langs()),
{
    let lines = sorted_families(registry);
    let ghost all = family_views(lines@);
    let ghost names = family_names(all);
    let mut width: usize = 0;
    let mut i: usize = 0;
    assert(longest(names.take(0)) == 0);
    while i < lines.len()
        invariant
            i <= lines.len(),
            all == family_views(lines@),
            names == family_names(all),
            width == longest(names.take(i as int)),
        decreases lines.len() - i,
    {
        assert(names.take(i + 1).drop_last() =~= names.take(i as int));
        assert(names.take(i + 1).last() == lines@[i as int].name@);
        let own = lines[i].name.as_str().as_bytes().len();
        if own > width {
            width = own;
        }
        i = i + 1;
    }
    assert(names.take(i as int) =~= names);
    let mut out = fill("FAMILY", width);
    out.append("  LANGUAGES\n");
    let ghost head = out@;
    let mut k: usize = 0;
    assert(head + family_texts(all.take(0), width as int) =~= head);
    while k < lines.len()
        invariant
            k <= lines.len(),
            all == family_views(lines@),
            out@ == head + family_texts(all.take(k as int), width as int),
        decreases lines.len() - k,
    {
        let ghost done = out@;
        let line = &lines[k];
        assert(all.take(k + 1).drop_last() =~= all.take(k as int));
        assert(all.take(k + 1).last() == line@);
        out.append(fill(line.name.as_str(), width).as_str());
        out.append("  ");
        out.append(comma_join(&line.members).as_str());
        out.append("\n");
        assert(out@ =~= done + family_text(line@, width as int));
        k = k + 1;
        assert(out@ =~= head + family_texts(all.take(k as int), width as int));
    }
    assert(all.take(k as int) =~= all);
    out
}

/// Every language appears in the listing once.
pub proof fn law_every_language_is_listed(languages: Seq<LanguageDef>)
    ensures
        languages_listed(languages).to_multiset() == languages.map_values(
            |l: LanguageDef| about(l),
        ).to_multiset(),
{
    order::law_sort_keeps_everything(
        languages.map_values(|l: LanguageDef| about(l)),
        |line: LanguageModel| language_rank(line),
    );
}

/// Every family appears in the listing once.
pub proof fn law_every_family_is_listed(families: Seq<FamilyDef>, languages: Seq<LanguageDef>)
    ensures
        families_listed(families, languages).to_multiset() == families.map_values(
            |f: FamilyDef| about_family(f, languages),
        ).to_multiset(),
{
    order::law_sort_keeps_everything(
        families.map_values(|f: FamilyDef| about_family(f, languages)),
        |line: FamilyModel| family_rank(line),
    );
}

/// Texts are written in their order, with a comma and a space between two of
/// them and none at either end.
pub proof fn law_commas_stand_between(texts: Seq<Seq<char>>, text: Seq<char>)
    ensures
        comma_joined(Seq::empty()).len() == 0,
        comma_joined(seq![text]) == text,
        texts.len() > 0 ==> comma_joined(texts.push(text)) == comma_joined(texts) + ", "@ + text,
{
    assert(texts.push(text).drop_last() =~= texts);
}

/// A cell is pushed to the left: it stands in front, and spaces behind it fill
/// its column where it does not.
pub proof fn law_cells_are_pushed_to_the_left(cell: Seq<char>, width: int)
    ensures
        cell.len() >= width ==> flush_left(cell, width) == cell,
        cell.len() < width ==> {
            &&& flush_left(cell, width).len() == width
            &&& flush_left(cell, width).take(cell.len() as int) == cell
            &&& forall|i: int|
                cell.len() <= i < width ==> #[trigger] flush_left(cell, width)[i] == ' '
        },
{
    if cell.len() >= width {
        assert(flush_left(cell, width) =~= cell);
    } else {
        assert(flush_left(cell, width).take(cell.len() as int) =~= cell);
    }
}

/// The first column is as wide as the longest name has bytes: no name has more,
/// and one has as many.
pub proof fn law_the_longest_name_sets_the_width(texts: Seq<Seq<char>>)
    ensures
        forall|k: int|
            0 <= k < texts.len() ==> vstd::utf8::encode_utf8(#[trigger] texts[k]).len() <= longest(
                texts,
            ),
        texts.len() > 0 ==> exists|k: int|
            0 <= k < texts.len() && vstd::utf8::encode_utf8(#[trigger] texts[k]).len() == longest(
                texts,
            ),
        texts.len() == 0 ==> longest(texts) == 0,
    decreases texts.len(),
{
    if texts.len() > 0 {
        let rest = texts.drop_last();
        let n = texts.len() - 1;
        law_the_longest_name_sets_the_width(rest);
        assert forall|k: int| 0 <= k < texts.len() implies vstd::utf8::encode_utf8(
            #[trigger] texts[k],
        ).len() <= longest(texts) by {
            if k < n {
                assert(rest[k] == texts[k]);
            }
        }
        if longest(texts) == vstd::utf8::encode_utf8(texts[n]).len() {
            assert(vstd::utf8::encode_utf8(texts[n]).len() == longest(texts));
        } else {
            let k = choose|k: int|
                0 <= k < rest.len() && vstd::utf8::encode_utf8(#[trigger] rest[k]).len() == longest(
                    rest,
                );
            assert(vstd::utf8::encode_utf8(texts[k]).len() == longest(texts));
        }
    }
}

/// A language is listed by its name with its extensions. It tells tests where it
/// has a marker for test blocks, or a glob for test paths.
pub proof fn law_languages_are_listed_with_what_they_tell(language: LanguageDef)
    ensures
        ({
            let line = about(language);
            &&& line.name == language.name@
            &&& line.extensions == comma_joined(text::views(language.extensions@))
            &&& line.detects <==> language.test_blocks@.len() > 0 || globs::set_globs(
                language.test_paths,
            ).len() > 0
        }),
{
}

/// Languages come by name; of the same name, by their extensions; and of the
/// same extensions, the one that tells no tests first.
pub proof fn law_languages_come_by_name(languages: Seq<LanguageDef>, i: int, j: int)
    requires
        0 <= i < j < languages_listed(languages).len(),
    ensures
        ({
            let a = languages_listed(languages)[i];
            let b = languages_listed(languages)[j];
            &&& !order::text_precedes(b.name, a.name)
            &&& a.name == b.name ==> !order::text_precedes(b.extensions, a.extensions)
            &&& a.name == b.name && a.extensions == b.extensions && a.detects ==> b.detects
        }),
{
    let lines = languages.map_values(|l: LanguageDef| about(l));
    let rank = |line: LanguageModel| language_rank(line);
    order::law_sort_orders(lines, rank);
    let a = languages_listed(languages)[i];
    let b = languages_listed(languages)[j];
    assert(!order::before(rank(b), rank(a)));
    let x = seq![
        if b.detects {
            1int
        } else {
            0int
        },
    ];
    let y = seq![
        if a.detects {
            1int
        } else {
            0int
        },
    ];
    let m = order::closed_rank(b.extensions) + x;
    let n = order::closed_rank(a.extensions) + y;
    assert(language_rank(b) =~= order::closed_rank(b.name) + m);
    assert(language_rank(a) =~= order::closed_rank(a.name) + n);
    order::law_a_text_in_front_decides_first(b.name, a.name, m, n);
    order::law_a_text_in_front_decides_first(b.extensions, a.extensions, x, y);
    assert(x[0] < y[0] ==> order::before(x, y));
}

/// A line of the listing has the name, whether tests are told, and the
/// extensions, in columns with two spaces between them.
pub proof fn law_language_lines_have_three_columns(
    lines: Seq<LanguageModel>,
    line: LanguageModel,
    width: int,
)
    ensures
        language_texts(Seq::empty(), width).len() == 0,
        line.detects ==> language_texts(lines.push(line), width) == language_texts(lines, width) + (
        flush_left(line.name, width) + "  "@ + flush_left("yes"@, 5) + "  "@ + line.extensions
            + "\n"@),
        !line.detects ==> language_texts(lines.push(line), width) == language_texts(lines, width)
            + (flush_left(line.name, width) + "  "@ + flush_left("-"@, 5) + "  "@ + line.extensions
            + "\n"@),
{
    assert(lines.push(line).drop_last() =~= lines);
}

/// A family is listed with the names of its languages, all of them and in the
/// order of their bytes.
pub proof fn law_families_list_their_languages_by_name(
    family: FamilyDef,
    languages: Seq<LanguageDef>,
    i: int,
    j: int,
)
    requires
        0 <= i < j < family.languages@.len(),
    ensures
        ({
            let line = about_family(family, languages);
            &&& line.name == family.name@
            &&& line.members.len() == family.languages@.len()
            &&& line.members.to_multiset() == family.languages@.map_values(
                |id: lang::LanguageId| languages[id.0 as int].name@,
            ).to_multiset()
            &&& !order::text_precedes(line.members[j], line.members[i])
        }),
{
    let names = member_names(family, languages);
    let rank = |name: Seq<char>| order::text_rank(name);
    let line = about_family(family, languages);
    order::law_sort_orders(names, rank);
    order::law_sort_keeps_everything(names, rank);
    assert(!order::before(rank(line.members[j]), rank(line.members[i])));
    order::law_texts_are_ordered_by_their_bytes(line.members[j], line.members[i]);
}

/// Families come by name.
pub proof fn law_families_come_by_name(
    families: Seq<FamilyDef>,
    languages: Seq<LanguageDef>,
    i: int,
    j: int,
)
    requires
        0 <= i < j < families_listed(families, languages).len(),
    ensures
        !order::text_precedes(
            families_listed(families, languages)[j].name,
            families_listed(families, languages)[i].name,
        ),
{
    let lines = families.map_values(|f: FamilyDef| about_family(f, languages));
    let rank = |line: FamilyModel| family_rank(line);
    order::law_sort_orders(lines, rank);
    let a = families_listed(families, languages)[i];
    let b = families_listed(families, languages)[j];
    assert(!order::before(rank(b), rank(a)));
    order::law_a_text_in_front_decides_first(
        b.name,
        a.name,
        texts_rank(b.members),
        texts_rank(a.members),
    );
}

/// A line of the listing has the name of the family and its languages.
pub proof fn law_family_lines_have_two_columns(
    lines: Seq<FamilyModel>,
    line: FamilyModel,
    width: int,
)
    ensures
        family_texts(Seq::empty(), width).len() == 0,
        family_texts(lines.push(line), width) == family_texts(lines, width) + (flush_left(
            line.name,
            width,
        ) + "  "@ + comma_joined(line.members) + "\n"@),
{
    assert(lines.push(line).drop_last() =~= lines);
}

/// A listing of languages has headings above its columns, which are as wide as
/// the longest name has bytes.
pub proof fn law_listings_have_headings(
    languages: Seq<LanguageDef>,
    families: Seq<FamilyDef>,
)
    ensures
        ({
            let lines = languages_listed(languages);
            let w = longest(lines.map_values(|line: LanguageModel| line.name));
            language_listing(languages) == flush_left("LANGUAGE"@, w)
                + "  TESTS  EXTENSIONS\n"@ + language_texts(lines, w)
        }),
        ({
            let lines = families_listed(families, languages);
            let w = longest(lines.map_values(|line: FamilyModel| line.name));
            family_listing(families, languages) == flush_left("FAMILY"@, w) + "  LANGUAGES\n"@
                + family_texts(lines, w)
        }),
{
}

} // verus!
