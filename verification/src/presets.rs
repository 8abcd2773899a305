//! Presets: named request templates, of the repository and of the user. Those
//! of the repository go before.

use crate::document;
use crate::error;
use crate::error::UsageError;
use crate::json::{Json, JsonView};
use crate::params;
use crate::request;
use crate::request::{Template, TemplateView};
use crate::text;
use vstd::prelude::*;

verus! {

/// A preset that was found.
#[derive(Debug)]
pub struct Found {
    pub name: String,
    pub path: String,
    pub description: Option<String>,
}

/// The line that lists a preset.
pub open spec fn listing(name: Seq<char>, path: Seq<char>, description: Option<Seq<char>>) -> Seq<
    char,
> {
    match description {
        Some(d) => name + "  "@ + d + "  ["@ + path + "]"@,
        None => name + "  ["@ + path + "]"@,
    }
}

impl Found {
    /// The line that lists the preset.
    pub fn line(&self) -> (r: String)
        ensures
            r@ == listing(self.name@, self.path@, request::text_view(self.description)),
    {
        let mut line = self.name.clone();
        if let Some(d) = &self.description {
            line.append("  ");
            line.append(d.as_str());
        }
        line.append("  [");
        line.append(self.path.as_str());
        line.append("]");
        line
    }
}

/// The file of a preset.
pub fn file_name(name: &str) -> (r: String)
    ensures
        r@ == name@ + ".json"@,
{
    let mut file = name.to_owned();
    file.append(".json");
    file
}

/// Whether one of the files of a directory is that of a preset. A preset has a
/// name.
pub open spec fn holds_preset(files: Seq<Seq<char>>, name: Seq<char>) -> bool {
    name.len() > 0 && files.contains(name + ".json"@)
}

/// Presets of a directory stand in the order of their files.
pub open spec fn file_precedes(a: Seq<char>, b: Seq<char>) -> bool {
    text::precedes(a + ".json"@, b + ".json"@)
}

/// Names in ascending order of their files, each once.
pub open spec fn ascend(names: Seq<Seq<char>>) -> bool {
    forall|i: int, j: int| 0 <= i < j < names.len() ==> #[trigger] file_precedes(names[i], names[j])
}

/// Whether names are those of the presets of a directory, in ascending order
/// of their files.
pub open spec fn are_candidates(files: Seq<Seq<char>>, names: Seq<Seq<char>>) -> bool {
    &&& forall|name: Seq<char>|
        #[trigger] names.contains(name) <==> holds_preset(files, name)
    &&& ascend(names)
}

/// The name of the preset that a file is of, if it is of one.
fn preset_of(file: &str) -> (r: Option<String>)
    ensures
        match r {
            Some(name) => name@.len() > 0 && file@ == name@ + ".json"@,
            None => forall|name: Seq<char>| name.len() > 0 ==> file@ != #[trigger] (name + ".json"@),
        },
{
    let chars = text::chars_of(file);
    let ghost ending = ".json"@;
    proof {
        reveal_strlit(".json");
    }
    if chars.len() <= 5 {
        return None;
    }
    let n = chars.len() - 5;
    if chars[n] == '.' && chars[n + 1] == 'j' && chars[n + 2] == 's' && chars[n + 3] == 'o'
        && chars[n + 4] == 'n' {
        let name = text::text_of(&chars, 0, n);
        assert(file@ =~= name@ + ending);
        Some(name)
    } else {
        assert forall|name: Seq<char>| name.len() > 0 implies file@ != #[trigger] (name
            + ".json"@) by {
            let whole = name + ending;
            if file@ == whole {
                assert(name.len() == n);
                assert(whole[n as int] == ending[0] && whole[n + 1] == ending[1] && whole[n + 2]
                    == ending[2] && whole[n + 3] == ending[3] && whole[n + 4] == ending[4]);
            }
        }
        None
    }
}

/// Puts a name in its place among others, unless it is there.
fn put_in_order(names: &mut Vec<String>, name: String)
    requires
        ascend(text::texts(old(names)@)),
    ensures
        ascend(text::texts(final(names)@)),
        forall|other: Seq<char>|
            #[trigger] text::texts(final(names)@).contains(other) <==> text::texts(
                old(names)@,
            ).contains(other) || other == name@,
{
    let ghost before = text::texts(names@);
    let file = file_name(name.as_str());
    let mut k: usize = 0;
    while k < names.len()
        invariant
            k <= names@.len(),
            names@ == old(names)@,
            before == text::texts(names@),
            file@ == name@ + ".json"@,
            ascend(before),
            forall|j: int| 0 <= j < k ==> file_precedes(#[trigger] before[j], name@),
        ensures
            k < before.len() ==> file_precedes(name@, before[k as int]),
        decreases names@.len() - k,
    {
        assert(before[k as int] == names@[k as int]@);
        if text::same(names[k].as_str(), name.as_str()) {
            assert(before.contains(name@));
            return;
        }
        let other = file_name(names[k].as_str());
        if text::comes_before(file.as_str(), other.as_str()) {
            break;
        }
        proof {
            text::lemma_precedes_total(other@, file@);
            if other@ == file@ {
                assert(other@.take(before[k as int].len() as int) =~= before[k as int]);
                assert(file@.take(name@.len() as int) =~= name@);
            }
        }
        k += 1;
    }
    let ghost said = name@;
    names.insert(k, name);
    let ghost after = text::texts(names@);
    proof {
        assert(after =~= before.insert(k as int, said));
        assert forall|i: int, j: int| 0 <= i < j < after.len() implies #[trigger] file_precedes(
            after[i],
            after[j],
        ) by {
            let at = k as int;
            if i == at {
                assert(file_precedes(said, before[at]));
                if j - 1 > at {
                    assert(file_precedes(before[at], before[j - 1]));
                    text::lemma_precedes_transitive(
                        said + ".json"@,
                        before[at] + ".json"@,
                        before[j - 1] + ".json"@,
                    );
                }
            } else if j == at {
                assert(file_precedes(before[i], said));
            } else {
                let a = if i < at {
                    i
                } else {
                    i - 1
                };
                let b = if j < at {
                    j
                } else {
                    j - 1
                };
                assert(file_precedes(before[a], before[b]));
            }
        }
        assert forall|other: Seq<char>| #[trigger] after.contains(other) <==> before.contains(other)
            || other == said by {
            if before.contains(other) {
                let at = choose|at: int| 0 <= at < before.len() && before[at] == other;
                if at < k {
                    assert(after[at] == other);
                } else {
                    assert(after[at + 1] == other);
                }
            }
            if other == said {
                assert(after[k as int] == other);
            }
            if after.contains(other) {
                let at = choose|at: int| 0 <= at < after.len() && after[at] == other;
                if at < k {
                    assert(before[at] == other);
                } else if at > k {
                    assert(before[at - 1] == other);
                }
            }
        }
    }
}

/// The presets of a directory, of the names of its files: of those that end in
/// `.json`, in ascending order.
pub fn candidates(files: &Vec<String>) -> (r: Vec<String>)
    ensures
        are_candidates(text::texts(files@), text::texts(r@)),
{
    let ghost all = text::texts(files@);
    let mut names: Vec<String> = Vec::new();
    let mut k: usize = 0;
    while k < files.len()
        invariant
            k <= files@.len(),
            all == text::texts(files@),
            ascend(text::texts(names@)),
            forall|name: Seq<char>|
                #[trigger] text::texts(names@).contains(name) <==> holds_preset(
                    all.take(k as int),
                    name,
                ),
        decreases files@.len() - k,
    {
        let ghost before = all.take(k as int);
        let ghost after = all.take(k + 1);
        let ghost said = text::texts(names@);
        assert(all[k as int] == files@[k as int]@);
        assert(after =~= before.push(all[k as int]));
        let preset = preset_of(files[k].as_str());
        assert forall|name: Seq<char>| holds_preset(after, name) <==> holds_preset(before, name) || (
        name.len() > 0 && all[k as int] == #[trigger] (name + ".json"@)) by {
            let file = name + ".json"@;
            if before.contains(file) {
                let at = choose|at: int| 0 <= at < before.len() && before[at] == file;
                assert(after[at] == file);
            }
            if all[k as int] == file {
                assert(after[k as int] == file);
            }
            if after.contains(file) {
                let at = choose|at: int| 0 <= at < after.len() && after[at] == file;
                if at < k {
                    assert(before[at] == file);
                }
            }
        }
        match preset {
            Some(name) => {
                let ghost new = name@;
                put_in_order(&mut names, name);
                assert forall|other: Seq<char>| #[trigger] text::texts(names@).contains(other)
                    <==> holds_preset(after, other) by {
                    assert(said.contains(other) <==> holds_preset(before, other));
                    let file = other + ".json"@;
                    if all[k as int] == file {
                        assert(file.take(other.len() as int) =~= other);
                        assert((new + ".json"@).take(new.len() as int) =~= new);
                    }
                }
            },
            None => {
                assert forall|other: Seq<char>| #[trigger] text::texts(names@).contains(other)
                    <==> holds_preset(after, other) by {
                    let file = other + ".json"@;
                }
            },
        }
        k += 1;
    }
    assert(all.take(all.len() as int) =~= all);
    names
}

/// Whether a directory is the first that holds a preset.
pub open spec fn found_first(dirs: Seq<Seq<Seq<char>>>, d: int, name: Seq<char>) -> bool {
    holds_preset(dirs[d], name) && forall|e: int|
        0 <= e < d ==> !holds_preset(#[trigger] dirs[e], name)
}

/// Presets of earlier directories go before those of later ones, and within a
/// directory they stand in the order of their files.
pub open spec fn goes_before(a: (usize, Seq<char>), b: (usize, Seq<char>)) -> bool {
    a.0 < b.0 || (a.0 == b.0 && file_precedes(a.1, b.1))
}

/// Whether directories and names list the presets of the first `n`
/// directories: each name where it is found first, and all in order.
pub open spec fn is_listing(
    dirs: Seq<Seq<Seq<char>>>,
    n: int,
    listed: Seq<(usize, Seq<char>)>,
) -> bool {
    &&& forall|k: int|
        0 <= k < listed.len() ==> (#[trigger] listed[k]).0 < n && found_first(
            dirs,
            listed[k].0 as int,
            listed[k].1,
        )
    &&& forall|d: int, name: Seq<char>|
        0 <= d < n && #[trigger] found_first(dirs, d, name) ==> listed.contains(
            (d as usize, name),
        )
    &&& forall|i: int, j: int|
        0 <= i < j < listed.len() ==> #[trigger] goes_before(listed[i], listed[j])
}

/// What the files of directories are called.
pub open spec fn file_views(dirs: Seq<Vec<String>>) -> Seq<Seq<Seq<char>>> {
    dirs.map_values(|files: Vec<String>| text::texts(files@))
}

/// What listed presets say: their directories and names.
pub open spec fn listed_views(listed: Seq<(usize, String)>) -> Seq<(usize, Seq<char>)> {
    listed.map_values(|l: (usize, String)| (l.0, l.1@))
}

fn has_preset(files: &Vec<String>, name: &str) -> (r: bool)
    ensures
        r == holds_preset(text::texts(files@), name@),
{
    let ghost views = text::texts(files@);
    if name.is_empty() {
        return false;
    }
    let file = file_name(name);
    let mut k: usize = 0;
    while k < files.len()
        invariant
            k <= files@.len(),
            views == text::texts(files@),
            file@ == name@ + ".json"@,
            name@.len() > 0,
            forall|j: int| 0 <= j < k ==> #[trigger] views[j] != file@,
        decreases files@.len() - k,
    {
        assert(views[k as int] == files@[k as int]@);
        if text::same(files[k].as_str(), file.as_str()) {
            return true;
        }
        k += 1;
    }
    false
}

fn is_hidden(dirs: &Vec<Vec<String>>, d: usize, name: &str) -> (r: bool)
    requires
        d <= dirs@.len(),
    ensures
        r == exists|e: int| 0 <= e < d && holds_preset(#[trigger] file_views(dirs@)[e], name@),
{
    let ghost views = file_views(dirs@);
    let mut e: usize = 0;
    while e < d
        invariant
            e <= d <= dirs@.len(),
            views == file_views(dirs@),
            forall|k: int| 0 <= k < e ==> !holds_preset(#[trigger] views[k], name@),
        decreases d - e,
    {
        assert(views[e as int] == text::texts(dirs@[e as int]@));
        if has_preset(&dirs[e], name) {
            return true;
        }
        e += 1;
    }
    false
}

/// Lists presets, of the names of the files of their directories: tells for
/// each preset its directory and its name. A preset that an earlier directory
/// holds too is that of the earlier one.
pub fn list(dirs: &Vec<Vec<String>>) -> (r: Vec<(usize, String)>)
    ensures
        is_listing(file_views(dirs@), dirs@.len() as int, listed_views(r@)),
{
    let ghost all = file_views(dirs@);
    let mut r: Vec<(usize, String)> = Vec::new();
    let mut d: usize = 0;
    while d < dirs.len()
        invariant
            d <= dirs@.len(),
            all == file_views(dirs@),
            is_listing(all, d as int, listed_views(r@)),
        decreases dirs@.len() - d,
    {
        let names = candidates(&dirs[d]);
        let ghost views = text::texts(names@);
        assert(all[d as int] == text::texts(dirs@[d as int]@));
        let mut k: usize = 0;
        while k < names.len()
            invariant
                d < dirs@.len(),
                k <= names@.len(),
                all == file_views(dirs@),
                views == text::texts(names@),
                are_candidates(all[d as int], views),
                forall|m: int|
                    0 <= m < r@.len() ==> (#[trigger] listed_views(r@)[m]).0 <= d && found_first(
                        all,
                        listed_views(r@)[m].0 as int,
                        listed_views(r@)[m].1,
                    ),
                forall|m: int, j: int|
                    0 <= m < r@.len() && k <= j < views.len() && listed_views(r@)[m].0 == d
                        ==> #[trigger] file_precedes(listed_views(r@)[m].1, views[j]),
                forall|e: int, name: Seq<char>|
                    0 <= e < d && #[trigger] found_first(all, e, name) ==> listed_views(
                        r@,
                    ).contains((e as usize, name)),
                forall|j: int|
                    0 <= j < k && found_first(all, d as int, #[trigger] views[j]) ==> listed_views(
                        r@,
                    ).contains((d, views[j])),
                forall|i: int, j: int|
                    0 <= i < j < r@.len() ==> #[trigger] goes_before(
                        listed_views(r@)[i],
                        listed_views(r@)[j],
                    ),
            decreases names@.len() - k,
        {
            let ghost before = listed_views(r@);
            assert(views[k as int] == names@[k as int]@);
            assert(views.contains(views[k as int]));
            if !is_hidden(dirs, d, names[k].as_str()) {
                let ghost new = (d, views[k as int]);
                r.push((d, names[k].clone()));
                assert(listed_views(r@) =~= before.push(new));
                proof {
                    lemma_listed(before, new);
                }
            }
            k += 1;
        }
        proof {
            assert forall|name: Seq<char>| #[trigger] found_first(
                all,
                d as int,
                name,
            ) implies listed_views(r@).contains((d, name)) by {
                assert(views.contains(name));
                let j = choose|j: int| 0 <= j < views.len() && views[j] == name;
                assert(found_first(all, d as int, views[j]));
            }
        }
        d += 1;
    }
    r
}

/// What was listed is listed after one more.
proof fn lemma_listed(before: Seq<(usize, Seq<char>)>, new: (usize, Seq<char>))
    ensures
        before.push(new).contains(new),
        forall|item: (usize, Seq<char>)|
            before.contains(item) ==> #[trigger] before.push(new).contains(item),
{
    let after = before.push(new);
    assert(after[before.len() as int] == new);
    assert forall|item: (usize, Seq<char>)| before.contains(item) implies #[trigger] after.contains(
        item,
    ) by {
        let at = choose|at: int| 0 <= at < before.len() && before[at] == item;
        assert(after[at] == item);
    }
}

/// The description that a preset file gives, where it is a template.
pub open spec fn description_of(text: Seq<char>, label: Seq<char>) -> Option<Seq<char>> {
    match request::template_of(text, label) {
        Ok(template) => template.description,
        Err(_) => None,
    }
}

/// The description that a preset file gives, where it is a template.
pub fn read_description(text: &str, label: &str) -> (r: Option<String>)
    ensures
        request::text_view(r) == description_of(text@, label@),
{
    match request::parse_template(text, label) {
        Ok(template) => template.description,
        Err(_) => None,
    }
}

/// A preset that was found, with what its file gives as its description. It is
/// found all the same where the file does not read, or is no template.
pub fn describe(name: String, path: String, text: Option<&str>) -> (r: Found)
    ensures
        r.name@ == name@,
        r.path@ == path@,
        request::text_view(r.description) == (match text {
            Some(text) => description_of(text@, path@),
            None => None,
        }),
{
    let description = match text {
        Some(text) => read_description(text, path.as_str()),
        None => None,
    };
    Found { name, path, description }
}

/// A directory of presets, and whether it holds the file that is looked for.
#[derive(Debug)]
pub struct Place {
    pub dir: String,
    pub has_file: bool,
}

/// What the directories are called.
pub open spec fn dir_views(places: Seq<Place>) -> Seq<Seq<char>> {
    places.map_values(|p: Place| p.dir@)
}

/// What to tell where no directory holds a preset.
pub open spec fn not_found(name: Seq<char>, dirs: Seq<Seq<char>>) -> Seq<char> {
    "preset '"@ + name + "' not found; searched: "@ + text::joined(dirs, ", "@)
        + " (list with jev presets list)"@
}

/// Chooses the directory of a preset: the first that holds its file.
pub fn resolve(name: &str, places: &Vec<Place>) -> (r: Result<usize, UsageError>)
    ensures
        match r {
            Ok(i) => {
                &&& i < places@.len()
                &&& places@[i as int].has_file
                &&& forall|k: int| 0 <= k < i ==> !(#[trigger] places@[k]).has_file
            },
            Err(e) => {
                &&& forall|k: int| 0 <= k < places@.len() ==> !(#[trigger] places@[k]).has_file
                &&& e@ == not_found(name@, dir_views(places@))
            },
        },
{
    let mut dirs: Vec<String> = Vec::new();
    let mut i: usize = 0;
    while i < places.len()
        invariant
            i <= places@.len(),
            dirs@.len() == i,
            forall|k: int| 0 <= k < i ==> !(#[trigger] places@[k]).has_file,
            forall|k: int| 0 <= k < i ==> (#[trigger] dirs@[k])@ == places@[k].dir@,
        decreases places@.len() - i,
    {
        if places[i].has_file {
            return Ok(i);
        }
        dirs.push(places[i].dir.clone());
        i += 1;
    }
    assert(text::texts(dirs@) =~= dir_views(places@));
    let mut message = "preset '".to_owned();
    message.append(name);
    message.append("' not found; searched: ");
    message.append(text::join(&dirs, ", ").as_str());
    message.append(" (list with jev presets list)");
    Err(UsageError::new(message))
}

/// What a file holds, or why it does not read.
pub open spec fn read_view(read: Result<String, String>) -> Result<Seq<char>, Seq<char>> {
    match read {
        Ok(text) => Ok(text@),
        Err(e) => Err(e@),
    }
}

/// The template of a preset file.
pub open spec fn loaded(read: Result<Seq<char>, Seq<char>>, path: Seq<char>) -> Result<
    TemplateView,
    Seq<char>,
> {
    match read {
        Err(e) => Err(error::in_context("failed to read preset "@ + path, e)),
        Ok(text) => request::template_of(text, "preset "@ + path),
    }
}

/// Reads the template of a preset file.
pub fn load(read: Result<String, String>, path: &str) -> (r: Result<Template, UsageError>)
    ensures
        match r {
            Ok(template) => loaded(read_view(read), path@) == Ok::<TemplateView, Seq<char>>(
                template@,
            ),
            Err(e) => loaded(read_view(read), path@) == Err::<TemplateView, Seq<char>>(e@),
        },
{
    match read {
        Err(e) => {
            let mut context = "failed to read preset ".to_owned();
            context.append(path);
            Err(UsageError::caused(context, e.as_str()))
        },
        Ok(text) => {
            let mut label = "preset ".to_owned();
            label.append(path);
            request::parse_template(text.as_str(), label.as_str())
        },
    }
}

/// A preset as it is shown: its document, indented.
pub open spec fn shown(read: Result<JsonView, Seq<char>>, path: Seq<char>) -> Result<
    Seq<char>,
    Seq<char>,
> {
    match read {
        Ok(view) => Ok(document::pretty_text(view)),
        Err(e) => Err(error::in_context("preset "@ + path + " is not valid JSON"@, e)),
    }
}

/// A preset as it is shown, once it is read.
pub fn show_document(read: Result<Json, String>, path: &str) -> (r: Result<String, UsageError>)
    ensures
        match (read, r) {
            (Ok(json), Ok(text)) => text@ == document::pretty_text(json@),
            (Err(e), Err(told)) => told@ == error::in_context(
                "preset "@ + path@ + " is not valid JSON"@,
                e@,
            ),
            _ => false,
        },
{
    match read {
        Ok(json) => Ok(document::write_json_pretty(&json)),
        Err(e) => {
            let mut context = "preset ".to_owned();
            context.append(path);
            context.append(" is not valid JSON");
            Err(UsageError::caused(context, e.as_str()))
        },
    }
}

/// A preset file as it is shown.
pub fn show(text: &str, path: &str) -> (r: Result<String, UsageError>)
    ensures
        match r {
            Ok(pretty) => shown(document::read_text(text@), path@) == Ok::<Seq<char>, Seq<char>>(
                pretty@,
            ),
            Err(e) => shown(document::read_text(text@), path@) == Err::<Seq<char>, Seq<char>>(e@),
        },
{
    show_document(document::read_json(text), path)
}

/// How many placeholders of a list have a name.
pub open spec fn named_needs(needed: Seq<params::Need>) -> nat
    decreases needed.len(),
{
    if needed.len() == 0 {
        0
    } else {
        named_needs(needed.drop_last()) + if needed.last().0.len() > 0 {
            1nat
        } else {
            0nat
        }
    }
}

/// How many placeholders of a document have a name.
pub fn count_placeholders(body: &Json) -> (r: usize)
    ensures
        r == named_needs(params::needs(body@, Seq::empty())),
{
    let found = params::find_placeholders(body);
    let ghost needed = params::need_views(found@);
    let mut count: usize = 0;
    let mut i: usize = 0;
    while i < found.len()
        invariant
            i <= found@.len(),
            needed == params::need_views(found@),
            count == named_needs(needed.take(i as int)),
            count <= i,
        decreases found@.len() - i,
    {
        assert(needed.take(i + 1).drop_last() =~= needed.take(i as int));
        assert(needed[i as int].0 == found@[i as int].0@);
        if !found[i].0.as_str().is_empty() {
            assert(found@[i as int].0@.len() > 0);
            count += 1;
        } else {
            assert(found@[i as int].0@.len() == 0);
        }
        i += 1;
    }
    assert(needed.take(needed.len() as int) =~= needed);
    count
}

/// A file to validate: its name, its path, and what it holds.
#[derive(Debug)]
pub struct Target {
    pub name: String,
    pub path: String,
    pub read: Result<String, String>,
}

/// What a target says.
#[verifier::ext_equal]
pub struct TargetView {
    pub name: Seq<char>,
    pub path: Seq<char>,
    pub read: Result<Seq<char>, Seq<char>>,
}

impl View for Target {
    type V = TargetView;

    open spec fn view(&self) -> TargetView {
        TargetView { name: self.name@, path: self.path@, read: read_view(self.read) }
    }
}

/// What is told of a target: that it is in order, with a note where its
/// placeholders are not documented, or its error.
pub open spec fn verdict(
    name: Seq<char>,
    path: Seq<char>,
    template: Result<TemplateView, Seq<char>>,
) -> Seq<Seq<char>> {
    match template {
        Err(e) => seq!["error "@ + name + " ("@ + path + "): "@ + e],
        Ok(template) => {
            let line = "ok "@ + name + " ("@ + path + ")"@;
            let n = named_needs(params::needs(template.body, Seq::empty()));
            if template.params.len() == 0 && n > 0 {
                seq![
                    line,
                    "  note: "@ + text::decimal(n)
                        + " placeholder(s) but no 'params' documentation"@,
                ]
            } else {
                seq![line]
            }
        },
    }
}

/// Tells of a target once its template is loaded.
pub fn judge(name: &str, path: &str, template: Result<Template, UsageError>) -> (lines: Vec<String>)
    ensures
        text::texts(lines@) == verdict(
            name@,
            path@,
            match template {
                Ok(template) => Ok(template@),
                Err(e) => Err(e@),
            },
        ),
{
    let mut lines: Vec<String> = Vec::new();
    match template {
        Err(e) => {
            let mut line = "error ".to_owned();
            line.append(name);
            line.append(" (");
            line.append(path);
            line.append("): ");
            line.append(e.message.as_str());
            lines.push(line);
            assert(text::texts(lines@) =~= seq!["error "@ + name@ + " ("@ + path@ + "): "@ + e@]);
        },
        Ok(template) => {
            let mut line = "ok ".to_owned();
            line.append(name);
            line.append(" (");
            line.append(path);
            line.append(")");
            let ghost first = line@;
            lines.push(line);
            assert(text::texts(lines@) =~= seq![first]);
            if template.params.len() == 0 {
                let n = count_placeholders(&template.body);
                if n > 0 {
                    let mut note = "  note: ".to_owned();
                    note.append(text::decimal_text(n as u64).as_str());
                    note.append(" placeholder(s) but no 'params' documentation");
                    let ghost second = note@;
                    lines.push(note);
                    assert(text::texts(lines@) =~= seq![first, second]);
                }
            }
        },
    }
    lines
}

/// What is told of the first `n` targets.
pub open spec fn verdicts(targets: Seq<TargetView>, n: int) -> Seq<Seq<char>>
    decreases n,
{
    if n <= 0 {
        Seq::empty()
    } else {
        let t = targets[n - 1];
        verdicts(targets, n - 1) + verdict(t.name, t.path, loaded(t.read, t.path))
    }
}

/// How many of the first `n` targets are not in order.
pub open spec fn invalid_count(targets: Seq<TargetView>, n: int) -> nat
    decreases n,
{
    if n <= 0 {
        0
    } else {
        let t = targets[n - 1];
        invalid_count(targets, n - 1) + if loaded(t.read, t.path) is Err {
            1nat
        } else {
            0nat
        }
    }
}

/// What targets say.
pub open spec fn target_views(targets: Seq<Target>) -> Seq<TargetView> {
    targets.map_values(|t: Target| t@)
}

/// Validates targets: gives the lines to print, and the number of those that
/// are not in order.
pub fn validate(targets: Vec<Target>) -> (r: Result<(Vec<String>, usize), UsageError>)
    ensures
        match r {
            Ok((lines, invalid)) => {
                let views = target_views(targets@);
                &&& targets@.len() > 0
                &&& text::texts(lines@) == verdicts(views, views.len() as int)
                &&& invalid == invalid_count(views, views.len() as int)
            },
            Err(e) => targets@.len() == 0 && e@
                == "no presets found; create .jev/presets/NAME.json or ~/.config/jev/presets/NAME.json"@,
        },
{
    if targets.len() == 0 {
        return Err(
            UsageError::fixed(
                "no presets found; create .jev/presets/NAME.json or ~/.config/jev/presets/NAME.json",
            ),
        );
    }
    let ghost views = target_views(targets@);
    let n = targets.len();
    let mut all: Vec<String> = Vec::new();
    let mut invalid: usize = 0;
    assert(text::texts(all@) =~= verdicts(views, 0));
    for target in it: targets
        invariant
            views == target_views(it.seq()),
            it.seq().len() == n,
            text::texts(all@) == verdicts(views, it.index() as int),
            invalid == invalid_count(views, it.index() as int),
            invalid <= it.index(),
    {
        let ghost k = it.index() as int;
        assert(views[k] == target@);
        let ghost before = all@;
        let template = load(target.read, target.path.as_str());
        if template.is_err() {
            invalid += 1;
        }
        let mut lines = judge(target.name.as_str(), target.path.as_str(), template);
        let ghost said = lines@;
        all.append(&mut lines);
        assert(text::texts(all@) =~= text::texts(before) + text::texts(said));
    }
    Ok((all, invalid))
}

/// The exit code of a validation.
pub fn validation_code(invalid: usize) -> (r: u8)
    ensures
        r == (if invalid > 0 {
            1u8
        } else {
            0u8
        }),
{
    if invalid > 0 {
        1
    } else {
        0
    }
}

/// The first directory that holds a preset, of those from `d` on down.
proof fn lemma_first_holder(dirs: Seq<Seq<Seq<char>>>, d: int, name: Seq<char>) -> (first: int)
    requires
        0 <= d < dirs.len(),
        holds_preset(dirs[d], name),
    ensures
        0 <= first <= d,
        found_first(dirs, first, name),
    decreases d,
{
    if exists|e: int| 0 <= e < d && holds_preset(#[trigger] dirs[e], name) {
        let e = choose|e: int| 0 <= e < d && holds_preset(#[trigger] dirs[e], name);
        lemma_first_holder(dirs, e, name)
    } else {
        d
    }
}

/// Every preset of any directory is listed, once, and as that of the first
/// directory that holds it: a preset of the repository hides one of the user
/// with the same name. All of an earlier directory stand before all of a later
/// one.
pub proof fn law_first_of_a_name_wins(
    dirs: Seq<Seq<Seq<char>>>,
    listed: Seq<(usize, Seq<char>)>,
)
    requires
        dirs.len() <= usize::MAX,
        is_listing(dirs, dirs.len() as int, listed),
    ensures
        forall|i: int, j: int|
            0 <= i < j < listed.len() ==> (#[trigger] listed[i]).1 != (#[trigger] listed[j]).1
                && listed[i].0 <= listed[j].0,
        forall|d: int, name: Seq<char>|
            0 <= d < dirs.len() && #[trigger] holds_preset(dirs[d], name) ==> exists|k: int|
                0 <= k < listed.len() && (#[trigger] listed[k]).1 == name && listed[k].0 <= d,
        forall|k: int|
            0 <= k < listed.len() ==> (#[trigger] listed[k]).0 < dirs.len() && holds_preset(
                dirs[listed[k].0 as int],
                listed[k].1,
            ),
{
    assert forall|i: int, j: int| 0 <= i < j < listed.len() implies (#[trigger] listed[i]).1 != (
    #[trigger] listed[j]).1 && listed[i].0 <= listed[j].0 by {
        assert(goes_before(listed[i], listed[j]));
        text::lemma_precedes_irreflexive(listed[i].1 + ".json"@);
        if listed[i].0 < listed[j].0 && listed[i].1 == listed[j].1 {
            assert(found_first(dirs, listed[j].0 as int, listed[j].1));
            assert(!holds_preset(dirs[listed[i].0 as int], listed[j].1));
        }
    }
    assert forall|d: int, name: Seq<char>|
        0 <= d < dirs.len() && #[trigger] holds_preset(dirs[d], name) implies exists|k: int|
        0 <= k < listed.len() && (#[trigger] listed[k]).1 == name && listed[k].0 <= d by {
        let first = lemma_first_holder(dirs, d, name);
        assert(listed.contains((first as usize, name)));
        let k = choose|k: int| 0 <= k < listed.len() && listed[k] == (first as usize, name);
        assert(listed[k].1 == name);
    }
}

/// Whether a target is in order: its file reads, and is a template.
pub open spec fn is_in_order(target: TargetView) -> bool {
    target.read matches Ok(text) && request::template_of(text, "preset "@ + target.path) is Ok
}

/// The places of the targets before `n` that are not in order.
pub open spec fn faulty(targets: Seq<TargetView>, n: int) -> Set<int> {
    Set::new(|k: int| 0 <= k < n && !is_in_order(targets[k]))
}

/// Whether a line tells an error.
pub open spec fn tells_error(line: Seq<char>) -> bool {
    line.len() >= 6 && line.take(6) == "error "@
}

/// Validation counts every target that is not in order, at whatever place it
/// stands: those whose file does not read, or is no template. There is none
/// exactly where all are in order.
pub proof fn law_every_fault_counts(targets: Seq<TargetView>, n: int)
    requires
        0 <= n <= targets.len(),
    ensures
        faulty(targets, n).finite(),
        invalid_count(targets, n) == faulty(targets, n).len(),
        invalid_count(targets, n) == 0 <==> forall|k: int|
            0 <= k < n ==> is_in_order(#[trigger] targets[k]),
        invalid_count(targets, n) <= n,
    decreases n,
{
    if n == 0 {
        assert(faulty(targets, 0) =~= Set::empty());
    } else {
        law_every_fault_counts(targets, n - 1);
        let before = faulty(targets, n - 1);
        let after = faulty(targets, n);
        if is_in_order(targets[n - 1]) {
            assert(after =~= before);
        } else {
            assert(after =~= before.insert(n - 1));
            assert(!before.contains(n - 1));
            assert(!is_in_order(targets[n - 1]));
        }
    }
}

/// What is told of a target is an error exactly where it is not in order, and
/// that error is told on one line.
proof fn lemma_verdict(target: TargetView)
    ensures
        ({
            let lines = verdict(target.name, target.path, loaded(target.read, target.path));
            &&& lines.len() > 0
            &&& tells_error(lines[0]) <==> !is_in_order(target)
            &&& forall|k: int| 0 < k < lines.len() ==> !tells_error(#[trigger] lines[k])
            &&& !is_in_order(target) ==> lines.len() == 1
        }),
{
    let lines = verdict(target.name, target.path, loaded(target.read, target.path));
    reveal_strlit("error ");
    reveal_strlit("ok ");
    reveal_strlit("  note: ");
    assert("error "@.len() == 6 && "error "@[0] == 'e' && "ok "@[0] == 'o' && "  note: "@[0] == ' ');
    match loaded(target.read, target.path) {
        Err(e) => {
            assert(lines[0].take(6) =~= "error "@);
        },
        Ok(template) => {
            assert(lines[0][0] == 'o');
            if tells_error(lines[0]) {
                assert(lines[0].take(6)[0] == 'e');
            }
            if lines.len() > 1 {
                assert(lines[1][0] == ' ');
                if tells_error(lines[1]) {
                    assert(lines[1].take(6)[0] == 'e');
                }
            }
        },
    }
}

/// The lines that tell an error.
pub open spec fn error_lines(lines: Seq<Seq<char>>) -> Seq<Seq<char>> {
    lines.filter(|line: Seq<char>| tells_error(line))
}

/// One line is printed as an error for each target that is not in order: as
/// many as validation counts.
pub proof fn law_every_fault_is_told(targets: Seq<TargetView>, n: int)
    requires
        0 <= n <= targets.len(),
    ensures
        error_lines(verdicts(targets, n)).len() == invalid_count(targets, n),
    decreases n,
{
    let tells = |line: Seq<char>| tells_error(line);
    if n == 0 {
        reveal(Seq::filter);
        assert(verdicts(targets, 0).filter(tells).len() == 0);
    } else {
        let t = targets[n - 1];
        let told = verdict(t.name, t.path, loaded(t.read, t.path));
        law_every_fault_is_told(targets, n - 1);
        lemma_verdict(t);
        lemma_filter_concat(verdicts(targets, n - 1), told);
        lemma_error_lines(told);
    }
}

proof fn lemma_filter_concat(a: Seq<Seq<char>>, b: Seq<Seq<char>>)
    ensures
        error_lines(a + b).len() == error_lines(a).len() + error_lines(b).len(),
    decreases b.len(),
{
    reveal(Seq::filter);
    if b.len() == 0 {
        assert(a + b =~= a);
    } else {
        assert((a + b).drop_last() =~= a + b.drop_last());
        assert((a + b).last() == b.last());
        lemma_filter_concat(a, b.drop_last());
    }
}

/// Only the first of some lines may tell an error.
proof fn lemma_error_lines(lines: Seq<Seq<char>>)
    requires
        lines.len() > 0,
        forall|k: int| 0 < k < lines.len() ==> !tells_error(#[trigger] lines[k]),
    ensures
        error_lines(lines).len() == (if tells_error(lines[0]) {
            1int
        } else {
            0int
        }),
    decreases lines.len(),
{
    reveal(Seq::filter);
    let before = lines.drop_last();
    if lines.len() > 1 {
        assert forall|k: int| 0 < k < before.len() implies !tells_error(#[trigger] before[k]) by {
            assert(before[k] == lines[k]);
        }
        lemma_error_lines(before);
        assert(!tells_error(lines[lines.len() - 1]));
    } else {
        assert(before =~= Seq::empty());
        assert(error_lines(before).len() == 0);
        assert(lines.last() == lines[0]);
    }
}

/// The placeholders that are counted are those that have a name.
pub proof fn law_named_placeholders_count(needed: Seq<params::Need>)
    ensures
        named_needs(needed) == needed.filter(|need: params::Need| need.0.len() > 0).len(),
    decreases needed.len(),
{
    reveal(Seq::filter);
    if needed.len() > 0 {
        law_named_placeholders_count(needed.drop_last());
    }
}

/// A preset is loaded exactly where its file reads and is a template, and what
/// is loaded is that template.
pub proof fn law_loaded(read: Result<Seq<char>, Seq<char>>, path: Seq<char>)
    ensures
        match read {
            Ok(text) => match request::template_of(text, "preset "@ + path) {
                Ok(template) => loaded(read, path) == Ok::<TemplateView, Seq<char>>(template),
                Err(e) => loaded(read, path) == Err::<TemplateView, Seq<char>>(e),
            },
            Err(e) => loaded(read, path) == Err::<TemplateView, Seq<char>>(
                "failed to read preset "@ + path + ": "@ + e,
            ),
        },
{
}

/// What is told of the targets is told of one after the other, and of all: that
/// one is in order, with the number of its placeholders that have a name where
/// there are some and none is documented, or its error.
pub proof fn law_every_target_is_told(targets: Seq<TargetView>)
    ensures
        verdicts(targets, targets.len() as int) == Seq::new(
            targets.len(),
            |k: int|
                match loaded(targets[k].read, targets[k].path) {
                    Err(e) => seq![
                        "error "@ + targets[k].name + " ("@ + targets[k].path + "): "@ + e,
                    ],
                    Ok(template) => {
                        let named = params::needs(template.body, Seq::empty()).filter(
                            |need: params::Need| need.0.len() > 0,
                        );
                        let line = "ok "@ + targets[k].name + " ("@ + targets[k].path + ")"@;
                        if template.params.len() == 0 && named.len() > 0 {
                            seq![
                                line,
                                "  note: "@ + text::decimal(named.len())
                                    + " placeholder(s) but no 'params' documentation"@,
                            ]
                        } else {
                            seq![line]
                        }
                    },
                },
        ).flatten(),
{
    let each = Seq::new(
        targets.len(),
        |k: int| verdict(
            targets[k].name,
            targets[k].path,
            loaded(targets[k].read, targets[k].path),
        ),
    );
    lemma_verdicts(targets, targets.len() as int);
    let wanted = Seq::new(
        targets.len(),
        |k: int|
            match loaded(targets[k].read, targets[k].path) {
                Err(e) => seq!["error "@ + targets[k].name + " ("@ + targets[k].path + "): "@ + e],
                Ok(template) => {
                    let named = params::needs(template.body, Seq::empty()).filter(
                        |need: params::Need| need.0.len() > 0,
                    );
                    let line = "ok "@ + targets[k].name + " ("@ + targets[k].path + ")"@;
                    if template.params.len() == 0 && named.len() > 0 {
                        seq![
                            line,
                            "  note: "@ + text::decimal(named.len())
                                + " placeholder(s) but no 'params' documentation"@,
                        ]
                    } else {
                        seq![line]
                    }
                },
            },
    );
    assert forall|k: int| 0 <= k < targets.len() implies #[trigger] each[k] == wanted[k] by {
        if let Ok(template) = loaded(targets[k].read, targets[k].path) {
            law_named_placeholders_count(params::needs(template.body, Seq::empty()));
        }
    }
    assert(each =~= wanted);
    assert(Seq::new(targets.len(), |k: int| each[k]) =~= each);
}

proof fn lemma_verdicts(targets: Seq<TargetView>, n: int)
    requires
        0 <= n <= targets.len(),
    ensures
        verdicts(targets, n) == Seq::new(
            n as nat,
            |k: int| verdict(
                targets[k].name,
                targets[k].path,
                loaded(targets[k].read, targets[k].path),
            ),
        ).flatten(),
    decreases n,
{
    let each = Seq::new(
        n as nat,
        |k: int| verdict(
            targets[k].name,
            targets[k].path,
            loaded(targets[k].read, targets[k].path),
        ),
    );
    each.lemma_flatten_and_flatten_alt_are_equivalent();
    if n > 0 {
        let before = Seq::new(
            (n - 1) as nat,
            |k: int| verdict(
                targets[k].name,
                targets[k].path,
                loaded(targets[k].read, targets[k].path),
            ),
        );
        lemma_verdicts(targets, n - 1);
        before.lemma_flatten_and_flatten_alt_are_equivalent();
        assert(each.drop_last() =~= before);
    }
}

/// A directory holds a preset where one of its files is the name of the preset
/// with the ending of documents; a preset has a name. What lists presets lists
/// each under the first directory that holds it, and the presets of one
/// directory in the order of their files.
pub proof fn law_presets_are_files(
    dirs: Seq<Seq<Seq<char>>>,
    listed: Seq<(usize, Seq<char>)>,
    d: int,
    name: Seq<char>,
)
    requires
        dirs.len() <= usize::MAX,
        is_listing(dirs, dirs.len() as int, listed),
        0 <= d < dirs.len(),
    ensures
        listed.contains((d as usize, name)) <==> name.len() > 0 && (exists|f: int|
            0 <= f < dirs[d].len() && #[trigger] dirs[d][f] == name + ".json"@) && (forall|
            e: int,
            f: int,
        |
            0 <= e < d && 0 <= f < dirs[e].len() ==> #[trigger] dirs[e][f] != name + ".json"@),
        forall|i: int, j: int|
            0 <= i < j < listed.len() && (#[trigger] listed[i]).0 == (#[trigger] listed[j]).0
                ==> text::precedes(listed[i].1 + ".json"@, listed[j].1 + ".json"@),
{
    let file = name + ".json"@;
    assert forall|i: int, j: int|
        0 <= i < j < listed.len() && (#[trigger] listed[i]).0 == (
        #[trigger] listed[j]).0 implies text::precedes(
        listed[i].1 + ".json"@,
        listed[j].1 + ".json"@,
    ) by {
        assert(goes_before(listed[i], listed[j]));
    }
    if listed.contains((d as usize, name)) {
        let k = choose|k: int| 0 <= k < listed.len() && listed[k] == (d as usize, name);
        assert(found_first(dirs, listed[k].0 as int, listed[k].1));
        let f = choose|f: int| 0 <= f < dirs[d].len() && dirs[d][f] == file;
        assert(dirs[d][f] == file);
        assert forall|e: int, f: int| 0 <= e < d && 0 <= f < dirs[e].len() implies (
        #[trigger] dirs[e][f]) != file by {
            assert(!holds_preset(dirs[e], name));
            if dirs[e][f] == file {
                assert(dirs[e].contains(file));
            }
        }
    }
    if name.len() > 0 && (exists|f: int|
        0 <= f < dirs[d].len() && #[trigger] dirs[d][f] == name + ".json"@) && (forall|
        e: int,
        f: int,
    |
        0 <= e < d && 0 <= f < dirs[e].len() ==> #[trigger] dirs[e][f] != name + ".json"@) {
        assert(holds_preset(dirs[d], name));
        assert forall|e: int| 0 <= e < d implies !holds_preset(#[trigger] dirs[e], name) by {
            if holds_preset(dirs[e], name) {
                let f = choose|f: int| 0 <= f < dirs[e].len() && dirs[e][f] == file;
                assert(dirs[e][f] == file);
            }
        }
        assert(found_first(dirs, d, name));
    }
}

/// The line that lists a preset tells its name, its description where it has
/// one, and its file.
pub proof fn law_listing_says(name: Seq<char>, path: Seq<char>, description: Seq<char>)
    ensures
        listing(name, path, Some(description)) == name + "  "@ + description + "  ["@ + path + "]"@,
        listing(name, path, None) == name + "  ["@ + path + "]"@,
{
}

/// The description of a preset is what its document says under that key, where
/// the document is a template.
pub proof fn law_description_says(text: Seq<char>, label: Seq<char>)
    ensures
        match request::template_of(text, label) {
            Ok(template) => description_of(text, label) == template.description,
            Err(_) => description_of(text, label) is None,
        },
{
}

/// Whatever validation gives for targets counts those, at whatever place, whose
/// file does not read or is no template, and prints an error for each of them.
/// The exit code is 1 exactly where there is one, and 0 otherwise.
pub proof fn law_validation(
    targets: Vec<Target>,
    lines: Vec<String>,
    invalid: usize,
    code: u8,
)
    requires
        call_ensures(
            validate,
            (targets,),
            Ok::<(Vec<String>, usize), UsageError>((lines, invalid)),
        ),
        call_ensures(validation_code, (invalid,), code),
    ensures
        invalid == Set::new(
            |k: int|
                0 <= k < targets@.len() && !(targets@[k].read matches Ok(text)
                    && request::template_of(text@, "preset "@ + targets@[k].path@) is Ok),
        ).len(),
        error_lines(text::texts(lines@)).len() == invalid,
        code == 1 <==> exists|k: int|
            0 <= k < targets@.len() && !((#[trigger] targets@[k]).read matches Ok(text)
                && request::template_of(text@, "preset "@ + targets@[k].path@) is Ok),
        code == 0 || code == 1,
{
    let views = target_views(targets@);
    let n = targets@.len() as int;
    assert forall|k: int| 0 <= k < n implies (#[trigger] is_in_order(views[k])) == (
    targets@[k].read matches Ok(text) && request::template_of(
        text@,
        "preset "@ + targets@[k].path@,
    ) is Ok) by {
        assert(views[k] == targets@[k]@);
    }
    law_every_fault_counts(views, n);
    law_every_fault_is_told(views, n);
    assert(faulty(views, n) =~= Set::new(
        |k: int|
            0 <= k < targets@.len() && !(targets@[k].read matches Ok(text)
                && request::template_of(text@, "preset "@ + targets@[k].path@) is Ok),
    ));
    if invalid > 0 {
        let k = choose|k: int| 0 <= k < n && !is_in_order(#[trigger] views[k]);
        assert(!is_in_order(views[k]));
        assert(targets@[k] == targets@[k]);
    } else {
        assert forall|k: int| 0 <= k < n implies ((#[trigger] targets@[k]).read matches Ok(text)
            && request::template_of(text@, "preset "@ + targets@[k].path@) is Ok) by {
            assert(is_in_order(views[k]));
        }
    }
}

/// The directory of a preset is the first that holds its file. Where none does,
/// the error names the preset and all directories.
pub proof fn law_resolve(name: &str, places: &Vec<Place>, r: Result<usize, UsageError>)
    requires
        call_ensures(resolve, (name, places), r),
    ensures
        r is Ok <==> exists|k: int| 0 <= k < places@.len() && (#[trigger] places@[k]).has_file,
        r matches Ok(i) ==> i < places@.len() && places@[i as int].has_file && forall|k: int|
            0 <= k < i ==> !(#[trigger] places@[k]).has_file,
        r matches Err(e) ==> e@ == "preset '"@ + name@ + "' not found; searched: "@ + text::joined(
            Seq::new(places@.len(), |k: int| places@[k].dir@),
            ", "@,
        ) + " (list with jev presets list)"@,
{
    assert(dir_views(places@) =~= Seq::new(places@.len(), |k: int| places@[k].dir@));
    if let Ok(i) = r {
        assert(places@[i as int].has_file);
    }
}

/// The file of a preset is its name with the ending of documents.
pub proof fn law_file_name(name: &str, file: String)
    requires
        call_ensures(file_name, (name,), file),
    ensures
        file@.len() == name@.len() + 5,
        file@.take(name@.len() as int) == name@,
        file@.skip(name@.len() as int) == ".json"@,
{
    reveal_strlit(".json");
    assert(file@.take(name@.len() as int) =~= name@);
    assert(file@.skip(name@.len() as int) =~= ".json"@);
}

/// A preset is shown as its document, indented; one that does not read is told
/// with its file.
pub proof fn law_shown(read: Result<JsonView, Seq<char>>, path: Seq<char>)
    ensures
        read matches Ok(view) ==> shown(read, path) == Ok::<Seq<char>, Seq<char>>(
            document::pretty_text(view),
        ),
        read matches Err(e) ==> shown(read, path) == Err::<Seq<char>, Seq<char>>(
            "preset "@ + path + " is not valid JSON"@ + ": "@ + e,
        ),
{
}

} // verus!
